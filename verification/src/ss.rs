//! The output of `ss -tunpi`, socket by socket.

use vstd::prelude::*;
use vstd::slice::slice_subrange;

use crate::listing;
use crate::text;
use crate::text::{
    begins, chars_of, count_digits, find_char, find_last, find_text, joined, read_u16, read_u32,
    read_u64, spells, split_lines, split_words, text_of, trimmed_start,
};

verus! {

/// One socket as `ss` lists it.
pub struct Socket {
    /// `tcp` or `udp`.
    pub proto: String,
    /// Local endpoint.
    pub local: String,
    /// Remote endpoint.
    pub remote: String,
    /// Name of the owning process, `-` where it is not visible.
    pub comm: String,
    /// Number of the owning process.
    pub pid: Option<u32>,
    /// Bytes received since the socket was opened.
    pub rx_bytes: Option<u64>,
    /// Bytes sent since the socket was opened.
    pub tx_bytes: Option<u64>,
}

/// What a [`Socket`] says.
#[verifier::ext_equal]
pub struct SocketModel {
    /// `tcp` or `udp`.
    pub proto: Seq<char>,
    /// Local endpoint.
    pub local: Seq<char>,
    /// Remote endpoint.
    pub remote: Seq<char>,
    /// Name of the owning process.
    pub comm: Seq<char>,
    /// Number of the owning process.
    pub pid: Option<u32>,
    /// Bytes received.
    pub rx_bytes: Option<u64>,
    /// Bytes sent.
    pub tx_bytes: Option<u64>,
}

impl View for Socket {
    type V = SocketModel;

    open spec fn view(&self) -> SocketModel {
        SocketModel {
            proto: self.proto@,
            local: self.local@,
            remote: self.remote@,
            comm: self.comm@,
            pid: self.pid,
            rx_bytes: self.rx_bytes,
            tx_bytes: self.tx_bytes,
        }
    }
}

/// The models of a vector of sockets.
pub open spec fn sockets(v: Seq<Socket>) -> Seq<SocketModel> {
    v.map_values(|x: Socket| x@)
}

// ── Models ───────────────────────────────────────────────────────────────────

/// `s` without quotation marks in front.
pub open spec fn unquote_start(s: Seq<char>) -> Seq<char>
    decreases s.len(),
{
    if s.len() > 0 && s[0] == '"' {
        unquote_start(s.drop_first())
    } else {
        s
    }
}

/// `s` without quotation marks at the end.
pub open spec fn unquote_end(s: Seq<char>) -> Seq<char>
    decreases s.len(),
{
    if s.len() > 0 && s.last() == '"' {
        unquote_end(s.drop_last())
    } else {
        s
    }
}

/// `s` without quotation marks around it.
pub open spec fn unquote(s: Seq<char>) -> Seq<char> {
    unquote_end(unquote_start(s))
}

/// No visible owner.
pub open spec fn nobody() -> (Seq<char>, Option<u32>) {
    (seq!['-'], None)
}

/// The process number among what stands behind the name of an owner, up to the
/// parenthesis that closes it.
pub open spec fn owner_pid(tail: Seq<char>) -> Option<u32> {
    let own = tail.take(text::char_pos(tail, ')', 0));
    match text::find(own, "pid="@) {
        None => None,
        Some(k) => text::as_u32(text::leading_digits(own.skip(k + 4))),
    }
}

/// Where the name of an owner ends: at the comma behind its closing quotation mark,
/// or at the first comma where it is not in quotation marks.
pub open spec fn name_end(own: Seq<char>) -> int {
    if own.len() > 0 && own[0] == '"' {
        match text::find(own.skip(1), "\","@) {
            Some(k) => k + 2,
            None => text::char_pos(own, ',', 0),
        }
    } else {
        text::char_pos(own, ',', 0)
    }
}

/// The owner that a text begins with, from its opening bracket on. An empty bracket
/// names nobody.
pub open spec fn owner_at(own: Seq<char>) -> (Seq<char>, Option<u32>) {
    let stop = name_end(own);
    if own.len() == 0 || own[0] == ')' || stop >= own.len() {
        nobody()
    } else {
        (unquote(own.take(stop)), owner_pid(own.skip(stop)))
    }
}

/// The first owner in `users:(("name",pid=N,fd=M), ...)`. Its name stands in
/// quotation marks and may then hold commas.
pub open spec fn owner(s: Seq<char>) -> (Seq<char>, Option<u32>) {
    match text::find(s, "users:("@) {
        None => nobody(),
        Some(p) => {
            let rest = s.skip(p + 7);
            let open = text::char_pos(rest, '(', 0);
            if open >= rest.len() || text::char_pos(rest, ')', 0) < open {
                nobody()
            } else {
                owner_at(rest.skip(open + 1))
            }
        },
    }
}

/// The number behind `key`.
pub open spec fn keyed_number(s: Seq<char>, key: Seq<char>) -> Option<u64> {
    match text::find(s, key) {
        None => None,
        Some(p) => text::as_u64(text::leading_digits(s.skip(p + key.len()))),
    }
}

/// The last position at or before `i` at which `p` occurs.
pub open spec fn rfind_from(s: Seq<char>, p: Seq<char>, i: int) -> Option<int>
    decreases i + 1,
{
    if i < 0 {
        None
    } else if text::occurs_at(s, p, i) {
        Some(i)
    } else {
        rfind_from(s, p, i - 1)
    }
}

/// Address and port, split at `sep`.
pub open spec fn address_port(s: Seq<char>, at: Option<int>, width: int) -> Option<
    (Seq<char>, u16),
> {
    match at {
        None => None,
        Some(k) => match text::as_u16(s.skip(k + width)) {
            None => None,
            Some(port) => Some((s.take(k), port)),
        },
    }
}

/// Address and port of `IP:port` or `[IPv6]:port`. A wildcard address has none.
pub open spec fn endpoint(s: Seq<char>) -> Option<(Seq<char>, u16)> {
    if s.len() > 0 && s[0] == '[' {
        let rest = s.drop_first();
        address_port(rest, rfind_from(rest, "]:"@, rest.len() as int), 2)
    } else if s.len() > 0 && s[0] == '*' {
        None
    } else {
        address_port(s, text::last_pos(s, ':', s.len() as int), 1)
    }
}

/// The word with number `i`, empty where there are fewer.
pub open spec fn word_at(ws: Seq<Seq<char>>, i: int) -> Seq<char> {
    if i < ws.len() {
        ws[i]
    } else {
        Seq::empty()
    }
}

/// Whether the words are those of a listed socket: a UDP socket, or a TCP socket
/// with an established connection.
pub open spec fn is_socket(ws: Seq<Seq<char>>) -> bool {
    ws.len() > 0 && (ws[0] == "udp"@ || (ws[0] == "tcp"@ && word_at(ws, 1) == "ESTAB"@))
}

/// Whether a line holds the details of the socket before it.
pub open spec fn is_detail(line: Seq<char>) -> bool {
    &&& text::starts_with(line, "\t"@) || text::starts_with(line, "    "@)
    &&& text::find(text::trim_start(line), "bytes_"@) is Some
}

/// The socket that the words of a line and its detail line describe.
pub open spec fn socket_of(ws: Seq<Seq<char>>, detail: Option<Seq<char>>) -> SocketModel {
    let who = owner(
        text::join_words(
            if ws.len() > 6 {
                ws.skip(6)
            } else {
                Seq::empty()
            },
        ),
    );
    SocketModel {
        proto: ws[0],
        local: word_at(ws, 4),
        remote: word_at(ws, 5),
        comm: who.0,
        pid: who.1,
        rx_bytes: match detail {
            Some(d) => keyed_number(text::trim_start(d), "bytes_received:"@),
            None => None,
        },
        tx_bytes: match detail {
            Some(d) => keyed_number(text::trim_start(d), "bytes_sent:"@),
            None => None,
        },
    }
}

/// The sockets listed at or after line `i`.
pub open spec fn sockets_from(ls: Seq<Seq<char>>, i: int) -> Seq<SocketModel>
    decreases ls.len() - i,
{
    if i < 0 || i >= ls.len() {
        Seq::empty()
    } else if !is_socket(text::words(ls[i])) {
        sockets_from(ls, i + 1)
    } else if i + 1 < ls.len() && is_detail(ls[i + 1]) {
        seq![socket_of(text::words(ls[i]), Some(ls[i + 1]))] + sockets_from(ls, i + 2)
    } else {
        seq![socket_of(text::words(ls[i]), None)] + sockets_from(ls, i + 1)
    }
}

// ── Readers ──────────────────────────────────────────────────────────────────

fn unquoted<'a>(s: &'a [char]) -> (r: &'a [char])
    ensures
        r@ == unquote(s@),
{
    let mut i: usize = 0;
    assert(s@.skip(0) =~= s@);
    while i < s.len() && s[i] == '"'
        invariant
            i <= s@.len(),
            unquote_start(s@.skip(i as int)) == unquote_start(s@),
        decreases s@.len() - i,
    {
        assert(s@.skip(i as int)[0] == s@[i as int]);
        assert(s@.skip(i as int).drop_first() =~= s@.skip(i + 1));
        i += 1;
    }
    let t = slice_subrange(s, i, s.len());
    proof {
        assert(t@ =~= s@.skip(i as int));
        if i < s@.len() {
            assert(t@[0] == s@[i as int]);
        }
        assert(t@ == unquote_start(s@));
    }
    let mut j: usize = t.len();
    assert(t@.take(j as int) =~= t@);
    while j > 0 && t[j - 1] == '"'
        invariant
            j <= t@.len(),
            unquote_end(t@.take(j as int)) == unquote_end(t@),
        decreases j,
    {
        assert(t@.take(j as int).last() == t@[j - 1]);
        assert(t@.take(j as int).drop_last() =~= t@.take(j - 1));
        j -= 1;
    }
    let r = slice_subrange(t, 0, j);
    proof {
        assert(r@ =~= t@.take(j as int));
        if j > 0 {
            assert(r@.last() == t@[j - 1]);
        }
    }
    r
}

fn nobody_found() -> (r: (String, Option<u32>))
    ensures
        (r.0@, r.1) == nobody(),
{
    let mut s = String::new();
    s.push('-');
    assert(s@ =~= seq!['-']);
    (s, None)
}

fn pid_of(tail: &[char]) -> (r: Option<u32>)
    ensures
        r == owner_pid(tail@),
{
    proof {
        reveal_strlit("pid=");
        text::lemma_char_pos(tail@, ')', 0);
    }
    let key = chars_of("pid=");
    let close: usize = find_char(tail, ')', 0);
    let own = slice_subrange(tail, 0, close);
    assert(own@ =~= tail@.take(close as int));
    proof {
        text::lemma_find_from(own@, "pid="@, 0);
    }
    match find_text(own, key.as_slice()) {
        None => None,
        Some(k) => {
            let digits = slice_subrange(own, k + 4, own.len());
            assert(digits@ =~= own@.skip(k + 4));
            let n: usize = count_digits(digits);
            let d = slice_subrange(digits, 0, n);
            assert(d@ =~= digits@.take(n as int));
            read_u32(d)
        },
    }
}

fn end_of_name(own: &[char]) -> (r: usize)
    ensures
        r == name_end(own@),
        r <= own@.len(),
{
    proof {
        reveal_strlit("\",");
        text::lemma_char_pos(own@, ',', 0);
    }
    if own.len() > 0 && own[0] == '"' {
        let closing = chars_of("\",");
        let named = slice_subrange(own, 1, own.len());
        assert(named@ =~= own@.skip(1));
        proof {
            text::lemma_find_from(named@, "\","@, 0);
        }
        if let Some(k) = find_text(named, closing.as_slice()) {
            return k + 2;
        }
    }
    find_char(own, ',', 0)
}

fn first_owner(own: &[char]) -> (r: (String, Option<u32>))
    ensures
        (r.0@, r.1) == owner_at(own@),
{
    let n: usize = own.len();
    let stop: usize = end_of_name(own);
    if n == 0 || own[0] == ')' || stop >= n {
        return nobody_found();
    }
    let name = slice_subrange(own, 0, stop);
    assert(name@ =~= own@.take(stop as int));
    let tail = slice_subrange(own, stop, n);
    assert(tail@ =~= own@.skip(stop as int));
    (text_of(unquoted(name)), pid_of(tail))
}

fn owner_of(s: &[char]) -> (r: (String, Option<u32>))
    ensures
        (r.0@, r.1) == owner(s@),
{
    proof {
        reveal_strlit("users:(");
        text::lemma_find_from(s@, "users:("@, 0);
    }
    let key = chars_of("users:(");
    let total: usize = s.len();
    match find_text(s, key.as_slice()) {
        None => nobody_found(),
        Some(p) => {
            let rest = slice_subrange(s, p + 7, total);
            assert(rest@ =~= s@.skip(p + 7));
            let open: usize = find_char(rest, '(', 0);
            let close: usize = find_char(rest, ')', 0);
            if open >= rest.len() || close < open {
                return nobody_found();
            }
            let own = slice_subrange(rest, open + 1, rest.len());
            assert(own@ =~= rest@.skip(open + 1));
            first_owner(own)
        },
    }
}

/// The first owner named in `users:(("name",pid=N,fd=M), ...)`, or `-` and no
/// number when no owner is visible.
pub fn parse_users(s: &str) -> (r: (String, Option<u32>))
    ensures
        (r.0@, r.1) == owner(s@),
{
    let cs = chars_of(s);
    owner_of(cs.as_slice())
}

fn number_behind(s: &[char], key: &[char]) -> (r: Option<u64>)
    ensures
        r == keyed_number(s@, key@),
{
    let total: usize = s.len();
    match find_text(s, key) {
        None => None,
        Some(p) => {
            let after = slice_subrange(s, p + key.len(), total);
            assert(after@ =~= s@.skip(p + key@.len()));
            let n: usize = count_digits(after);
            let d = slice_subrange(after, 0, n);
            assert(d@ =~= after@.take(n as int));
            read_u64(d)
        },
    }
}

/// The number that stands directly behind `key` in `s`.
pub fn find_bytes(s: &str, key: &str) -> (r: Option<u64>)
    ensures
        r == keyed_number(s@, key@),
{
    let cs = chars_of(s);
    let k = chars_of(key);
    number_behind(cs.as_slice(), k.as_slice())
}

/// Address text and port of an endpoint. Whether the text is an address is left
/// to whoever resolves it.
pub fn parse_endpoint(s: &str) -> (r: Option<(String, u16)>)
    ensures
        match r {
            Some((ip, port)) => endpoint(s@) == Some((ip@, port)),
            None => endpoint(s@) is None,
        },
{
    let cs = chars_of(s);
    let all = cs.as_slice();
    let n: usize = all.len();
    if n > 0 && all[0] == '[' {
        proof {
            reveal_strlit("]:");
        }
        let rest = slice_subrange(all, 1, n);
        assert(rest@ =~= all@.drop_first());
        let m: usize = rest.len();
        let ghost pat = "]:"@;
        let mut i: usize = m;
        assert(!text::occurs_at(rest@, pat, m as int));
        while i > 0
            invariant
                i <= m == rest@.len(),
                pat.len() == 2 && pat[0] == ']' && pat[1] == ':',
                rfind_from(rest@, pat, i - 1) == rfind_from(rest@, pat, m as int),
                endpoint(s@) == address_port(rest@, rfind_from(rest@, pat, m as int), 2),
            decreases i,
        {
            i -= 1;
            if i + 1 < m && rest[i] == ']' && rest[i + 1] == ':' {
                assert(rest@.subrange(i as int, i + 2) =~= pat);
                let front = slice_subrange(rest, 0, i);
                let back = slice_subrange(rest, i + 2, m);
                assert(front@ =~= rest@.take(i as int));
                assert(back@ =~= rest@.skip(i + 2));
                return match read_u16(back) {
                    None => None,
                    Some(port) => Some((text_of(front), port)),
                };
            }
            assert(!text::occurs_at(rest@, pat, i as int)) by {
                if text::occurs_at(rest@, pat, i as int) {
                    assert(rest@.subrange(i as int, i + 2)[0] == rest@[i as int]);
                    assert(rest@.subrange(i as int, i + 2)[1] == rest@[i + 1]);
                }
            }
        }
        return None;
    }
    if n > 0 && all[0] == '*' {
        return None;
    }
    match find_last(all, ':') {
        None => None,
        Some(k) => {
            let front = slice_subrange(all, 0, k);
            let back = slice_subrange(all, k + 1, n);
            assert(front@ =~= all@.take(k as int));
            assert(back@ =~= all@.skip(k + 1));
            match read_u16(back) {
                None => None,
                Some(port) => Some((text_of(front), port)),
            }
        },
    }
}

fn word_text(ws: &Vec<Vec<char>>, i: usize) -> (r: String)
    ensures
        r@ == word_at(text::texts(ws@), i as int),
{
    assert(text::texts(ws@).len() == ws@.len());
    if i < ws.len() {
        assert(text::texts(ws@)[i as int] == ws@[i as int]@);
        text_of(ws[i].as_slice())
    } else {
        String::new()
    }
}

fn names_socket(ws: &Vec<Vec<char>>) -> (r: bool)
    ensures
        r == is_socket(text::texts(ws@)),
{
    assert(text::texts(ws@).len() == ws@.len());
    if ws.len() == 0 {
        return false;
    }
    assert(text::texts(ws@)[0] == ws@[0]@);
    if spells(ws[0].as_slice(), "udp") {
        return true;
    }
    proof {
        reveal_strlit("ESTAB");
    }
    if ws.len() < 2 {
        assert(word_at(text::texts(ws@), 1).len() != "ESTAB"@.len());
        return false;
    }
    assert(text::texts(ws@)[1] == ws@[1]@);
    spells(ws[0].as_slice(), "tcp") && spells(ws[1].as_slice(), "ESTAB")
}

fn holds_detail(line: &[char]) -> (r: bool)
    ensures
        r == is_detail(line@),
{
    let tab = chars_of("\t");
    let four = chars_of("    ");
    let key = chars_of("bytes_");
    (begins(line, tab.as_slice()) || begins(line, four.as_slice())) && find_text(
        trimmed_start(line),
        key.as_slice(),
    ).is_some()
}

fn make_socket(ws: &Vec<Vec<char>>, detail: Option<&Vec<char>>) -> (r: Socket)
    requires
        ws@.len() > 0,
    ensures
        r@ == socket_of(
            text::texts(ws@),
            match detail {
                Some(d) => Some(d@),
                None => None,
            },
        ),
{
    let from: usize = if ws.len() > 6 {
        6
    } else {
        ws.len()
    };
    let users = joined(ws, from);
    proof {
        assert(text::texts(ws@).len() == ws@.len());
        if ws@.len() <= 6 {
            assert(text::texts(ws@).skip(from as int) =~= Seq::<Seq<char>>::empty());
        }
        assert(text::texts(ws@)[0] == ws@[0]@);
    }
    let (comm, pid) = owner_of(users.as_slice());
    let rx_key = chars_of("bytes_received:");
    let tx_key = chars_of("bytes_sent:");
    let (rx_bytes, tx_bytes): (Option<u64>, Option<u64>) = match detail {
        None => (None, None),
        Some(d) => {
            let t = trimmed_start(d.as_slice());
            (number_behind(t, rx_key.as_slice()), number_behind(t, tx_key.as_slice()))
        },
    };
    Socket {
        proto: text_of(ws[0].as_slice()),
        local: word_text(ws, 4),
        remote: word_text(ws, 5),
        comm,
        pid,
        rx_bytes,
        tx_bytes,
    }
}

/// The sockets in the output of `ss -tunpi`.
pub fn parse_ss(out: &str) -> (r: Vec<Socket>)
    ensures
        sockets(r@) == sockets_from(text::lines(out@), 0),
        listing::is_complete(text::lines(out@), 0, sockets(r@)),
{
    let cs = chars_of(out);
    let ls = split_lines(cs.as_slice());
    let ghost all = text::lines(out@);
    assert(text::texts(ls@).len() == ls@.len());
    let mut r: Vec<Socket> = Vec::new();
    let mut i: usize = 0;
    assert(sockets(r@) + sockets_from(all, 0) =~= sockets_from(all, 0));
    while i < ls.len()
        invariant
            i <= ls@.len(),
            text::texts(ls@) == all,
            sockets(r@) + sockets_from(all, i as int) == sockets_from(all, 0),
        decreases ls@.len() - i,
    {
        let ghost done = sockets(r@);
        assert(all[i as int] == ls@[i as int]@);
        let ws = split_words(ls[i].as_slice());
        assert(text::texts(ws@).len() == ws@.len());
        if !names_socket(&ws) {
            i += 1;
        } else if i + 1 < ls.len() && holds_detail(ls[i + 1].as_slice()) {
            assert(all[i + 1] == ls@[i + 1]@);
            let sock = make_socket(&ws, Some(&ls[i + 1]));
            let ghost m = sock@;
            r.push(sock);
            assert(sockets(r@) =~= done.push(m));
            assert(sockets(r@) + sockets_from(all, i + 2) =~= done + sockets_from(all, i as int));
            i += 2;
        } else {
            if i + 1 < ls.len() {
                assert(all[i + 1] == ls@[i + 1]@);
            }
            let sock = make_socket(&ws, None);
            let ghost m = sock@;
            r.push(sock);
            assert(sockets(r@) =~= done.push(m));
            assert(sockets(r@) + sockets_from(all, i + 1) =~= done + sockets_from(all, i as int));
            i += 1;
        }
    }
    assert(sockets(r@) + sockets_from(all, i as int) =~= sockets(r@));
    proof {
        listing::law_listing(all, 0);
    }
    r
}

// ── Laws ─────────────────────────────────────────────────────────────────────

/// The first owner is read back, whatever its name, as long as that does not hold
/// the two characters that end it nor begin or end with a quotation mark, and
/// whatever stands around it.
pub proof fn law_owner_reads_back(front: Seq<char>, name: Seq<char>, pid: u32, rest: Seq<char>)
    requires
        text::find(front + "users:("@, "users:("@) == Some(front.len() as int),
        text::find(name + "\","@, "\","@) == Some(name.len() as int),
        name.len() > 0 ==> name[0] != '"' && name.last() != '"',
        rest.len() > 0 ==> !text::is_digit(rest[0]),
    ensures
        owner(
            front + "users:("@ + seq!['(', '"'] + name + "\",pid="@ + text::decimal(pid as nat)
                + rest,
        ) == (name, Some(pid)),
{
    reveal_strlit("users:(");
    reveal_strlit("\",");
    reveal_strlit("\",pid=");
    reveal_strlit("pid=");
    let number = text::decimal(pid as nat);
    let all = front + "users:("@ + seq!['(', '"'] + name + "\",pid="@ + number + rest;
    let opened = front + "users:("@;
    let own = seq!['"'] + name + "\",pid="@ + number + rest;
    let behind = seq!['('] + own;
    assert(all =~= opened + behind);
    text::lemma_find_extended(opened, behind, "users:("@);
    assert(all.skip(front.len() as int + 7) =~= behind);
    assert(text::char_pos(behind, '(', 0) == 0);
    text::lemma_char_pos(behind, ')', 0);
    assert(behind.skip(1) =~= own);
    let left = "pid="@ + number + rest;
    assert(own.skip(1) =~= (name + "\","@) + left);
    text::lemma_find_extended(name + "\","@, left, "\","@);
    let stop = name.len() as int + 2;
    assert(name_end(own) == stop);
    assert(own.take(stop) =~= seq!['"'] + name + seq!['"']);
    lemma_unquoted(name);
    assert(own.skip(stop) =~= seq![','] + left);
    lemma_owner_pid(pid, rest);
}

/// An owner whose name has no quotation marks is read back too, up to the first comma.
pub proof fn law_plain_owner_reads_back(
    front: Seq<char>,
    name: Seq<char>,
    pid: u32,
    rest: Seq<char>,
)
    requires
        text::find(front + "users:("@, "users:("@) == Some(front.len() as int),
        name.len() > 0 && name[0] != '"' && name[0] != ')' && name.last() != '"',
        forall|i: int| 0 <= i < name.len() ==> #[trigger] name[i] != ',',
        rest.len() > 0 ==> !text::is_digit(rest[0]),
    ensures
        owner(
            front + "users:("@ + seq!['('] + name + ",pid="@ + text::decimal(pid as nat) + rest,
        ) == (name, Some(pid)),
{
    reveal_strlit("users:(");
    reveal_strlit(",pid=");
    reveal_strlit("pid=");
    let number = text::decimal(pid as nat);
    let all = front + "users:("@ + seq!['('] + name + ",pid="@ + number + rest;
    let opened = front + "users:("@;
    let own = name + ",pid="@ + number + rest;
    let behind = seq!['('] + own;
    assert(all =~= opened + behind);
    text::lemma_find_extended(opened, behind, "users:("@);
    assert(all.skip(front.len() as int + 7) =~= behind);
    assert(text::char_pos(behind, '(', 0) == 0);
    text::lemma_char_pos(behind, ')', 0);
    assert(behind.skip(1) =~= own);
    let stop = name.len() as int;
    text::lemma_char_pos(own, ',', 0);
    assert(own[stop] == ',');
    assert(text::char_pos(own, ',', 0) == stop) by {
        let p = text::char_pos(own, ',', 0);
        if p < stop {
            assert(own[p] == name[p]);
        }
        if p > stop {
            assert(own[stop] != ',');
        }
    }
    assert(own[0] == name[0]);
    assert(name_end(own) == stop);
    assert(own.take(stop) =~= name);
    assert(unquote(name) == name);
    assert(own.skip(stop) =~= seq![','] + ("pid="@ + number + rest));
    lemma_owner_pid(pid, rest);
}

/// Quotation marks are taken off a name that has none of its own at its ends.
proof fn lemma_unquoted(name: Seq<char>)
    requires
        name.len() > 0 ==> name[0] != '"' && name.last() != '"',
    ensures
        unquote(seq!['"'] + name + seq!['"']) == name,
{
    let all = seq!['"'] + name + seq!['"'];
    let tail = name + seq!['"'];
    reveal_with_fuel(unquote_start, 3);
    reveal_with_fuel(unquote_end, 3);
    assert(all.drop_first() =~= tail);
    if name.len() == 0 {
        assert(tail.drop_first() =~= Seq::<char>::empty());
    } else {
        assert(tail[0] == name[0]);
        assert(tail.drop_last() =~= name);
    }
}

/// The number of an owner is read back.
proof fn lemma_owner_pid(pid: u32, rest: Seq<char>)
    requires
        rest.len() > 0 ==> !text::is_digit(rest[0]),
    ensures
        owner_pid(seq![','] + ("pid="@ + text::decimal(pid as nat) + rest)) == Some(pid),
{
    reveal_strlit("pid=");
    let number = text::decimal(pid as nat);
    let tail = seq![','] + ("pid="@ + number + rest);
    text::law_decimal_reads_back(pid as nat, u32::MAX as nat);
    text::lemma_decimal_digits(pid as nat);
    // The number stands before anything that could close the owner.
    let close = text::char_pos(tail, ')', 0);
    text::lemma_char_pos(tail, ')', 0);
    let stop = 5 + number.len();
    assert forall|j: int| 0 <= j < stop implies #[trigger] tail[j] != ')' by {
        if j >= 5 {
            assert(tail[j] == number[j - 5]);
            assert(text::is_digit(number[j - 5]));
        }
    }
    assert(close >= stop);
    let own = tail.take(close);
    assert(text::find(own, "pid="@) == Some(1int)) by {
        assert(own.subrange(1, 5) =~= "pid="@);
        assert(own.subrange(0, 4)[0] == ',');
        reveal_with_fuel(text::find_from, 2);
    }
    let digits = own.skip(5);
    assert(text::leading_digits(digits) =~= number) by {
        text::lemma_leading_digits(digits);
        let d = text::leading_digits(digits);
        let n = d.len() as int;
        if n < number.len() {
            assert(digits[n] == number[n]);
            assert(text::is_digit(number[n]));
        }
        if n > number.len() {
            assert(text::is_digit(d[number.len() as int]));
            assert(digits[number.len() as int] == rest[0]);
        }
    }
}

/// Where the brackets of the owners are empty nobody is named, whatever stands
/// around them.
pub proof fn law_no_owner(front: Seq<char>, rest: Seq<char>)
    requires
        text::find(front + "users:("@, "users:("@) == Some(front.len() as int),
    ensures
        owner(front + "users:("@ + seq!['(', ')'] + rest) == nobody(),
        owner(front + "users:("@ + seq![')'] + rest) == nobody(),
{
    reveal_strlit("users:(");
    let opened = front + "users:("@;
    let behind = seq!['(', ')'] + rest;
    let all = front + "users:("@ + seq!['(', ')'] + rest;
    assert(all =~= opened + behind);
    text::lemma_find_extended(opened, behind, "users:("@);
    assert(all.skip(front.len() as int + 7) =~= behind);
    assert(text::char_pos(behind, '(', 0) == 0);
    text::lemma_char_pos(behind, ')', 0);
    assert(behind.skip(1)[0] == ')');
    let shut = seq![')'] + rest;
    let none = front + "users:("@ + seq![')'] + rest;
    assert(none =~= opened + shut);
    text::lemma_find_extended(opened, shut, "users:("@);
    assert(none.skip(front.len() as int + 7) =~= shut);
    assert(text::char_pos(shut, ')', 0) == 0);
    text::lemma_char_pos(shut, '(', 0);
}

/// A line that does not speak of owners names nobody, which is a dash without a
/// number.
pub proof fn law_nobody(s: Seq<char>)
    requires
        forall|k: int| !#[trigger] text::occurs_at(s, "users:("@, k),
    ensures
        owner(s).0 == seq!['-'],
        owner(s).1 is None,
        nobody().0 == seq!['-'],
        nobody().1 is None,
{
    text::lemma_find_from(s, "users:("@, 0);
}

/// An address and a port read back from what they are written as, the address
/// in brackets or, unless it begins like a bracket or a wildcard, without them.
pub proof fn law_endpoint_reads_back(ip: Seq<char>, port: u16)
    ensures
        !(ip.len() > 0 && (ip[0] == '[' || ip[0] == '*')) ==> endpoint(
            ip + seq![':'] + text::decimal(port as nat),
        ) == Some((ip, port)),
        endpoint(seq!['['] + ip + "]:"@ + text::decimal(port as nat)) == Some((ip, port)),
{
    reveal_strlit("]:");
    let number = text::decimal(port as nat);
    text::law_decimal_reads_back(port as nat, u16::MAX as nat);
    text::lemma_decimal_digits(port as nat);
    let s = ip + seq![':'] + number;
    let k = ip.len() as int;
    text::lemma_last_pos(s, ':', s.len() as int);
    assert(s[k] == ':');
    assert forall|i: int| k < i < s.len() implies #[trigger] s[i] != ':' by {
        assert(text::is_digit(number[i - k - 1]));
    }
    assert(text::last_pos(s, ':', s.len() as int) == Some(k));
    assert(s.skip(k + 1) =~= number);
    assert(s.take(k) =~= ip);
    let t = seq!['['] + ip + "]:"@ + number;
    let rest = t.drop_first();
    assert(rest =~= ip + "]:"@ + number);
    assert(rest.subrange(k, k + 2) =~= "]:"@);
    assert forall|i: int| k < i <= rest.len() implies !text::occurs_at(rest, "]:"@, i) by {
        if text::occurs_at(rest, "]:"@, i) {
            assert(rest.subrange(i, i + 2)[1] == rest[i + 1]);
            assert(rest[i + 1] == number[i + 1 - k - 2]);
            assert(text::is_digit(number[i + 1 - k - 2]));
        }
    }
    lemma_rfind(rest, "]:"@, rest.len() as int, k);
    assert(rest.skip(k + 2) =~= number);
    assert(rest.take(k) =~= ip);
}

proof fn lemma_rfind(s: Seq<char>, p: Seq<char>, i: int, k: int)
    requires
        0 <= k <= i,
        text::occurs_at(s, p, k),
        forall|j: int| k < j <= i ==> !text::occurs_at(s, p, j),
    ensures
        rfind_from(s, p, i) == Some(k),
    decreases i,
{
    if i > k {
        lemma_rfind(s, p, i - 1, k);
    }
}

proof fn lemma_rfind_occurs(s: Seq<char>, p: Seq<char>, i: int)
    ensures
        rfind_from(s, p, i) matches Some(k) ==> text::occurs_at(s, p, k),
    decreases i + 1,
{
    if i >= 0 && !text::occurs_at(s, p, i) {
        lemma_rfind_occurs(s, p, i - 1);
    }
}

/// A wildcard has no endpoint, and neither has a text without a port behind its
/// last colon.
pub proof fn law_no_endpoint(s: Seq<char>)
    ensures
        s.len() > 0 && s[0] == '*' ==> endpoint(s) is None,
        match text::last_pos(s, ':', s.len() as int) {
            None => endpoint(s) is None,
            Some(k) => text::as_u16(s.skip(k + 1)) is None ==> endpoint(s) is None,
        },
{
    reveal_strlit("]:");
    text::lemma_last_pos(s, ':', s.len() as int);
    if s.len() > 0 && s[0] == '[' {
        let rest = s.drop_first();
        lemma_rfind_occurs(rest, "]:"@, rest.len() as int);
        if let Some(k) = rfind_from(rest, "]:"@, rest.len() as int) {
            assert(rest.subrange(k, k + 2)[1] == rest[k + 1]);
            assert(s[k + 2] == ':');
            let last = text::last_pos(s, ':', s.len() as int)->0;
            let port = rest.skip(k + 2);
            if last == k + 2 {
                assert(port =~= s.skip(last + 1));
            } else {
                let at = last - k - 3;
                assert(port[at] == ':');
                if port[0] == '+' {
                    assert(port.drop_first()[at - 1] == ':');
                }
                assert(text::as_u16(port) is None);
            }
        }
    }
}

/// Only UDP sockets and TCP sockets with an established connection are listed;
/// sockets that listen or wait to close are not.
pub proof fn law_listed_sockets(ls: Seq<Seq<char>>, i: int)
    requires
        0 <= i <= ls.len(),
    ensures
        ({
            let r = sockets_from(ls, i);
            &&& r.len() <= ls.len() - i
            &&& forall|k: int|
                0 <= k < r.len() ==> exists|j: int|
                    i <= j < ls.len() && is_socket(text::words(#[trigger] ls[j])) && (
                    #[trigger] r[k]).proto == text::words(ls[j])[0]
        }),
    decreases ls.len() - i,
{
    let r = sockets_from(ls, i);
    if i < ls.len() {
        let next = if !is_socket(text::words(ls[i])) || !(i + 1 < ls.len() && is_detail(ls[i + 1])) {
            i + 1
        } else {
            i + 2
        };
        law_listed_sockets(ls, next);
        let rest = sockets_from(ls, next);
        let off = r.len() - rest.len();
        assert forall|k: int| 0 <= k < r.len() implies exists|j: int|
            i <= j < ls.len() && is_socket(text::words(#[trigger] ls[j])) && (#[trigger] r[k]).proto
                == text::words(ls[j])[0] by {
            if k >= off {
                assert(r[k] == rest[k - off]);
                let j = choose|j: int|
                    next <= j < ls.len() && is_socket(text::words(#[trigger] ls[j])) && rest[k
                        - off].proto == text::words(ls[j])[0];
                assert(is_socket(text::words(ls[j])));
            } else {
                assert(is_socket(text::words(ls[i])));
            }
        }
    }
}

} // verus!
