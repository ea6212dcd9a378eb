//! Readings of the kernel's text files under `/proc`.

use vstd::arithmetic::mul::*;
use vstd::arithmetic::power2::*;
use vstd::prelude::*;
use vstd::slice::slice_subrange;

use crate::double;
use crate::double::Double;
use crate::files;
use crate::rounding;
use crate::table::Table;
use crate::text;
use crate::text::{
    begins, begins_text, chars_of, find_char, find_last, read_u32, read_u64, same_text, spells,
    split_lines, split_words, text_of, trimmed,
};

verus! {

/// Why the counters of an interface could not be read.
#[derive(Clone, Copy, Debug, PartialEq, Eq, Structural)]
pub enum CounterError {
    /// A counter is no number.
    BadNumber,
    /// The interface is not listed.
    NoInterface,
}

// ── Models ───────────────────────────────────────────────────────────────────

/// The second word of a line as a number.
pub open spec fn second_u64(line: Seq<char>) -> Option<u64> {
    if text::words(line).len() > 1 {
        text::as_u64(text::words(line)[1])
    } else {
        None
    }
}

/// The second word of a line as a 32-bit number.
pub open spec fn second_u32(line: Seq<char>) -> Option<u32> {
    if text::words(line).len() > 1 {
        text::as_u32(text::words(line)[1])
    } else {
        None
    }
}

/// The number that a word denotes, zero where it denotes none.
pub open spec fn or_zero(w: Seq<char>) -> u64 {
    match text::as_u64(w) {
        Some(n) => n,
        None => 0,
    }
}

/// The counters of `iface` in the lines of `/proc/net/dev` from line `i` on: the
/// first and the ninth number behind the name.
pub open spec fn counters_from(ls: Seq<Seq<char>>, iface: Seq<char>, i: int) -> Result<
    (u64, u64),
    CounterError,
>
    decreases ls.len() - i,
{
    if i < 0 || i >= ls.len() {
        Err(CounterError::NoInterface)
    } else {
        let t = text::trim(ls[i]);
        let p = iface.push(':');
        let f = text::words(t.skip(p.len() as int));
        if text::starts_with(t, p) && f.len() >= 9 {
            match (text::as_u64(f[0]), text::as_u64(f[8])) {
                (Some(rx), Some(tx)) => Ok((rx, tx)),
                _ => Err(CounterError::BadNumber),
            }
        } else {
            counters_from(ls, iface, i + 1)
        }
    }
}

/// Where the name ends in a line of `/proc/net/dev`.
pub open spec fn colon(line: Seq<char>) -> int {
    text::char_pos(text::trim(line), ':', 0)
}

/// Whether a line of `/proc/net/dev` names an interface.
pub open spec fn has_name(line: Seq<char>) -> bool {
    colon(line) < text::trim(line).len()
}

/// The interface that a line of `/proc/net/dev` names.
pub open spec fn dev_name(line: Seq<char>) -> Seq<char> {
    text::trim(text::trim(line).take(colon(line)))
}

/// What stands behind the name, word by word.
pub open spec fn dev_fields(line: Seq<char>) -> Seq<Seq<char>> {
    text::words(text::trim(line).skip(colon(line) + 1))
}

/// The counters of every interface in the first `n` lines of `/proc/net/dev`,
/// the two header lines left out. A word that is no number counts as zero.
pub open spec fn all_counters(ls: Seq<Seq<char>>, n: int) -> Map<Seq<char>, (u64, u64)>
    decreases n,
{
    if n <= 2 {
        Map::empty()
    } else {
        let m = all_counters(ls, n - 1);
        let line = ls[n - 1];
        if has_name(line) && dev_fields(line).len() >= 9 {
            m.insert(dev_name(line), (or_zero(dev_fields(line)[0]), or_zero(dev_fields(line)[8])))
        } else {
            m
        }
    }
}

/// The loopback interface.
pub open spec fn loopback() -> Seq<char> {
    seq!['l', 'o']
}

/// The interfaces other than loopback that the first `n` lines of
/// `/proc/net/dev` name, in file order.
pub open spec fn named_interfaces(ls: Seq<Seq<char>>, n: int) -> Seq<Seq<char>>
    decreases n,
{
    if n <= 2 {
        Seq::empty()
    } else {
        let rest = named_interfaces(ls, n - 1);
        let line = ls[n - 1];
        if has_name(line) && dev_name(line).len() > 0 && dev_name(line) != loopback() {
            rest.push(dev_name(line))
        } else {
            rest
        }
    }
}

/// The first interface other than loopback named at or after line `i`.
pub open spec fn first_named(ls: Seq<Seq<char>>, i: int) -> Option<Seq<char>>
    decreases ls.len() - i,
{
    if i < 0 || i >= ls.len() {
        None
    } else if has_name(ls[i]) && dev_name(ls[i]) != loopback() {
        Some(dev_name(ls[i]))
    } else {
        first_named(ls, i + 1)
    }
}

/// The all-zero address of `/proc/net/route`.
pub open spec fn zero_address() -> Seq<char> {
    seq!['0', '0', '0', '0', '0', '0', '0', '0']
}

/// Whether a line of `/proc/net/route` is a default route: destination and mask
/// are zero.
pub open spec fn is_default_route(line: Seq<char>) -> bool {
    let f = text::words(line);
    f.len() >= 8 && f[1] == zero_address() && f[7] == zero_address()
}

/// The interface of the first default route at or after line `i`.
pub open spec fn default_from(ls: Seq<Seq<char>>, i: int) -> Option<Seq<char>>
    decreases ls.len() - i,
{
    if i < 0 || i >= ls.len() {
        None
    } else if is_default_route(ls[i]) {
        Some(text::words(ls[i])[0])
    } else {
        default_from(ls, i + 1)
    }
}

/// The first line at or after `i` that begins with `p`.
pub open spec fn line_from(ls: Seq<Seq<char>>, p: Seq<char>, i: int) -> Option<Seq<char>>
    decreases ls.len() - i,
{
    if i < 0 || i >= ls.len() {
        None
    } else if text::starts_with(ls[i], p) {
        Some(ls[i])
    } else {
        line_from(ls, p, i + 1)
    }
}

/// The numbers among the first `n` words.
pub open spec fn numbers(ws: Seq<Seq<char>>, n: int) -> Seq<u64>
    decreases n,
{
    if n <= 1 {
        Seq::empty()
    } else {
        match text::as_u64(ws[n - 1]) {
            Some(v) => numbers(ws, n - 1).push(v),
            None => numbers(ws, n - 1),
        }
    }
}

/// Wrapping sum of 64-bit numbers.
pub open spec fn wrap_add(a: u64, b: u64) -> u64 {
    ((a + b) % 0x1_0000_0000_0000_0000) as u64
}

/// Wrapping sum of a sequence.
pub open spec fn wrap_sum(s: Seq<u64>) -> u64
    decreases s.len(),
{
    if s.len() == 0 {
        0
    } else {
        wrap_add(wrap_sum(s.drop_last()), s.last())
    }
}

/// The difference, zero where it would be negative.
pub open spec fn sat_sub(a: u64, b: u64) -> u64 {
    if a >= b {
        (a - b) as u64
    } else {
        0
    }
}

/// Busy and total ticks of the aggregate processor line: the sum of all numbers
/// is the total, and what the fourth and fifth do not take of it is busy.
pub open spec fn cpu_ticks(fields: Seq<u64>) -> Option<(u64, u64)> {
    if fields.len() < 4 {
        None
    } else {
        let total = wrap_sum(fields);
        let idle = wrap_add(
            fields[3],
            if fields.len() > 4 {
                fields[4]
            } else {
                0
            },
        );
        Some((sat_sub(total, idle), total))
    }
}

/// Total and available memory according to the first `n` lines of
/// `/proc/meminfo`; free memory stands in for available memory that is not known.
pub open spec fn mem_figures(ls: Seq<Seq<char>>, n: int) -> (Option<u64>, Option<u64>)
    decreases n,
{
    if n <= 0 {
        (None, None)
    } else {
        let (total, avail) = mem_figures(ls, n - 1);
        let line = ls[n - 1];
        if text::starts_with(line, "MemTotal:"@) {
            (second_u64(line), avail)
        } else if text::starts_with(line, "MemAvailable:"@) {
            (total, second_u64(line))
        } else if text::starts_with(line, "MemFree:"@) && avail is None {
            (total, second_u64(line))
        } else {
            (total, avail)
        }
    }
}

/// One hundred.
pub open spec fn hundred() -> nat {
    double::num_of(100)
}

/// `part / whole * 100`.
pub open spec fn percent(part: nat, whole: nat) -> nat {
    double::num_mul(double::num_div(double::num_of(part), double::num_of(whole)), hundred())
}

/// Used memory in percent.
pub open spec fn mem_percent(figures: (Option<u64>, Option<u64>)) -> Option<nat> {
    match figures {
        (Some(t), Some(a)) => if t > 0 {
            Some(percent(sat_sub(t, a) as nat, t as nat))
        } else {
            None
        },
        _ => None,
    }
}

/// Sectors read and written according to the first `n` lines of
/// `/proc/diskstats`, over the devices listed, or over all where none is listed.
pub open spec fn sectors(ls: Seq<Seq<char>>, devices: Seq<Seq<char>>, n: int) -> (u64, u64)
    decreases n,
{
    if n <= 0 {
        (0, 0)
    } else {
        let (r, w) = sectors(ls, devices, n - 1);
        let f = text::words(ls[n - 1]);
        if f.len() >= 10 && (devices.len() == 0 || devices.contains(f[2])) {
            (wrap_add(r, or_zero(f[5])), wrap_add(w, or_zero(f[9])))
        } else {
            (r, w)
        }
    }
}

/// The first figure of total memory at or after line `i`, zero if there is none.
pub open spec fn total_from(ls: Seq<Seq<char>>, i: int) -> u64
    decreases ls.len() - i,
{
    if i < 0 || i >= ls.len() {
        0
    } else if text::starts_with(ls[i], "MemTotal:"@) && second_u64(ls[i]) is Some {
        second_u64(ls[i])->0
    } else {
        total_from(ls, i + 1)
    }
}

/// User and system ticks in `/proc/<pid>/stat`: the twelfth and thirteenth word
/// behind the last closing parenthesis.
pub open spec fn stat_ticks(s: Seq<char>) -> Option<(u64, u64)> {
    match text::last_pos(s, ')', s.len() as int) {
        None => None,
        Some(p) => {
            let f = text::words(s.skip(p + 1));
            if f.len() < 13 {
                None
            } else {
                match (text::as_u64(f[11]), text::as_u64(f[12])) {
                    (Some(u), Some(t)) => Some((u, t)),
                    _ => None,
                }
            }
        },
    }
}

/// Owner and resident memory after the first `n` lines of `/proc/<pid>/status`;
/// nothing changes once both are known.
pub open spec fn status_after(ls: Seq<Seq<char>>, n: int) -> (Option<u32>, Option<u64>)
    decreases n,
{
    if n <= 0 {
        (None, None)
    } else {
        let (uid, rss) = status_after(ls, n - 1);
        let line = ls[n - 1];
        if uid is Some && rss is Some {
            (uid, rss)
        } else if uid is None && text::starts_with(line, "Uid:"@) {
            (second_u32(line), rss)
        } else if text::starts_with(line, "VmRSS:"@) {
            (uid, second_u64(line))
        } else {
            (uid, rss)
        }
    }
}

/// Bytes read and written after the first `n` lines of `/proc/<pid>/io`.
pub open spec fn io_after(ls: Seq<Seq<char>>, n: int) -> (Option<u64>, Option<u64>)
    decreases n,
{
    if n <= 0 {
        (None, None)
    } else {
        let (rb, wb) = io_after(ls, n - 1);
        let line = ls[n - 1];
        if rb is None && text::starts_with(line, "read_bytes:"@) {
            (second_u64(line), wb)
        } else if wb is None && text::starts_with(line, "write_bytes:"@) {
            (rb, second_u64(line))
        } else {
            (rb, wb)
        }
    }
}

/// Both values, where both are known.
pub open spec fn both<A, B>(p: (Option<A>, Option<B>)) -> Option<(A, B)> {
    match p {
        (Some(a), Some(b)) => Some((a, b)),
        _ => None,
    }
}

/// The account name that a password database line starts with.
pub open spec fn account_name(out: Seq<char>) -> Option<Seq<char>> {
    let line = out.take(text::char_pos(out, '\n', 0));
    let name = text::trim(line.take(text::char_pos(line, ':', 0)));
    if name.len() == 0 {
        None
    } else {
        Some(name)
    }
}

// ── Readers ──────────────────────────────────────────────────────────────────

fn second_number(line: &[char]) -> (r: Option<u64>)
    ensures
        r == second_u64(line@),
{
    let w = split_words(line);
    assert(text::texts(w@).len() == w@.len());
    if w.len() > 1 {
        assert(text::texts(w@)[1] == w@[1]@);
        read_u64(w[1].as_slice())
    } else {
        None
    }
}

fn second_small(line: &[char]) -> (r: Option<u32>)
    ensures
        r == second_u32(line@),
{
    let w = split_words(line);
    assert(text::texts(w@).len() == w@.len());
    if w.len() > 1 {
        assert(text::texts(w@)[1] == w@[1]@);
        read_u32(w[1].as_slice())
    } else {
        None
    }
}

fn number_or_zero(w: &[char]) -> (r: u64)
    ensures
        r == or_zero(w@),
{
    match read_u64(w) {
        Some(n) => n,
        None => 0,
    }
}

fn lines_of(s: &str) -> (r: Vec<Vec<char>>)
    ensures
        text::texts(r@) == text::lines(s@),
        r@.len() == text::lines(s@).len(),
{
    let cs = chars_of(s);
    let r = split_lines(cs.as_slice());
    assert(text::texts(r@).len() == r@.len());
    r
}

/// Received and sent bytes of one interface in `/proc/net/dev`.
pub fn read_counters(dev: &str, iface: &str) -> (r: Result<(u64, u64), CounterError>)
    ensures
        r == counters_from(text::lines(dev@), iface@, 2),
{
    let ls = lines_of(dev);
    let mut p = chars_of(iface);
    p.push(':');
    let mut i: usize = 2;
    while i < ls.len()
        invariant
            text::texts(ls@) == text::lines(dev@),
            p@ == iface@.push(':'),
            counters_from(text::lines(dev@), iface@, i as int) == counters_from(
                text::lines(dev@),
                iface@,
                2,
            ),
        decreases ls@.len() - i,
    {
        assert(text::texts(ls@)[i as int] == ls@[i as int]@);
        let t = trimmed(ls[i].as_slice());
        if begins(t, p.as_slice()) {
            let rest = slice_subrange(t, p.len(), t.len());
            assert(rest@ =~= t@.skip(p@.len() as int));
            let f = split_words(rest);
            assert(text::texts(f@).len() == f@.len());
            if f.len() >= 9 {
                assert(text::texts(f@)[0] == f@[0]@ && text::texts(f@)[8] == f@[8]@);
                return match (read_u64(f[0].as_slice()), read_u64(f[8].as_slice())) {
                    (Some(rx), Some(tx)) => Ok((rx, tx)),
                    _ => Err(CounterError::BadNumber),
                };
            }
        }
        i += 1;
    }
    Err(CounterError::NoInterface)
}

/// Name and remaining words of a line of `/proc/net/dev`.
fn dev_parts(line: &[char]) -> (r: Option<(String, Vec<Vec<char>>)>)
    ensures
        match r {
            Some((name, f)) => has_name(line@) && name@ == dev_name(line@) && text::texts(f@)
                == dev_fields(line@) && f@.len() == dev_fields(line@).len(),
            None => !has_name(line@),
        },
{
    let t = trimmed(line);
    let c: usize = find_char(t, ':', 0);
    if c >= t.len() {
        return None;
    }
    let front = slice_subrange(t, 0, c);
    let back = slice_subrange(t, c + 1, t.len());
    assert(front@ =~= t@.take(c as int));
    assert(back@ =~= t@.skip(c + 1));
    let f = split_words(back);
    assert(text::texts(f@).len() == f@.len());
    Some((text_of(trimmed(front)), f))
}

/// Received and sent bytes of every interface in `/proc/net/dev`.
pub fn read_all_counters(dev: &str) -> (r: Table<String, (u64, u64)>)
    ensures
        r@ == all_counters(text::lines(dev@), text::lines(dev@).len() as int),
{
    let ls = lines_of(dev);
    let mut m: Table<String, (u64, u64)> = Table::new();
    if ls.len() <= 2 {
        return m;
    }
    let mut i: usize = 2;
    while i < ls.len()
        invariant
            2 <= i <= ls@.len(),
            text::texts(ls@) == text::lines(dev@),
            m@ == all_counters(text::lines(dev@), i as int),
        decreases ls@.len() - i,
    {
        assert(text::texts(ls@)[i as int] == ls@[i as int]@);
        if let Some((name, f)) = dev_parts(ls[i].as_slice()) {
            if f.len() >= 9 {
                assert(text::texts(f@)[0] == f@[0]@ && text::texts(f@)[8] == f@[8]@);
                m.insert(
                    name,
                    (number_or_zero(f[0].as_slice()), number_or_zero(f[8].as_slice())),
                );
            }
        }
        i += 1;
    }
    m
}

fn is_loopback(name: &str) -> (r: bool)
    ensures
        r == (name@ == loopback()),
{
    proof {
        reveal_strlit("lo");
        assert("lo"@ =~= loopback());
    }
    same_text(name, "lo")
}

/// Every interface other than loopback in `/proc/net/dev`, in file order, if
/// there is one.
pub fn list_interfaces(dev: &str) -> (r: Option<Vec<String>>)
    ensures
        ({
            let names = named_interfaces(text::lines(dev@), text::lines(dev@).len() as int);
            match r {
                Some(v) => text::strings(v@) == names && names.len() > 0,
                None => names.len() == 0,
            }
        }),
{
    let ls = lines_of(dev);
    let mut names: Vec<String> = Vec::new();
    if ls.len() <= 2 {
        return None;
    }
    let mut i: usize = 2;
    assert(text::strings(names@) =~= Seq::<Seq<char>>::empty());
    while i < ls.len()
        invariant
            2 <= i <= ls@.len(),
            text::texts(ls@) == text::lines(dev@),
            text::strings(names@) == named_interfaces(text::lines(dev@), i as int),
        decreases ls@.len() - i,
    {
        assert(text::texts(ls@)[i as int] == ls@[i as int]@);
        if let Some((name, _f)) = dev_parts(ls[i].as_slice()) {
            if !name.as_str().is_empty() && !is_loopback(name.as_str()) {
                let ghost before = text::strings(names@);
                let ghost n = name@;
                names.push(name);
                assert(text::strings(names@) =~= before.push(n));
            }
        }
        i += 1;
    }
    assert(text::strings(names@).len() == names@.len());
    if names.len() == 0 {
        None
    } else {
        Some(names)
    }
}

/// The first interface other than loopback in `/proc/net/dev`.
pub fn first_interface(dev: &str) -> (r: Option<String>)
    ensures
        text::opt_text(r) == first_named(text::lines(dev@), 2),
{
    let ls = lines_of(dev);
    let mut i: usize = 2;
    while i < ls.len()
        invariant
            text::texts(ls@) == text::lines(dev@),
            first_named(text::lines(dev@), i as int) == first_named(text::lines(dev@), 2),
        decreases ls@.len() - i,
    {
        assert(text::texts(ls@)[i as int] == ls@[i as int]@);
        if let Some((name, _f)) = dev_parts(ls[i].as_slice()) {
            if !is_loopback(name.as_str()) {
                return Some(name);
            }
        }
        i += 1;
    }
    None
}

/// The interface that owns the default route according to `/proc/net/route`.
pub fn default_interface(route: &str) -> (r: Option<String>)
    ensures
        text::opt_text(r) == default_from(text::lines(route@), 1),
{
    let ls = lines_of(route);
    proof {
        reveal_strlit("00000000");
        assert("00000000"@ =~= zero_address());
    }
    let mut i: usize = 1;
    while i < ls.len()
        invariant
            text::texts(ls@) == text::lines(route@),
            "00000000"@ == zero_address(),
            default_from(text::lines(route@), i as int) == default_from(text::lines(route@), 1),
        decreases ls@.len() - i,
    {
        assert(text::texts(ls@)[i as int] == ls@[i as int]@);
        let f = split_words(ls[i].as_slice());
        assert(text::texts(f@).len() == f@.len());
        if f.len() >= 8 {
            assert(text::texts(f@)[0] == f@[0]@);
            assert(text::texts(f@)[1] == f@[1]@);
            assert(text::texts(f@)[7] == f@[7]@);
            if spells(f[1].as_slice(), "00000000") && spells(f[7].as_slice(), "00000000") {
                return Some(text_of(f[0].as_slice()));
            }
        }
        i += 1;
    }
    None
}

/// Busy and total ticks of the machine, from `/proc/stat`.
pub fn read_system_cpu(stat: &str) -> (r: Option<(u64, u64)>)
    ensures
        r == (match line_from(text::lines(stat@), "cpu "@, 0) {
            None => None::<(u64, u64)>,
            Some(line) => cpu_ticks(numbers(text::words(line), text::words(line).len() as int)),
        }),
        forall|k: int|
            0 <= k < text::lines(stat@).len() && #[trigger] files::sums_processors(
                text::lines(stat@)[k],
            ) && (forall|j: int|
                0 <= j < k ==> !#[trigger] files::sums_processors(text::lines(stat@)[j])) ==> r
                == cpu_ticks(
                numbers(
                    text::words(text::lines(stat@)[k]),
                    text::words(text::lines(stat@)[k]).len() as int,
                ),
            ),
        r is Some ==> exists|k: int|
            0 <= k < text::lines(stat@).len() && #[trigger] files::sums_processors(
                text::lines(stat@)[k],
            ),
{
    proof {
        files::law_processor_line(text::lines(stat@));
    }
    let ls = lines_of(stat);
    let mut i: usize = 0;
    while i < ls.len()
        invariant
            text::texts(ls@) == text::lines(stat@),
            line_from(text::lines(stat@), "cpu "@, i as int) == line_from(text::lines(stat@), "cpu "@, 0),
        decreases ls@.len() - i,
    {
        assert(text::texts(ls@)[i as int] == ls@[i as int]@);
        if begins_text(ls[i].as_slice(), "cpu ") {
            proof {
                files::law_processor_line(text::lines(stat@));
            }
            return ticks_of(ls[i].as_slice());
        }
        i += 1;
    }
    None
}

fn ticks_of(line: &[char]) -> (r: Option<(u64, u64)>)
    ensures
        r == cpu_ticks(numbers(text::words(line@), text::words(line@).len() as int)),
{
    let w = split_words(line);
    let ghost ws = text::texts(w@);
    assert(ws.len() == w@.len());
    let mut fields: Vec<u64> = Vec::new();
    let mut total: u64 = 0;
    if w.len() == 0 {
        return None;
    }
    let mut i: usize = 1;
    while i < w.len()
        invariant
            1 <= i <= w@.len(),
            ws == text::texts(w@),
            fields@ == numbers(ws, i as int),
            total == wrap_sum(fields@),
        decreases w@.len() - i,
    {
        assert(ws[i as int] == w@[i as int]@);
        if let Some(v) = read_u64(w[i].as_slice()) {
            let ghost before = fields@;
            fields.push(v);
            assert(fields@.drop_last() =~= before);
            total = plus_wrapping(total, v);
        }
        i += 1;
    }
    if fields.len() < 4 {
        return None;
    }
    let fifth: u64 = if fields.len() > 4 {
        fields[4]
    } else {
        0
    };
    let idle: u64 = plus_wrapping(fields[3], fifth);
    Some((minus_or_zero(total, idle), total))
}

/// Wrapping sum.
pub fn plus_wrapping(a: u64, b: u64) -> (r: u64)
    ensures
        r == wrap_add(a, b),
{
    ((a as u128 + b as u128) % 0x1_0000_0000_0000_0000) as u64
}

/// The difference, zero where it would be negative.
pub fn minus_or_zero(a: u64, b: u64) -> (r: u64)
    ensures
        r == sat_sub(a, b),
{
    if a >= b {
        a - b
    } else {
        0
    }
}

/// Used memory in percent of the total, from `/proc/meminfo`.
pub fn read_system_mem_pct(meminfo: &str) -> (r: Option<Double>)
    ensures
        match r {
            Some(d) => mem_percent(mem_figures(text::lines(meminfo@), text::lines(meminfo@).len() as int))
                == Some(d@),
            None => mem_percent(
                mem_figures(text::lines(meminfo@), text::lines(meminfo@).len() as int),
            ) is None,
        },
{
    let ls = lines_of(meminfo);
    let mut total: Option<u64> = None;
    let mut avail: Option<u64> = None;
    let mut i: usize = 0;
    while i < ls.len()
        invariant
            i <= ls@.len(),
            text::texts(ls@) == text::lines(meminfo@),
            (total, avail) == mem_figures(text::lines(meminfo@), i as int),
        decreases ls@.len() - i,
    {
        assert(text::texts(ls@)[i as int] == ls@[i as int]@);
        let line = ls[i].as_slice();
        if begins_text(line, "MemTotal:") {
            total = second_number(line);
        } else if begins_text(line, "MemAvailable:") {
            avail = second_number(line);
        } else if begins_text(line, "MemFree:") && avail.is_none() {
            avail = second_number(line);
        }
        i += 1;
    }
    match (total, avail) {
        (Some(t), Some(a)) => if t > 0 {
            Some(percent_of(minus_or_zero(t, a), t))
        } else {
            None
        },
        _ => None,
    }
}

/// `part / whole * 100`.
pub fn percent_of(part: u64, whole: u64) -> (r: Double)
    requires
        whole > 0,
    ensures
        r@ == percent(part as nat, whole as nat),
{
    let p = Double::from_u64(part);
    let w = Double::from_u64(whole);
    let h = Double::from_u64(100);
    proof {
        double::lemma_num_of_range(part);
        double::lemma_num_of_range(whole);
        double::lemma_num_of_range(100);
    }
    p.over(w).times(h)
}

/// Sectors read and written, from `/proc/diskstats`, over the whole devices
/// listed in `devices`, or over everything where that list is empty.
pub fn read_sys_disk_sectors(diskstats: &str, devices: &Vec<String>) -> (r: (u64, u64))
    ensures
        r == sectors(
            text::lines(diskstats@),
            text::strings(devices@),
            text::lines(diskstats@).len() as int,
        ),
{
    let ls = lines_of(diskstats);
    let mut rd: u64 = 0;
    let mut wr: u64 = 0;
    let mut i: usize = 0;
    while i < ls.len()
        invariant
            i <= ls@.len(),
            text::texts(ls@) == text::lines(diskstats@),
            (rd, wr) == sectors(text::lines(diskstats@), text::strings(devices@), i as int),
        decreases ls@.len() - i,
    {
        assert(text::texts(ls@)[i as int] == ls@[i as int]@);
        let f = split_words(ls[i].as_slice());
        assert(text::texts(f@).len() == f@.len());
        if f.len() >= 10 {
            assert(text::texts(f@)[2] == f@[2]@);
            assert(text::texts(f@)[5] == f@[5]@);
            assert(text::texts(f@)[9] == f@[9]@);
            assert(text::strings(devices@).len() == devices@.len());
            if devices.len() == 0 || listed(devices, f[2].as_slice()) {
                rd = plus_wrapping(rd, number_or_zero(f[5].as_slice()));
                wr = plus_wrapping(wr, number_or_zero(f[9].as_slice()));
            }
        }
        i += 1;
    }
    (rd, wr)
}

fn listed(names: &Vec<String>, name: &[char]) -> (r: bool)
    ensures
        r == text::strings(names@).contains(name@),
{
    let mut i: usize = 0;
    while i < names.len()
        invariant
            i <= names@.len(),
            forall|j: int| 0 <= j < i ==> text::strings(names@)[j] != name@,
        decreases names@.len() - i,
    {
        assert(text::strings(names@)[i as int] == names@[i as int]@);
        if spells(name, names[i].as_str()) {
            return true;
        }
        i += 1;
    }
    false
}

/// Total memory in KiB, from `/proc/meminfo`, zero where it is not given.
pub fn total_mem_kb(meminfo: &str) -> (r: u64)
    ensures
        r == total_from(text::lines(meminfo@), 0),
{
    let ls = lines_of(meminfo);
    let mut i: usize = 0;
    while i < ls.len()
        invariant
            text::texts(ls@) == text::lines(meminfo@),
            total_from(text::lines(meminfo@), i as int) == total_from(text::lines(meminfo@), 0),
        decreases ls@.len() - i,
    {
        assert(text::texts(ls@)[i as int] == ls@[i as int]@);
        if begins_text(ls[i].as_slice(), "MemTotal:") {
            if let Some(v) = second_number(ls[i].as_slice()) {
                return v;
            }
        }
        i += 1;
    }
    0
}

/// User and system ticks of a process, from `/proc/<pid>/stat`.
pub fn read_proc_stat(stat: &str) -> (r: Option<(u64, u64)>)
    ensures
        r == stat_ticks(stat@),
{
    let cs = chars_of(stat);
    let s = cs.as_slice();
    let n: usize = s.len();
    match find_last(s, ')') {
        None => None,
        Some(p) => {
            let rest = slice_subrange(s, p + 1, n);
            assert(rest@ =~= s@.skip(p + 1));
            let f = split_words(rest);
            assert(text::texts(f@).len() == f@.len());
            if f.len() < 13 {
                return None;
            }
            assert(text::texts(f@)[11] == f@[11]@ && text::texts(f@)[12] == f@[12]@);
            match (read_u64(f[11].as_slice()), read_u64(f[12].as_slice())) {
                (Some(u), Some(t)) => Some((u, t)),
                _ => None,
            }
        },
    }
}

/// Owner and resident memory in KiB of a process, from `/proc/<pid>/status`.
pub fn read_proc_status(status: &str) -> (r: Option<(u32, u64)>)
    ensures
        r == both(status_after(text::lines(status@), text::lines(status@).len() as int)),
{
    let ls = lines_of(status);
    let mut uid: Option<u32> = None;
    let mut rss: Option<u64> = None;
    let mut i: usize = 0;
    while i < ls.len()
        invariant
            i <= ls@.len(),
            text::texts(ls@) == text::lines(status@),
            (uid, rss) == status_after(text::lines(status@), i as int),
        decreases ls@.len() - i,
    {
        assert(text::texts(ls@)[i as int] == ls@[i as int]@);
        let line = ls[i].as_slice();
        if uid.is_some() && rss.is_some() {
            // Both are known.
        } else if uid.is_none() && begins_text(line, "Uid:") {
            uid = second_small(line);
        } else if begins_text(line, "VmRSS:") {
            rss = second_number(line);
        }
        i += 1;
    }
    match (uid, rss) {
        (Some(u), Some(m)) => Some((u, m)),
        _ => None,
    }
}

/// Bytes read and written by a process, from `/proc/<pid>/io`.
pub fn read_proc_io(io: &str) -> (r: Option<(u64, u64)>)
    ensures
        r == both(io_after(text::lines(io@), text::lines(io@).len() as int)),
{
    let ls = lines_of(io);
    let mut rb: Option<u64> = None;
    let mut wb: Option<u64> = None;
    let mut i: usize = 0;
    while i < ls.len()
        invariant
            i <= ls@.len(),
            text::texts(ls@) == text::lines(io@),
            (rb, wb) == io_after(text::lines(io@), i as int),
        decreases ls@.len() - i,
    {
        assert(text::texts(ls@)[i as int] == ls@[i as int]@);
        let line = ls[i].as_slice();
        if rb.is_none() && begins_text(line, "read_bytes:") {
            rb = second_number(line);
        } else if wb.is_none() && begins_text(line, "write_bytes:") {
            wb = second_number(line);
        }
        i += 1;
    }
    match (rb, wb) {
        (Some(a), Some(b)) => Some((a, b)),
        _ => None,
    }
}

/// The account name in the output of `getent passwd <uid>`.
pub fn parse_getent(out: &str) -> (r: Option<String>)
    ensures
        text::opt_text(r) == account_name(out@),
{
    let cs = chars_of(out);
    let s = cs.as_slice();
    let n: usize = find_char(s, '\n', 0);
    let line = slice_subrange(s, 0, n);
    assert(line@ =~= s@.take(n as int));
    let c: usize = find_char(line, ':', 0);
    let front = slice_subrange(line, 0, c);
    assert(front@ =~= line@.take(c as int));
    let name = trimmed(front);
    if name.len() == 0 {
        None
    } else {
        Some(text_of(name))
    }
}

/// The interface of the default route; without one, the first interface other
/// than loopback.
pub open spec fn detected(route: Seq<char>, dev: Option<Seq<char>>) -> Option<Seq<char>> {
    match default_from(text::lines(route), 1) {
        Some(name) => Some(name),
        None => match dev {
            Some(c) => first_named(text::lines(c), 2),
            None => None,
        },
    }
}

/// The interface of the default route in `/proc/net/route`; without one, the first
/// interface other than loopback in `/proc/net/dev`.
pub fn detect_interface(route: &str, dev: Option<&str>) -> (r: Option<String>)
    ensures
        text::opt_text(r) == detected(
            route@,
            match dev {
                Some(c) => Some(c@),
                None => None,
            },
        ),
{
    match default_interface(route) {
        Some(name) => Some(name),
        None => match dev {
            Some(c) => first_interface(c),
            None => None,
        },
    }
}

// ── Laws ─────────────────────────────────────────────────────────────────────

/// Loopback is never among the interfaces to switch between, and no name is
/// empty.
pub proof fn law_interfaces(ls: Seq<Seq<char>>, n: int)
    requires
        n <= ls.len(),
    ensures
        forall|i: int|
            0 <= i < named_interfaces(ls, n).len() ==> (#[trigger] named_interfaces(ls, n)[i]).len()
                > 0 && named_interfaces(ls, n)[i] != loopback(),
    decreases n,
{
    if n > 2 {
        law_interfaces(ls, n - 1);
        let rest = named_interfaces(ls, n - 1);
        assert forall|i: int| 0 <= i < named_interfaces(ls, n).len() implies (
        #[trigger] named_interfaces(ls, n)[i]).len() > 0 && named_interfaces(ls, n)[i]
            != loopback() by {
            if i < rest.len() {
                assert(named_interfaces(ls, n)[i] == rest[i]);
            }
        }
    }
}

/// Busy ticks never exceed all ticks.
pub proof fn law_busy_within_total(fields: Seq<u64>)
    ensures
        cpu_ticks(fields) matches Some(t) ==> t.0 <= t.1,
{
}

/// A part is at most a hundred percent of the whole, so memory usage lies between
/// zero and a hundred percent.
pub proof fn law_percent(part: u64, whole: u64)
    requires
        part <= whole,
        whole > 0,
    ensures
        percent(part as nat, whole as nat) <= hundred(),
{
    let o = double::one();
    let p = double::num_of(part as nat);
    let w = double::num_of(whole as nat);
    lemma_pow2_pos(1074);
    double::lemma_num_of_range(part);
    double::lemma_num_of_range(whole);
    assert((part as nat) * o <= (whole as nat) * o) by (nonlinear_arith)
        requires
            part <= whole,
    ;
    rounding::lemma_nearest_monotone((part as nat) * o, (whole as nat) * o, 1);
    lemma_mul_basics(o as int);
    rounding::lemma_whole_exact(1, w);
    assert(p * o <= o * w) by (nonlinear_arith)
        requires
            p <= w,
    ;
    rounding::lemma_nearest_monotone(p * o, o * w, w);
    let q = double::num_div(p, w);
    assert(q <= o);
    rounding::lemma_whole_exact(100, 1);
    rounding::lemma_whole_exact(100, o);
    let h = hundred();
    assert(h == 100 * o);
    assert(q * h <= (100 * o) * o) by (nonlinear_arith)
        requires
            q <= o,
            h == 100 * o,
    ;
    rounding::lemma_nearest_monotone(q * h, (100 * o) * o, o);
}

} // verus!
