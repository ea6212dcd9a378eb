//! What the files of the system say.

use vstd::prelude::*;

use crate::conns;
use crate::procfs;
use crate::procfs::CounterError;
use crate::reading;
use crate::text;

verus! {

/// Whether `s` begins with `p`.
pub open spec fn begins(s: Seq<char>, p: Seq<char>) -> bool {
    reading::stands_at(s, p, 0)
}

proof fn lemma_begins(s: Seq<char>, p: Seq<char>)
    ensures
        text::starts_with(s, p) == begins(s, p),
{
    if p.len() <= s.len() {
        let t = s.subrange(0, p.len() as int);
        if begins(s, p) {
            assert(t =~= p);
        }
        if t == p {
            assert forall|i: int| 0 <= i < p.len() implies #[trigger] p[i] == s[0 + i] by {
                assert(t[i] == s[i]);
            }
        }
    }
}

/// The second word of a line as a number.
pub open spec fn second_number(line: Seq<char>) -> Option<u64> {
    if text::words(line).len() >= 2 {
        text::as_u64(text::words(line)[1])
    } else {
        None
    }
}

/// A word as a number, zero where it is none.
pub open spec fn number_or_zero(w: Seq<char>) -> u64 {
    if text::as_u64(w) is Some {
        text::as_u64(w)->0
    } else {
        0
    }
}

// ── Interfaces ───────────────────────────────────────────────────────────────

/// The line of an interface: behind the name and the colon, its first and its ninth
/// number are the bytes received and sent.
pub proof fn law_interface_counters(
    ls: Seq<Seq<char>>,
    i: int,
    iface: Seq<char>,
    rest: Seq<char>,
)
    requires
        0 <= i < ls.len(),
        text::trim(ls[i]) == iface + seq![':'] + rest,
    ensures
        ({
            let f = text::words(rest);
            let r = procfs::counters_from(ls, iface, i);
            &&& f.len() >= 9 && text::as_u64(f[0]) is Some && text::as_u64(f[8]) is Some ==> r == Ok::<
                (u64, u64),
                CounterError,
            >((text::as_u64(f[0])->0, text::as_u64(f[8])->0))
            &&& f.len() >= 9 && (text::as_u64(f[0]) is None || text::as_u64(f[8]) is None) ==> r
                == Err::<(u64, u64), CounterError>(CounterError::BadNumber)
            &&& f.len() < 9 ==> r == procfs::counters_from(ls, iface, i + 1)
        }),
{
    let t = text::trim(ls[i]);
    let p = iface.push(':');
    assert(t.subrange(0, p.len() as int) =~= p);
    assert(t.skip(p.len() as int) =~= rest);
}

/// A line that does not begin with the name of the interface and a colon is passed
/// over, and without any the interface is not there.
pub proof fn law_other_interfaces(ls: Seq<Seq<char>>, i: int, iface: Seq<char>)
    requires
        0 <= i <= ls.len(),
    ensures
        i < ls.len() && !begins(text::trim(ls[i]), iface + seq![':']) ==> procfs::counters_from(
            ls,
            iface,
            i,
        ) == procfs::counters_from(ls, iface, i + 1),
        procfs::counters_from(ls, iface, ls.len() as int) == Err::<(u64, u64), CounterError>(
            CounterError::NoInterface,
        ),
{
    if i < ls.len() {
        lemma_begins(text::trim(ls[i]), iface + seq![':']);
        assert(iface.push(':') =~= iface + seq![':']);
    }
}

proof fn lemma_named_line(line: Seq<char>, name: Seq<char>, rest: Seq<char>)
    requires
        text::trim(line) == name + seq![':'] + rest,
        !reading::holds_char(name, ':'),
    ensures
        procfs::has_name(line),
        procfs::dev_name(line) == text::trim(name),
        procfs::dev_fields(line) == text::words(rest),
{
    let t = text::trim(line);
    let n = name.len() as int;
    text::lemma_char_pos(t, ':', 0);
    assert(t[n] == ':');
    let p = procfs::colon(line);
    if p < n {
        assert(name[p] == t[p]);
        assert(false);
    }
    if p > n {
        assert(t[n] != ':');
    }
    assert(t.take(n) =~= name);
    assert(t.skip(n + 1) =~= rest);
}

proof fn lemma_unnamed_line(line: Seq<char>)
    requires
        !reading::holds_char(text::trim(line), ':'),
    ensures
        !procfs::has_name(line),
{
    let t = text::trim(line);
    text::lemma_char_pos(t, ':', 0);
    if procfs::has_name(line) {
        assert(t[procfs::colon(line)] == ':');
    }
}

/// The lines from the third on each give an interface with its first and its ninth
/// number, zero for what is no number; a line that has no colon or fewer fields
/// gives none.
pub proof fn law_all_interfaces(ls: Seq<Seq<char>>, n: int, name: Seq<char>, rest: Seq<char>)
    requires
        0 <= n < ls.len(),
    ensures
        ({
            let before = procfs::all_counters(ls, n);
            let after = procfs::all_counters(ls, n + 1);
            let f = text::words(rest);
            &&& n <= 1 ==> after == Map::<Seq<char>, (u64, u64)>::empty()
            &&& n == 2 ==> before == Map::<Seq<char>, (u64, u64)>::empty()
            &&& n >= 2 && text::trim(ls[n]) == name + seq![':'] + rest && !reading::holds_char(
                name,
                ':',
            ) ==> after == if f.len() >= 9 {
                before.insert(text::trim(name), (number_or_zero(f[0]), number_or_zero(f[8])))
            } else {
                before
            }
            &&& n >= 2 && !reading::holds_char(text::trim(ls[n]), ':') ==> after == before
        }),
{
    if text::trim(ls[n]) == name + seq![':'] + rest && !reading::holds_char(name, ':') {
        lemma_named_line(ls[n], name, rest);
    }
    if !reading::holds_char(text::trim(ls[n]), ':') {
        lemma_unnamed_line(ls[n]);
    }
}

/// The names before the colons, from the third line on, are the interfaces, in
/// order; the loopback interface and an empty name are not among them.
pub proof fn law_interface_names(ls: Seq<Seq<char>>, n: int, name: Seq<char>, rest: Seq<char>)
    requires
        0 <= n < ls.len(),
    ensures
        ({
            let before = procfs::named_interfaces(ls, n);
            let after = procfs::named_interfaces(ls, n + 1);
            let plain = text::trim(name);
            let named = text::trim(ls[n]) == name + seq![':'] + rest && !reading::holds_char(
                name,
                ':',
            );
            &&& n <= 1 ==> after.len() == 0
            &&& n <= 2 ==> before.len() == 0
            &&& n >= 2 && named ==> after == if plain.len() > 0 && plain != seq!['l', 'o'] {
                before.push(plain)
            } else {
                before
            }
            &&& n >= 2 && !reading::holds_char(text::trim(ls[n]), ':') ==> after == before
            &&& named ==> procfs::first_named(ls, n) == if plain != seq!['l', 'o'] {
                Some(plain)
            } else {
                procfs::first_named(ls, n + 1)
            }
            &&& !reading::holds_char(text::trim(ls[n]), ':') ==> procfs::first_named(ls, n)
                == procfs::first_named(ls, n + 1)
            &&& procfs::first_named(ls, ls.len() as int) is None
        }),
{
    if text::trim(ls[n]) == name + seq![':'] + rest && !reading::holds_char(name, ':') {
        lemma_named_line(ls[n], name, rest);
    }
    if !reading::holds_char(text::trim(ls[n]), ':') {
        lemma_unnamed_line(ls[n]);
    }
}

/// The default route is the first line from the second on whose destination and
/// whose mask are all zeros; it goes through the interface that its first word
/// names.
pub proof fn law_default_route(route: Seq<char>, dev: Option<Seq<char>>)
    ensures
        ({
            let ls = text::lines(route);
            match procfs::default_from(ls, 1) {
                Some(name) => exists|i: int|
                    1 <= i < ls.len() && #[trigger] routes_all(ls[i]) && name == text::words(
                        ls[i],
                    )[0] && forall|j: int| 1 <= j < i ==> !#[trigger] routes_all(ls[j]),
                None => forall|j: int| 1 <= j < ls.len() ==> !#[trigger] routes_all(ls[j]),
            }
        }),
        procfs::default_from(text::lines(route), 1) is Some ==> procfs::detected(route, dev)
            == procfs::default_from(text::lines(route), 1),
        procfs::default_from(text::lines(route), 1) is None && dev is Some ==> procfs::detected(
            route,
            dev,
        ) == procfs::first_named(text::lines(dev->0), 2),
        procfs::default_from(text::lines(route), 1) is None && dev is None ==> procfs::detected(
            route,
            dev,
        ) is None,
{
    lemma_default(text::lines(route), 1);
}

/// Whether a line of the routing table is for every address.
pub open spec fn routes_all(line: Seq<char>) -> bool {
    let f = text::words(line);
    let zeros = seq!['0', '0', '0', '0', '0', '0', '0', '0'];
    f.len() >= 8 && f[1] == zeros && f[7] == zeros
}

proof fn lemma_default(ls: Seq<Seq<char>>, i: int)
    requires
        0 <= i,
    ensures
        match procfs::default_from(ls, i) {
            Some(name) => exists|k: int|
                i <= k < ls.len() && #[trigger] routes_all(ls[k]) && name == text::words(ls[k])[0]
                    && forall|j: int| i <= j < k ==> !#[trigger] routes_all(ls[j]),
            None => forall|j: int| i <= j < ls.len() ==> !#[trigger] routes_all(ls[j]),
        },
    decreases ls.len() - i,
{
    if i < ls.len() {
        assert(procfs::is_default_route(ls[i]) == routes_all(ls[i]));
        if !routes_all(ls[i]) {
            lemma_default(ls, i + 1);
        }
    }
}

// ── Processor, memory, disks ─────────────────────────────────────────────────

/// The line that is looked for is the first with that beginning.
pub proof fn law_first_line(ls: Seq<Seq<char>>, p: Seq<char>, i: int)
    requires
        0 <= i,
    ensures
        match procfs::line_from(ls, p, i) {
            Some(line) => exists|k: int|
                i <= k < ls.len() && #[trigger] ls[k] == line && begins(line, p) && forall|j: int|
                    i <= j < k ==> !begins(#[trigger] ls[j], p),
            None => forall|j: int| i <= j < ls.len() ==> !begins(#[trigger] ls[j], p),
        },
    decreases ls.len() - i,
{
    if i < ls.len() {
        lemma_begins(ls[i], p);
        if !begins(ls[i], p) {
            law_first_line(ls, p, i + 1);
        }
    }
}

/// Whether a line is the one for all processors together: `cpu` and a blank.
pub open spec fn sums_processors(line: Seq<char>) -> bool {
    line.len() >= 4 && line[0] == 'c' && line[1] == 'p' && line[2] == 'u' && line[3] == ' '
}

/// The figures of the processor are on the first line that is for all of them.
pub proof fn law_processor_line(ls: Seq<Seq<char>>)
    ensures
        match procfs::line_from(ls, "cpu "@, 0) {
            Some(line) => exists|k: int|
                0 <= k < ls.len() && #[trigger] sums_processors(ls[k]) && ls[k] == line && forall|
                    j: int,
                | 0 <= j < k ==> !#[trigger] sums_processors(ls[j]),
            None => forall|j: int| 0 <= j < ls.len() ==> !#[trigger] sums_processors(ls[j]),
        },
{
    reveal_strlit("cpu ");
    assert forall|line: Seq<char>| #[trigger] begins(line, "cpu "@) == sums_processors(line) by {
        if begins(line, "cpu "@) {
            assert("cpu "@[0] == line[0]);
            assert("cpu "@[1] == line[1]);
            assert("cpu "@[2] == line[2]);
            assert("cpu "@[3] == line[3]);
        }
    }
    law_first_line(ls, "cpu "@, 0);
    match procfs::line_from(ls, "cpu "@, 0) {
        Some(line) => {
            let k = choose|k: int|
                0 <= k < ls.len() && #[trigger] ls[k] == line && begins(line, "cpu "@) && forall|
                    j: int,
                | 0 <= j < k ==> !begins(#[trigger] ls[j], "cpu "@);
            assert(sums_processors(ls[k]));
            assert forall|j: int| 0 <= j < k implies !#[trigger] sums_processors(ls[j]) by {
                assert(!begins(ls[j], "cpu "@));
            }
        },
        None => {
            assert forall|j: int| 0 <= j < ls.len() implies !#[trigger] sums_processors(ls[j]) by {
                assert(!begins(ls[j], "cpu "@));
            }
        },
    }
}

/// Two figures are known together just where both are.
pub proof fn law_both_known(a: Option<u64>, b: Option<u64>)
    ensures
        procfs::both((a, b)) is Some <==> a is Some && b is Some,
        a is Some && b is Some ==> procfs::both((a, b)) == Some((a->0, b->0)),
{
}

/// The numbers of a line are those of its words, behind the first, that are numbers.
pub proof fn law_line_numbers(ws: Seq<Seq<char>>, w: Seq<char>)
    requires
        ws.len() >= 1,
    ensures
        procfs::numbers(ws, 1).len() == 0,
        procfs::numbers(ws.push(w), ws.len() as int + 1) == if text::as_u64(w) is Some {
            procfs::numbers(ws, ws.len() as int).push(text::as_u64(w)->0)
        } else {
            procfs::numbers(ws, ws.len() as int)
        },
{
    lemma_numbers_front(ws, w, ws.len() as int);
}

proof fn lemma_numbers_front(ws: Seq<Seq<char>>, w: Seq<char>, n: int)
    requires
        n <= ws.len(),
    ensures
        procfs::numbers(ws.push(w), n) == procfs::numbers(ws, n),
    decreases n,
{
    if n > 1 {
        lemma_numbers_front(ws, w, n - 1);
        assert(ws.push(w)[n - 1] == ws[n - 1]);
    }
}

/// The sum of numbers.
pub open spec fn sum(s: Seq<u64>) -> nat
    decreases s.len(),
{
    if s.len() == 0 {
        0
    } else {
        sum(s.drop_last()) + s.last() as nat
    }
}

/// The ticks that passed are the sum of all figures; those that were busy are all
/// but the fourth and, where there is one, the fifth.
pub proof fn law_ticks(fields: Seq<u64>)
    requires
        sum(fields) <= u64::MAX,
    ensures
        fields.len() < 4 ==> procfs::cpu_ticks(fields) is None,
        fields.len() >= 4 ==> {
            let r = procfs::cpu_ticks(fields);
            &&& r is Some
            &&& (r->0).1 == sum(fields)
            &&& (r->0).0 + fields[3] + (if fields.len() >= 5 {
                fields[4] as int
            } else {
                0
            }) == sum(fields)
        },
{
    lemma_wrap_sum(fields);
    if fields.len() == 4 {
        assert(fields.drop_last().drop_last() =~= fields.take(2));
        reveal_with_fuel(sum, 5);
        assert(fields.last() == fields[3]);
    }
    if fields.len() >= 5 {
        lemma_sum_has(fields, 5);
        let t = fields.take(5);
        assert(t.last() == fields[4]);
        assert(t.drop_last().last() == fields[3]);
        reveal_with_fuel(sum, 3);
    }
}

proof fn lemma_wrap_sum(s: Seq<u64>)
    requires
        sum(s) <= u64::MAX,
    ensures
        procfs::wrap_sum(s) == sum(s),
    decreases s.len(),
{
    if s.len() > 0 {
        lemma_wrap_sum(s.drop_last());
    }
}

proof fn lemma_sum_has(s: Seq<u64>, n: int)
    requires
        0 <= n <= s.len(),
    ensures
        sum(s.take(n)) <= sum(s),
    decreases s.len(),
{
    if n < s.len() {
        lemma_sum_has(s.drop_last(), n);
        assert(s.drop_last().take(n) =~= s.take(n));
    } else {
        assert(s.take(n) =~= s);
    }
}

/// One line of the memory figures: the total and what is available are the second
/// words of their lines, and what is free stands in only while nothing is known to
/// be available. Other lines change nothing.
pub proof fn law_memory_figures(ls: Seq<Seq<char>>, n: int)
    requires
        0 <= n < ls.len(),
    ensures
        ({
            let a = procfs::mem_figures(ls, n);
            let b = procfs::mem_figures(ls, n + 1);
            let total = begins(ls[n], "MemTotal:"@);
            let available = begins(ls[n], "MemAvailable:"@);
            let free = begins(ls[n], "MemFree:"@);
            &&& n == 0 ==> a.0 is None && a.1 is None
            &&& total ==> b.0 == second_number(ls[n]) && b.1 == a.1
            &&& available ==> b.0 == a.0 && b.1 == second_number(ls[n])
            &&& free ==> b.0 == a.0 && b.1 == if a.1 is None {
                second_number(ls[n])
            } else {
                a.1
            }
            &&& !total && !available && !free ==> b == a
        }),
{
    lemma_begins(ls[n], "MemTotal:"@);
    lemma_begins(ls[n], "MemAvailable:"@);
    lemma_begins(ls[n], "MemFree:"@);
    reveal_strlit("MemTotal:");
    reveal_strlit("MemAvailable:");
    reveal_strlit("MemFree:");
    if begins(ls[n], "MemTotal:"@) {
        assert("MemTotal:"@[3] == ls[n][3]);
    }
    if begins(ls[n], "MemAvailable:"@) {
        assert("MemAvailable:"@[3] == ls[n][3]);
    }
    if begins(ls[n], "MemFree:"@) {
        assert("MemFree:"@[3] == ls[n][3]);
    }
    assert(procfs::second_u64(ls[n]) == second_number(ls[n]));
}

/// Memory in use is what is not available, as a share of all; without a total or
/// without what is available it is not known.
pub proof fn law_memory_share(total: Option<u64>, available: Option<u64>)
    ensures
        procfs::mem_percent((total, available)) is Some <==> total is Some && available is Some
            && total->0 > 0,
        total is Some && available is Some && 0 < total->0 && available->0 <= total->0
            ==> procfs::mem_percent((total, available)) == Some(
            procfs::percent((total->0 - available->0) as nat, total->0 as nat),
        ),
        total is Some && available is Some && 0 < total->0 && available->0 >= total->0
            ==> procfs::mem_percent((total, available)) == Some(
            procfs::percent(0, total->0 as nat),
        ),
{
}

/// The total of the memory is the second word of the first such line that has a
/// number there.
pub proof fn law_memory_total(ls: Seq<Seq<char>>, i: int)
    requires
        0 <= i < ls.len(),
    ensures
        procfs::total_from(ls, i) == if begins(ls[i], "MemTotal:"@) && second_number(ls[i]) is Some {
            second_number(ls[i])->0
        } else {
            procfs::total_from(ls, i + 1)
        },
        procfs::total_from(ls, ls.len() as int) == 0,
{
    lemma_begins(ls[i], "MemTotal:"@);
    assert(procfs::second_u64(ls[i]) == second_number(ls[i]));
}

/// Each line of a disk that counts adds its sixth word to the sectors read and its
/// tenth to those written; all disks count where none are named.
pub proof fn law_disk_sectors(ls: Seq<Seq<char>>, devices: Seq<Seq<char>>, n: int)
    requires
        0 <= n < ls.len(),
    ensures
        ({
            let a = procfs::sectors(ls, devices, n);
            let b = procfs::sectors(ls, devices, n + 1);
            let f = text::words(ls[n]);
            let counts = f.len() >= 10 && (devices.len() == 0 || exists|i: int|
                0 <= i < devices.len() && #[trigger] devices[i] == f[2]);
            &&& n == 0 ==> a.0 == 0 && a.1 == 0
            &&& !counts ==> b == a
            &&& counts && a.0 + number_or_zero(f[5]) <= u64::MAX ==> b.0 == a.0 + number_or_zero(
                f[5],
            )
            &&& counts && a.1 + number_or_zero(f[9]) <= u64::MAX ==> b.1 == a.1 + number_or_zero(
                f[9],
            )
        }),
{
    let f = text::words(ls[n]);
    if f.len() >= 10 {
        if devices.contains(f[2]) {
            let i = choose|i: int| 0 <= i < devices.len() && devices[i] == f[2];
            assert(devices[i] == f[2]);
        }
        assert(number_or_zero(f[5]) == procfs::or_zero(f[5]));
        assert(number_or_zero(f[9]) == procfs::or_zero(f[9]));
    }
}

// ── Processes ────────────────────────────────────────────────────────────────

/// Behind the last closing bracket, the twelfth and the thirteenth word are the
/// ticks of a process, whatever its name holds.
pub proof fn law_process_ticks(front: Seq<char>, rest: Seq<char>)
    requires
        !reading::holds_char(rest, ')'),
    ensures
        ({
            let f = text::words(rest);
            let r = procfs::stat_ticks(front + seq![')'] + rest);
            &&& r is Some <==> f.len() >= 13 && text::as_u64(f[11]) is Some && text::as_u64(
                f[12],
            ) is Some
            &&& r is Some ==> r->0 == (text::as_u64(f[11])->0, text::as_u64(f[12])->0)
        }),
        procfs::stat_ticks(rest) is None,
{
    let s = front + seq![')'] + rest;
    let n = front.len() as int;
    text::lemma_last_pos(s, ')', s.len() as int);
    assert(s[n] == ')');
    match text::last_pos(s, ')', s.len() as int) {
        Some(k) => {
            if k > n {
                assert(rest[k - n - 1] == ')');
            }
            if k < n {
                assert(s[n] != ')');
            }
            assert(s.skip(n + 1) =~= rest);
        },
        None => {},
    }
    text::lemma_last_pos(rest, ')', rest.len() as int);
    match text::last_pos(rest, ')', rest.len() as int) {
        Some(k) => {
            assert(rest[k] == ')');
        },
        None => {},
    }
}

/// One line of the status of a process: its account and its resident memory are the
/// second words of their lines.
pub proof fn law_process_status(ls: Seq<Seq<char>>, n: int)
    requires
        0 <= n < ls.len(),
    ensures
        ({
            let a = procfs::status_after(ls, n);
            let b = procfs::status_after(ls, n + 1);
            let uid = begins(ls[n], "Uid:"@);
            let rss = begins(ls[n], "VmRSS:"@);
            let w = text::words(ls[n]);
            &&& n == 0 ==> a.0 is None && a.1 is None
            &&& uid && a.0 is None ==> b.1 == a.1 && b.0 == if w.len() >= 2 {
                text::as_u32(w[1])
            } else {
                None
            }
            &&& rss && !(a.0 is Some && a.1 is Some) ==> b.0 == a.0 && b.1 == second_number(ls[n])
            &&& a.0 is Some && a.1 is Some ==> b == a
            &&& a.0 is Some ==> b.0 == a.0
            &&& !uid && !rss ==> b == a
        }),
{
    lemma_begins(ls[n], "Uid:"@);
    lemma_begins(ls[n], "VmRSS:"@);
    reveal_strlit("Uid:");
    reveal_strlit("VmRSS:");
    if begins(ls[n], "Uid:"@) {
        assert("Uid:"@[0] == ls[n][0]);
    }
    if begins(ls[n], "VmRSS:"@) {
        assert("VmRSS:"@[0] == ls[n][0]);
    }
    assert(procfs::second_u64(ls[n]) == second_number(ls[n]));
}

/// One line of the disk figures of a process: the bytes read and written are the
/// second words of their lines.
pub proof fn law_process_disk(ls: Seq<Seq<char>>, n: int)
    requires
        0 <= n < ls.len(),
    ensures
        ({
            let a = procfs::io_after(ls, n);
            let b = procfs::io_after(ls, n + 1);
            let read = begins(ls[n], "read_bytes:"@);
            let written = begins(ls[n], "write_bytes:"@);
            &&& n == 0 ==> a.0 is None && a.1 is None
            &&& read && a.0 is None ==> b.0 == second_number(ls[n]) && b.1 == a.1
            &&& written && a.1 is None ==> b.0 == a.0 && b.1 == second_number(ls[n])
            &&& a.0 is Some ==> b.0 == a.0
            &&& a.1 is Some ==> b.1 == a.1
            &&& !read && !written ==> b == a
        }),
{
    lemma_begins(ls[n], "read_bytes:"@);
    lemma_begins(ls[n], "write_bytes:"@);
    reveal_strlit("read_bytes:");
    reveal_strlit("write_bytes:");
    if begins(ls[n], "read_bytes:"@) {
        assert("read_bytes:"@[0] == ls[n][0]);
    }
    if begins(ls[n], "write_bytes:"@) {
        assert("write_bytes:"@[0] == ls[n][0]);
    }
    assert(procfs::second_u64(ls[n]) == second_number(ls[n]));
}

/// The name of an account is what stands before the first colon, without the white
/// space around it.
pub proof fn law_account(name: Seq<char>, rest: Seq<char>)
    requires
        !reading::holds_char(name, ':'),
        !reading::holds_char(name, '\n'),
    ensures
        ({
            let r = procfs::account_name(name + seq![':'] + rest);
            &&& text::trim(name).len() == 0 ==> r is None
            &&& text::trim(name).len() > 0 ==> r == Some(text::trim(name))
        }),
{
    let out = name + seq![':'] + rest;
    let n = name.len() as int;
    text::lemma_char_pos(out, '\n', 0);
    let p = text::char_pos(out, '\n', 0);
    assert forall|j: int| 0 <= j <= n implies #[trigger] out[j] != '\n' by {
        if j < n {
            assert(out[j] == name[j]);
        }
    }
    assert(p > n);
    let line = out.take(p);
    text::lemma_char_pos(line, ':', 0);
    let q = text::char_pos(line, ':', 0);
    assert(line[n] == ':');
    if q < n {
        assert(line[q] == name[q]);
    }
    if q > n {
        assert(line[n] != ':');
    }
    assert(line.take(n) =~= name);
}

/// Without a colon the name of an account is the first line.
pub proof fn law_bare_account(line: Seq<char>, rest: Seq<char>)
    requires
        !reading::holds_char(line, ':'),
        !reading::holds_char(line, '\n'),
    ensures
        ({
            let r = procfs::account_name(line + seq!['\n'] + rest);
            &&& text::trim(line).len() == 0 ==> r is None
            &&& text::trim(line).len() > 0 ==> r == Some(text::trim(line))
        }),
{
    let out = line + seq!['\n'] + rest;
    let n = line.len() as int;
    text::lemma_char_pos(out, '\n', 0);
    let p = text::char_pos(out, '\n', 0);
    assert(out[n] == '\n');
    if p < n {
        assert(out[p] == line[p]);
    }
    if p > n {
        assert(out[n] != '\n');
    }
    assert(out.take(n) =~= line);
    text::lemma_char_pos(line, ':', 0);
    let q = text::char_pos(line, ':', 0);
    if q < n {
        assert(line[q] == ':');
    }
    assert(line.take(n) =~= line);
}

// ── Services ─────────────────────────────────────────────────────────────────

/// One line of the services: a name, and behind it a port, a slash and `tcp` or
/// `udp`. It stands for that port and protocol from then on; a line of another form,
/// or a remark, changes nothing.
pub proof fn law_service_line(
    ls: Seq<Seq<char>>,
    n: int,
    port: Seq<char>,
    proto: Seq<char>,
)
    requires
        0 <= n < ls.len(),
        !reading::holds_char(port, '/'),
    ensures
        ({
            let before = conns::services_in(ls, n);
            let after = conns::services_in(ls, n + 1);
            let line = text::trim(ls[n]);
            let w = text::words(line);
            let known = text::lower(proto) == seq!['t', 'c', 'p'] || text::lower(proto) == seq![
                'u',
                'd',
                'p',
            ];
            &&& n == 0 ==> before == Map::<(u16, Seq<char>), Seq<char>>::empty()
            &&& line.len() == 0 || line[0] == '#' || w.len() < 2 ==> after == before
            &&& line.len() > 0 && line[0] != '#' && w.len() >= 2 && w[1] == port + seq!['/'] + proto
                ==> after == if known && text::as_u16(port) is Some {
                before.insert((text::as_u16(port)->0, text::lower(proto)), w[0])
            } else {
                before
            }
            &&& w.len() >= 2 && !reading::holds_char(w[1], '/') ==> after == before
        }),
{
    reveal_strlit("tcp");
    reveal_strlit("udp");
    assert("tcp"@ =~= seq!['t', 'c', 'p']);
    assert("udp"@ =~= seq!['u', 'd', 'p']);
    let line = text::trim(ls[n]);
    let w = text::words(line);
    if w.len() >= 2 {
        let s = w[1];
        text::lemma_char_pos(s, '/', 0);
        let p = text::char_pos(s, '/', 0);
        if s == port + seq!['/'] + proto {
            let k = port.len() as int;
            assert(s[k] == '/');
            if p < k {
                assert(port[p] == s[p]);
            }
            if p > k {
                assert(s[k] != '/');
            }
            assert(s.take(k) =~= port);
            assert(s.skip(k + 1) =~= proto);
        }
        if !reading::holds_char(s, '/') && p < s.len() {
            assert(s[p] == '/');
        }
    }
}

} // verus!
