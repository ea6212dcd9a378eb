//! What a listing of sockets yields.

use vstd::prelude::*;

use crate::reading;
use crate::ss;
use crate::ss::SocketModel;
use crate::text;

verus! {

/// Whether the words of a line are those of a socket: the first is `udp`, or the
/// first two are `tcp` and `ESTAB`.
pub open spec fn heads_socket(w: Seq<Seq<char>>) -> bool {
    ||| w.len() >= 1 && w[0] == seq!['u', 'd', 'p']
    ||| w.len() >= 2 && w[0] == seq!['t', 'c', 'p'] && w[1] == seq!['E', 'S', 'T', 'A', 'B']
}

/// Whether a line is indented: by a tab or by four blanks.
pub open spec fn indented(line: Seq<char>) -> bool {
    ||| line.len() >= 1 && line[0] == '\t'
    ||| line.len() >= 4 && line[0] == ' ' && line[1] == ' ' && line[2] == ' ' && line[3] == ' '
}

/// `bytes_`.
pub open spec fn bytes_mark() -> Seq<char> {
    seq!['b', 'y', 't', 'e', 's', '_']
}

/// Whether a line holds the counters of the socket before it.
pub open spec fn holds_counters(line: Seq<char>) -> bool {
    indented(line) && exists|k: int| #[trigger] reading::stands_at(line, bytes_mark(), k)
}

/// The word at `i`, empty where there is none.
pub open spec fn nth(w: Seq<Seq<char>>, i: int) -> Seq<char> {
    if i < w.len() {
        w[i]
    } else {
        Seq::empty()
    }
}

/// The numbers of the lines that name sockets, from line `i` on.
pub open spec fn socket_lines(ls: Seq<Seq<char>>, i: int) -> Seq<int>
    decreases ls.len() - i,
{
    if i < 0 || i >= ls.len() {
        Seq::empty()
    } else if heads_socket(text::words(ls[i])) {
        seq![i] + socket_lines(
            ls,
            if i + 1 < ls.len() && holds_counters(ls[i + 1]) {
                i + 2
            } else {
                i + 1
            },
        )
    } else {
        socket_lines(ls, i + 1)
    }
}

proof fn lemma_heads(w: Seq<Seq<char>>)
    ensures
        ss::is_socket(w) == heads_socket(w),
{
    reveal_strlit("udp");
    reveal_strlit("tcp");
    reveal_strlit("ESTAB");
    assert("udp"@ =~= seq!['u', 'd', 'p']);
    assert("tcp"@ =~= seq!['t', 'c', 'p']);
    assert("ESTAB"@ =~= seq!['E', 'S', 'T', 'A', 'B']);
}

proof fn lemma_detail(line: Seq<char>)
    ensures
        ss::is_detail(line) == holds_counters(line),
{
    reveal_strlit("\t");
    reveal_strlit("    ");
    reveal_strlit("bytes_");
    let mark = bytes_mark();
    assert("bytes_"@ =~= mark);
    assert(text::starts_with(line, "\t"@) == (line.len() >= 1 && line[0] == '\t')) by {
        if line.len() >= 1 {
            if line[0] == '\t' {
                assert(line.subrange(0, 1) =~= "\t"@);
            }
            if line.subrange(0, 1) == "\t"@ {
                assert(line.subrange(0, 1)[0] == line[0]);
            }
        }
    }
    assert(text::starts_with(line, "    "@) == (line.len() >= 4 && line[0] == ' ' && line[1] == ' '
        && line[2] == ' ' && line[3] == ' ')) by {
        if line.len() >= 4 {
            let f = line.subrange(0, 4);
            if line[0] == ' ' && line[1] == ' ' && line[2] == ' ' && line[3] == ' ' {
                assert(f =~= "    "@);
            }
            if f == "    "@ {
                assert(f[0] == line[0] && f[1] == line[1] && f[2] == line[2] && f[3] == line[3]);
            }
        }
    }
    let t = text::trim_start(line);
    let p = text::space_end(line, 0);
    text::lemma_space_end(line, 0);
    reading::law_find(t, mark);
    if text::find(t, mark) is Some {
        let k = text::find(t, mark)->0;
        assert forall|i: int| 0 <= i < mark.len() implies #[trigger] mark[i] == line[p + k + i] by {
            assert(mark[i] == t[k + i]);
        }
        assert(reading::stands_at(line, mark, p + k));
    }
    if exists|k: int| #[trigger] reading::stands_at(line, mark, k) {
        let k = choose|k: int| #[trigger] reading::stands_at(line, mark, k);
        assert(mark[0] == line[k + 0]);
        if k < p {
            assert(text::is_space(line[k]));
        }
        assert forall|i: int| 0 <= i < mark.len() implies #[trigger] mark[i] == t[k - p + i] by {
            assert(mark[i] == line[k + i]);
        }
        assert(reading::stands_at(t, mark, k - p));
    }
}

/// One line of a listing: one that names a socket yields just one, which has its
/// first word as the protocol and its fifth and sixth as the endpoints, whatever
/// the other words are; a line of counters behind it belongs to it. Any other line
/// yields nothing.
pub proof fn law_listing_step(ls: Seq<Seq<char>>, i: int)
    requires
        0 <= i < ls.len(),
    ensures
        ({
            let w = text::words(ls[i]);
            let here = ss::sockets_from(ls, i);
            let counted = i + 1 < ls.len() && holds_counters(ls[i + 1]);
            &&& heads_socket(w) ==> {
                &&& here.len() >= 1
                &&& here.drop_first() == ss::sockets_from(
                    ls,
                    if counted {
                        i + 2
                    } else {
                        i + 1
                    },
                )
                &&& here[0].proto == w[0]
                &&& here[0].local == nth(w, 4)
                &&& here[0].remote == nth(w, 5)
                &&& !counted ==> here[0].rx_bytes is None && here[0].tx_bytes is None
                &&& counted ==> here[0].rx_bytes == ss::keyed_number(
                    text::trim_start(ls[i + 1]),
                    "bytes_received:"@,
                )
                &&& counted ==> here[0].tx_bytes == ss::keyed_number(
                    text::trim_start(ls[i + 1]),
                    "bytes_sent:"@,
                )
                &&& (here[0].comm, here[0].pid) == ss::owner(
                    text::join_words(
                        if w.len() > 6 {
                            w.subrange(6, w.len() as int)
                        } else {
                            Seq::empty()
                        },
                    ),
                )
            }
            &&& !heads_socket(w) ==> here == ss::sockets_from(ls, i + 1)
        }),
        ss::sockets_from(ls, ls.len() as int).len() == 0,
{
    let w = text::words(ls[i]);
    lemma_heads(w);
    if i + 1 < ls.len() {
        lemma_detail(ls[i + 1]);
    }
    let here = ss::sockets_from(ls, i);
    if heads_socket(w) {
        if i + 1 < ls.len() && holds_counters(ls[i + 1]) {
            assert(here.drop_first() =~= ss::sockets_from(ls, i + 2));
        } else {
            assert(here.drop_first() =~= ss::sockets_from(ls, i + 1));
        }
        if w.len() > 6 {
            assert(w.skip(6) =~= w.subrange(6, w.len() as int));
        }
    }
}

/// Whether `listed` are the sockets of the lines from `i` on: one for each line that
/// names one, in their order and with the words of its line. Every such line that is
/// not itself indented is among them.
pub open spec fn is_complete(ls: Seq<Seq<char>>, i: int, listed: Seq<SocketModel>) -> bool {
    let at = socket_lines(ls, i);
    &&& listed.len() == at.len()
    &&& forall|j: int|
        #![trigger listed[j]]
        #![trigger at[j]]
        0 <= j < at.len() ==> {
            let w = text::words(ls[at[j]]);
            &&& i <= at[j] < ls.len()
            &&& heads_socket(w)
            &&& listed[j].proto == w[0]
            &&& listed[j].local == nth(w, 4)
            &&& listed[j].remote == nth(w, 5)
        }
    &&& forall|j: int, k: int| 0 <= j < k < at.len() ==> #[trigger] at[j] < #[trigger] at[k]
    &&& forall|k: int|
        i <= k < ls.len() && heads_socket(text::words(#[trigger] ls[k])) && !indented(ls[k])
            ==> at.contains(k)
}

/// The listing is complete and in order: its sockets stand for the lines that name
/// one, in their order, each with the words of its line; every such line that is
/// not itself indented is among them.
pub proof fn law_listing(ls: Seq<Seq<char>>, i: int)
    requires
        0 <= i,
    ensures
        is_complete(ls, i, ss::sockets_from(ls, i)),
    decreases ls.len() - i,
{
    let at = socket_lines(ls, i);
    let listed = ss::sockets_from(ls, i);
    if i < ls.len() {
        law_listing_step(ls, i);
        let w = text::words(ls[i]);
        if heads_socket(w) {
            let next = if i + 1 < ls.len() && holds_counters(ls[i + 1]) {
                i + 2
            } else {
                i + 1
            };
            law_listing(ls, next);
            let at2 = socket_lines(ls, next);
            let listed2 = ss::sockets_from(ls, next);
            assert(listed =~= seq![listed[0]] + listed2);
            assert(at =~= seq![i] + at2);
            assert forall|j: int|
                #![trigger listed[j]]
                #![trigger at[j]]
                0 <= j < at.len() implies {
                let w = text::words(ls[at[j]]);
                &&& i <= at[j] < ls.len()
                &&& heads_socket(w)
                &&& listed[j].proto == w[0]
                &&& listed[j].local == nth(w, 4)
                &&& listed[j].remote == nth(w, 5)
            } by {
                if j > 0 {
                    assert(at[j] == at2[j - 1]);
                    assert(listed[j] == listed2[j - 1]);
                }
            }
            assert forall|j: int, k: int| 0 <= j < k < at.len() implies #[trigger] at[j]
                < #[trigger] at[k] by {
                assert(at[k] == at2[k - 1]);
                if j > 0 {
                    assert(at[j] == at2[j - 1]);
                }
            }
            assert forall|k: int|
                i <= k < ls.len() && heads_socket(text::words(#[trigger] ls[k])) && !indented(
                    ls[k],
                ) implies at.contains(k) by {
                if k == i {
                    assert(at[0] == k);
                } else {
                    assert(next <= k);
                    assert(at2.contains(k));
                    let j = choose|j: int| 0 <= j < at2.len() && at2[j] == k;
                    assert(at[j + 1] == k);
                }
            }
        } else {
            law_listing(ls, i + 1);
        }
    }
}

/// A counter reads as the number that was written behind its name.
pub proof fn law_counter_reads_back(front: Seq<char>, key: Seq<char>, n: u64, rest: Seq<char>)
    requires
        key.len() > 0,
        text::find(front + key, key) == Some(front.len() as int),
        rest.len() > 0 ==> !('0' <= rest[0] <= '9'),
    ensures
        ss::keyed_number(front + key + text::decimal(n as nat) + rest, key) == Some(n),
{
    let number = text::decimal(n as nat);
    let all = front + key + number + rest;
    assert(all =~= (front + key) + (number + rest));
    text::lemma_find_extended(front + key, number + rest, key);
    text::law_decimal_reads_back(n as nat, u64::MAX as nat);
    text::lemma_decimal_digits(n as nat);
    let digits = all.skip(front.len() as int + key.len() as int);
    assert(digits =~= number + rest);
    lemma_digits_of(number, rest);
}

proof fn lemma_digits_of(number: Seq<char>, rest: Seq<char>)
    requires
        text::all_digits(number),
        rest.len() > 0 ==> !text::is_digit(rest[0]),
    ensures
        text::leading_digits(number + rest) == number,
{
    let digits = number + rest;
    text::lemma_leading_digits(digits);
    let d = text::leading_digits(digits);
    let k = d.len() as int;
    if k < number.len() {
        assert(digits[k] == number[k]);
        assert(text::is_digit(number[k]));
    }
    if k > number.len() {
        assert(text::is_digit(d[number.len() as int]));
        assert(digits[number.len() as int] == rest[0]);
    }
    assert(d =~= number);
}

/// A line without the name of a counter has no such counter, nor has one with
/// something else than a digit behind it.
pub proof fn law_no_counter(s: Seq<char>, key: Seq<char>)
    ensures
        (forall|k: int| !#[trigger] reading::stands_at(s, key, k)) ==> ss::keyed_number(s, key)
            is None,
        ({
            let k = text::find(s, key)->0;
            text::find(s, key) is Some && (k + key.len() == s.len() || !('0' <= s[k
                + key.len()] <= '9')) ==> ss::keyed_number(s, key) is None
        }),
{
    reading::law_find(s, key);
    if text::find(s, key) is Some {
        let k = text::find(s, key)->0;
        let t = s.skip(k + key.len());
        if t.len() == 0 || !('0' <= t[0] <= '9') {
            assert(text::leading_digits(t) =~= Seq::<char>::empty());
        }
    }
}

} // verus!
