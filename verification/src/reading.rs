//! What reading a text means: words, lines and numbers.

use vstd::prelude::*;

use crate::text;

verus! {

/// Whether no character of `s` is white space.
pub open spec fn solid(s: Seq<char>) -> bool {
    forall|i: int| 0 <= i < s.len() ==> !text::is_space(#[trigger] s[i])
}

/// Whether all characters of `s` are white space.
pub open spec fn blank(s: Seq<char>) -> bool {
    forall|i: int| 0 <= i < s.len() ==> text::is_space(#[trigger] s[i])
}

/// Whether `p` stands in `s` at `k`.
pub open spec fn stands_at(s: Seq<char>, p: Seq<char>, k: int) -> bool {
    &&& 0 <= k
    &&& k + p.len() <= s.len()
    &&& forall|i: int| 0 <= i < p.len() ==> #[trigger] p[i] == s[k + i]
}

/// Whether `c` occurs in `s`.
pub open spec fn holds_char(s: Seq<char>, c: char) -> bool {
    exists|i: int| 0 <= i < s.len() && #[trigger] s[i] == c
}

/// Below 128, white space is the blank and the controls from tab to carriage return.
pub proof fn law_spaces(c: char)
    ensures
        (c as u32) < 128 ==> (text::is_space(c) <==> c == ' ' || 9 <= c as u32 <= 13),
{
}

proof fn lemma_words_local(a: Seq<char>, b: Seq<char>, i: int)
    requires
        0 <= i <= a.len(),
        b.len() > 0 ==> text::is_space(b[0]),
    ensures
        text::words_from(a + b, i) == text::words_from(a, i) + text::words_from(
            a + b,
            a.len() as int,
        ),
    decreases a.len() - i,
{
    let s = a + b;
    lemma_ends_local(a, b, i);
    text::lemma_space_end(a, i);
    text::lemma_space_end(s, i);
    let p = text::space_end(a, i);
    if p >= a.len() {
        text::lemma_words_skip(s, i);
        text::lemma_words_skip(s, a.len() as int);
        lemma_blank_run(s, i, a.len() as int);
        assert(text::words_from(a, i) =~= Seq::<Seq<char>>::empty());
        assert(text::words_from(a, i) + text::words_from(s, a.len() as int) =~= text::words_from(
            s,
            a.len() as int,
        ));
    } else {
        assert(text::space_end(s, i) == p);
        lemma_ends_local(a, b, p);
        text::lemma_word_end(a, p);
        text::lemma_word_end(s, p);
        let q = text::word_end(a, p);
        assert(text::word_end(s, p) == q);
        lemma_words_local(a, b, q);
        assert(s.subrange(p, q) =~= a.subrange(p, q));
        assert(text::words_from(s, i) =~= text::words_from(a, i) + text::words_from(
            s,
            a.len() as int,
        ));
    }
}

/// Ends found within `a` are the same in a longer text.
proof fn lemma_ends_local(a: Seq<char>, b: Seq<char>, i: int)
    requires
        0 <= i <= a.len(),
        b.len() > 0 ==> text::is_space(b[0]),
    ensures
        text::space_end(a, i) < a.len() ==> text::space_end(a + b, i) == text::space_end(a, i),
        text::space_end(a, i) >= a.len() ==> text::space_end(a + b, i) >= a.len(),
        text::word_end(a + b, i) == text::word_end(a, i),
    decreases a.len() - i,
{
    let s = a + b;
    if i < a.len() {
        assert(s[i] == a[i]);
        lemma_ends_local(a, b, i + 1);
    } else {
        text::lemma_space_end(s, i);
        if b.len() > 0 {
            assert(s[i] == b[0]);
        }
    }
}

/// Positions within one run of white space have the same end.
proof fn lemma_blank_run(s: Seq<char>, i: int, j: int)
    requires
        0 <= i <= j <= s.len(),
        text::space_end(s, i) >= j,
    ensures
        text::space_end(s, i) == text::space_end(s, j),
    decreases j - i,
{
    if i < j {
        lemma_blank_run(s, i + 1, j);
    }
}

proof fn lemma_words_shift(a: Seq<char>, b: Seq<char>, i: int)
    requires
        0 <= i <= b.len(),
    ensures
        text::words_from(a + b, a.len() + i) == text::words_from(b, i),
    decreases b.len() - i,
{
    let s = a + b;
    let n = a.len();
    lemma_ends_shift(a, b, i);
    text::lemma_space_end(b, i);
    let p = text::space_end(b, i);
    if p < b.len() {
        lemma_ends_shift(a, b, p);
        text::lemma_word_end(b, p);
        let q = text::word_end(b, p);
        lemma_words_shift(a, b, q);
        assert(s.subrange(n + p, n + q) =~= b.subrange(p, q));
    }
}

proof fn lemma_ends_shift(a: Seq<char>, b: Seq<char>, i: int)
    requires
        0 <= i <= b.len(),
    ensures
        text::space_end(a + b, a.len() + i) == a.len() + text::space_end(b, i),
        text::word_end(a + b, a.len() + i) == a.len() + text::word_end(b, i),
    decreases b.len() - i,
{
    if i < b.len() {
        assert((a + b)[a.len() + i] == b[i]);
        lemma_ends_shift(a, b, i + 1);
    }
}

/// White space parts texts, and nothing else does: the words of two texts with
/// white space between them are those of the first and then those of the second,
/// and a text without white space is one word.
pub proof fn law_words(a: Seq<char>, c: char, b: Seq<char>)
    ensures
        text::is_space(c) ==> text::words(a + seq![c] + b) == text::words(a) + text::words(b),
        solid(a) && a.len() > 0 ==> text::words(a) == seq![a],
        text::words(Seq::empty()) == Seq::<Seq<char>>::empty(),
{
    if text::is_space(c) {
        let tail = seq![c] + b;
        assert(a + seq![c] + b =~= a + tail);
        lemma_words_local(a, tail, 0);
        lemma_words_shift(a, tail, 0);
        lemma_words_of_space(c, b);
    }
    if solid(a) && a.len() > 0 {
        text::lemma_space_end(a, 0);
        text::lemma_word_end(a, 0);
        assert(a.subrange(0, a.len() as int) =~= a);
        assert(text::words_from(a, a.len() as int) =~= Seq::<Seq<char>>::empty());
        assert(text::words(a) =~= seq![a]);
    }
    assert(text::words(Seq::<char>::empty()) =~= Seq::<Seq<char>>::empty());
}

proof fn lemma_words_of_space(c: char, b: Seq<char>)
    requires
        text::is_space(c),
    ensures
        text::words(seq![c] + b) == text::words(b),
{
    let s = seq![c] + b;
    assert(s[0] == c);
    text::lemma_words_skip(s, 0);
    text::lemma_words_skip(s, 1);
    assert(text::space_end(s, 0) == text::space_end(s, 1));
    lemma_words_shift(seq![c], b, 0);
}

/// Words that were joined are found again.
pub proof fn law_joined_words(ws: Seq<Seq<char>>)
    requires
        forall|i: int| 0 <= i < ws.len() ==> (#[trigger] ws[i]).len() > 0 && solid(ws[i]),
    ensures
        text::words(text::join_words(ws)) == ws,
    decreases ws.len(),
{
    if ws.len() == 0 {
        law_words(Seq::empty(), ' ', Seq::empty());
    } else if ws.len() == 1 {
        law_words(ws[0], ' ', Seq::empty());
        assert(seq![ws[0]] =~= ws);
    } else {
        let front = ws.drop_last();
        assert forall|i: int| 0 <= i < front.len() implies (#[trigger] front[i]).len() > 0 && solid(
            front[i],
        ) by {
            assert(front[i] == ws[i]);
        }
        law_joined_words(front);
        law_words(text::join_words(front), ' ', ws.last());
        law_words(ws.last(), ' ', Seq::empty());
        assert(ws[ws.len() - 1] == ws.last());
        assert(front + seq![ws.last()] =~= ws);
    }
}

/// A line feed, with or without a carriage return before it, ends a line; the last
/// line needs none.
pub proof fn law_lines(a: Seq<char>, b: Seq<char>)
    requires
        !holds_char(a, '\n'),
    ensures
        text::lines(a + seq!['\n'] + b) == seq![
            if a.len() > 0 && a.last() == '\r' {
                a.drop_last()
            } else {
                a
            },
        ] + text::lines(b),
        a.len() > 0 ==> text::lines(a) == seq![a],
        text::lines(Seq::empty()) == Seq::<Seq<char>>::empty(),
{
    let s = a + seq!['\n'] + b;
    let n = a.len() as int;
    lemma_first_at(s, '\n', 0, n);
    let head = a + seq!['\n'];
    assert(s =~= head + b);
    lemma_lines_shift(head, b, 0);
    if n > 0 {
        assert(s[n - 1] == a.last());
        assert(s.subrange(0, n - 1) =~= a.drop_last());
    }
    assert(s.subrange(0, n) =~= a);
    if n > 0 {
        text::lemma_char_pos(a, '\n', 0);
        assert(text::char_pos(a, '\n', 0) == n) by {
            if text::char_pos(a, '\n', 0) < n {
                assert(a[text::char_pos(a, '\n', 0)] == '\n');
            }
        }
        assert(a.subrange(0, n) =~= a);
        assert(text::lines_from(a, n + 1) =~= Seq::<Seq<char>>::empty());
        assert(text::lines(a) =~= seq![a]);
    }
    assert(text::lines(Seq::<char>::empty()) =~= Seq::<Seq<char>>::empty());
}

/// The first place of a character that does not stand before it.
proof fn lemma_first_at(s: Seq<char>, c: char, i: int, k: int)
    requires
        0 <= i <= k < s.len(),
        s[k] == c,
        forall|j: int| i <= j < k ==> #[trigger] s[j] != c,
    ensures
        text::char_pos(s, c, i) == k,
    decreases k - i,
{
    if i < k {
        lemma_first_at(s, c, i + 1, k);
    }
}

proof fn lemma_lines_shift(a: Seq<char>, b: Seq<char>, i: int)
    requires
        0 <= i <= b.len() + 1,
    ensures
        text::lines_from(a + b, a.len() + i) == text::lines_from(b, i),
    decreases b.len() + 1 - i,
{
    let s = a + b;
    let n = a.len();
    if i < b.len() {
        lemma_pos_shift(a, b, '\n', i);
        text::lemma_char_pos(b, '\n', i);
        let j = text::char_pos(b, '\n', i);
        lemma_lines_shift(a, b, j + 1);
        if j > i {
            assert(s[n + j - 1] == b[j - 1]);
            assert(s.subrange(n + i, n + j - 1) =~= b.subrange(i, j - 1));
        }
        assert(s.subrange(n + i, n + j) =~= b.subrange(i, j));
    }
}

proof fn lemma_pos_shift(a: Seq<char>, b: Seq<char>, c: char, i: int)
    requires
        0 <= i <= b.len(),
    ensures
        text::char_pos(a + b, c, a.len() + i) == a.len() + text::char_pos(b, c, i),
    decreases b.len() - i,
{
    if i < b.len() {
        assert((a + b)[a.len() + i] == b[i]);
        lemma_pos_shift(a, b, c, i + 1);
    }
}

/// Trimming takes white space off both ends, all of it and nothing else.
pub proof fn law_trim(a: Seq<char>, t: Seq<char>, b: Seq<char>)
    requires
        blank(a),
        blank(b),
        t.len() > 0 ==> !text::is_space(t[0]) && !text::is_space(t.last()),
    ensures
        text::trim(a + t + b) == t,
        t.len() > 0 ==> text::trim_start(a + t + b) == t + b,
{
    let s = a + t + b;
    text::lemma_space_end(s, 0);
    let p = text::space_end(s, 0);
    if t.len() > 0 {
        assert(s[a.len() as int] == t[0]);
        assert(p == a.len()) by {
            if p < a.len() {
                assert(s[p] == a[p]);
            }
            if p > a.len() {
                assert(text::is_space(s[a.len() as int]));
            }
        }
        let r = text::trim_start(s);
        assert(r =~= t + b);
        text::lemma_trim_stop(r, r.len() as int);
        lemma_stop_at(r, r.len() as int, t.len() as int);
        assert(r.take(t.len() as int) =~= t);
    } else {
        assert(p == s.len()) by {
            if p < s.len() {
                if p < a.len() {
                    assert(s[p] == a[p]);
                } else {
                    assert(s[p] == b[p - a.len()]);
                }
            }
        }
        assert(text::trim(s) =~= t);
    }
}

proof fn lemma_stop_at(r: Seq<char>, j: int, k: int)
    requires
        0 < k <= j <= r.len(),
        !text::is_space(r[k - 1]),
        forall|i: int| k <= i < j ==> text::is_space(#[trigger] r[i]),
    ensures
        text::trim_stop(r, j) == k,
    decreases j,
{
    if j > k {
        assert(text::is_space(r[j - 1]));
        lemma_stop_at(r, j - 1, k);
    }
}

/// Searching finds the first place where the text stands, if it stands anywhere.
pub proof fn law_find(s: Seq<char>, p: Seq<char>)
    ensures
        match text::find(s, p) {
            Some(k) => stands_at(s, p, k) && forall|j: int| 0 <= j < k ==> !#[trigger] stands_at(
                s,
                p,
                j,
            ),
            None => forall|j: int| !#[trigger] stands_at(s, p, j),
        },
{
    text::lemma_find_from(s, p, 0);
    assert forall|j: int| #[trigger] stands_at(s, p, j) == text::occurs_at(s, p, j) by {
        lemma_stands(s, p, j);
    }
}

proof fn lemma_stands(s: Seq<char>, p: Seq<char>, j: int)
    ensures
        stands_at(s, p, j) == text::occurs_at(s, p, j),
{
    if 0 <= j && j + p.len() <= s.len() {
        let t = s.subrange(j, j + p.len());
        if stands_at(s, p, j) {
            assert(t =~= p);
        }
        if t == p {
            assert forall|i: int| 0 <= i < p.len() implies #[trigger] p[i] == s[j + i] by {
                assert(t[i] == s[j + i]);
            }
        }
    }
}

/// Whether two letters are the same but for ASCII case.
pub open spec fn same_letter(a: char, b: char) -> bool {
    ||| a == b
    ||| ('A' <= a <= 'Z' && b as u32 == a as u32 + 32)
    ||| ('A' <= b <= 'Z' && a as u32 == b as u32 + 32)
}

/// Letters have the same lower case if they are the same but for case.
pub proof fn law_lower(a: char, b: char)
    ensures
        text::lower_char(a) == text::lower_char(b) <==> same_letter(a, b),
        !('A' <= text::lower_char(a) <= 'Z'),
{
}

/// A number is an optional plus sign and digits, and nothing else; leading zeros do
/// not change it, and one more digit is worth ten times what stands before it.
pub proof fn law_numbers(s: Seq<char>, d: char, max: nat)
    ensures
        text::parse_num(s, max) is Some ==> {
            &&& s.len() > 0
            &&& forall|i: int| 1 <= i < s.len() ==> '0' <= #[trigger] s[i] <= '9'
            &&& '0' <= s[0] <= '9' || (s[0] == '+' && s.len() > 1)
            &&& text::parse_num(s, max)->0 <= max
        },
        text::parse_num(s, max) is Some && '0' <= d <= '9' ==> text::parse_num(
            s.push(d),
            (10 * max + 9) as nat,
        ) == Some((10 * text::parse_num(s, max)->0 + (d as u32 - '0' as u32)) as nat),
        '0' <= d <= '9' ==> text::parse_num(seq![d], 9) == Some((d as u32 - '0' as u32) as nat),
{
    if text::parse_num(s, max) is Some {
        let b = if s[0] == '+' {
            s.drop_first()
        } else {
            s
        };
        assert forall|i: int| 1 <= i < s.len() implies '0' <= #[trigger] s[i] <= '9' by {
            if s[0] == '+' {
                assert(b[i - 1] == s[i]);
            }
            assert(text::all_digits(b));
        }
        if s[0] != '+' {
            assert(text::is_digit(b[0]));
        }
        if '0' <= d <= '9' {
            let t = s.push(d);
            let c = if s[0] == '+' {
                t.drop_first()
            } else {
                t
            };
            assert(c =~= b.push(d));
            assert(c.drop_last() =~= b);
            assert forall|i: int| 0 <= i < c.len() implies text::is_digit(#[trigger] c[i]) by {
                if i < b.len() {
                    assert(c[i] == b[i]);
                }
            }
        }
    }
    if '0' <= d <= '9' {
        let t = seq![d];
        assert(t.drop_last() =~= Seq::<char>::empty());
        assert(text::digits_value(t.drop_last()) == 0);
        assert(text::all_digits(t));
    }
}

/// A decimal reads as its number where that fits, and as none where it does not.
pub proof fn law_number_limits(n: nat)
    ensures
        n <= u64::MAX ==> text::as_u64(text::decimal(n)) == Some(n as u64),
        n > u64::MAX ==> text::as_u64(text::decimal(n)) is None,
        n <= u32::MAX ==> text::as_u32(text::decimal(n)) == Some(n as u32),
        n > u32::MAX ==> text::as_u32(text::decimal(n)) is None,
        n <= u16::MAX ==> text::as_u16(text::decimal(n)) == Some(n as u16),
        n > u16::MAX ==> text::as_u16(text::decimal(n)) is None,
        text::as_u64(seq!['+'] + text::decimal(n)) == text::as_u64(text::decimal(n)),
{
    text::lemma_decimal_digits(n);
    let s = seq!['+'] + text::decimal(n);
    assert(s.drop_first() =~= text::decimal(n));
}

/// Anything but a digit makes a text no number, but for a plus sign in front.
pub proof fn law_no_number(s: Seq<char>, i: int, max: nat)
    requires
        0 <= i < s.len(),
        !('0' <= s[i] <= '9'),
        i > 0 || s[0] != '+',
    ensures
        text::parse_num(s, max) is None,
        text::as_u64(s) is None,
        text::as_u32(s) is None,
        text::as_u16(s) is None,
{
    let d = if s[0] == '+' {
        s.drop_first()
    } else {
        s
    };
    let k = if s[0] == '+' {
        i - 1
    } else {
        i
    };
    assert(d[k] == s[i]);
    assert(!text::is_digit(d[k]));
}

/// Padding puts characters in front, up to the width and no more.
pub proof fn law_pad(s: Seq<char>, width: nat, c: char)
    ensures
        text::pad(s, width, c).len() == if s.len() < width {
            width
        } else {
            s.len()
        },
        text::pad(s, width, c).skip(text::pad(s, width, c).len() - s.len()) == s,
        forall|i: int|
            0 <= i < text::pad(s, width, c).len() - s.len() ==> #[trigger] text::pad(
                s,
                width,
                c,
            )[i] == c,
{
    let p = text::pad(s, width, c);
    assert(p.skip(p.len() - s.len()) =~= s);
}

} // verus!
