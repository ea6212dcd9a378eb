//! Scanning and writing text as sequences of characters.

use vstd::prelude::*;
use vstd::slice::slice_subrange;
use vstd::string::*;

verus! {

/// `String::push` appends one character to the end of the string.
pub assume_specification[ String::push ](s: &mut String, ch: char)
    ensures
        final(s)@ == old(s)@.push(ch),
;

// ── Models ───────────────────────────────────────────────────────────────────

/// Unicode `White_Space`.
pub open spec fn is_space(c: char) -> bool {
    let n = c as u32;
    ||| 0x9 <= n <= 0xD
    ||| n == 0x20
    ||| n == 0x85
    ||| n == 0xA0
    ||| n == 0x1680
    ||| 0x2000 <= n <= 0x200A
    ||| n == 0x2028
    ||| n == 0x2029
    ||| n == 0x202F
    ||| n == 0x205F
    ||| n == 0x3000
}

/// An ASCII decimal digit.
pub open spec fn is_digit(c: char) -> bool {
    '0' <= c && c <= '9'
}

/// The first position at or after `i` that holds no white space.
pub open spec fn space_end(s: Seq<char>, i: int) -> int
    decreases s.len() - i,
{
    if 0 <= i < s.len() && is_space(s[i]) {
        space_end(s, i + 1)
    } else {
        i
    }
}

/// The first position at or after `i` that holds white space, or the end.
pub open spec fn word_end(s: Seq<char>, i: int) -> int
    decreases s.len() - i,
{
    if 0 <= i < s.len() && !is_space(s[i]) {
        word_end(s, i + 1)
    } else {
        i
    }
}

/// The words at or after `i`: maximal runs without white space.
pub open spec fn words_from(s: Seq<char>, i: int) -> Seq<Seq<char>>
    decreases s.len() - i,
    when 0 <= i <= s.len()
    via words_from_decreases
{
    let a = space_end(s, i);
    if a >= s.len() {
        Seq::empty()
    } else {
        let b = word_end(s, a);
        seq![s.subrange(a, b)] + words_from(s, b)
    }
}

#[via_fn]
proof fn words_from_decreases(s: Seq<char>, i: int) {
    lemma_space_end(s, i);
    let a = space_end(s, i);
    if a < s.len() {
        lemma_word_end(s, a);
    }
}

/// The words of `s`.
pub open spec fn words(s: Seq<char>) -> Seq<Seq<char>> {
    words_from(s, 0)
}

/// The position just after the last character before `j` that is no white space.
pub open spec fn trim_stop(s: Seq<char>, j: int) -> int
    decreases j,
{
    if 0 < j <= s.len() && is_space(s[j - 1]) {
        trim_stop(s, j - 1)
    } else {
        j
    }
}

/// `s` without leading white space.
pub open spec fn trim_start(s: Seq<char>) -> Seq<char> {
    s.skip(space_end(s, 0))
}

/// `s` without leading and trailing white space.
pub open spec fn trim(s: Seq<char>) -> Seq<char> {
    let t = trim_start(s);
    t.take(trim_stop(t, t.len() as int))
}

/// The first position at or after `i` that holds `c`, or the end.
pub open spec fn char_pos(s: Seq<char>, c: char, i: int) -> int
    decreases s.len() - i,
{
    if 0 <= i < s.len() && s[i] != c {
        char_pos(s, c, i + 1)
    } else {
        i
    }
}

/// The lines at or after `i`. A line ends with a line feed, or with a carriage
/// return and a line feed; the ending of the last line is optional.
pub open spec fn lines_from(s: Seq<char>, i: int) -> Seq<Seq<char>>
    decreases s.len() + 1 - i,
    when 0 <= i
    via lines_from_decreases
{
    if i >= s.len() {
        Seq::empty()
    } else {
        let j = char_pos(s, '\n', i);
        let stop = if j < s.len() && j > i && s[j - 1] == '\r' {
            j - 1
        } else {
            j
        };
        seq![s.subrange(i, stop)] + lines_from(s, j + 1)
    }
}

#[via_fn]
proof fn lines_from_decreases(s: Seq<char>, i: int) {
    if i < s.len() {
        lemma_char_pos(s, '\n', i);
    }
}

/// The lines of `s`.
pub open spec fn lines(s: Seq<char>) -> Seq<Seq<char>> {
    lines_from(s, 0)
}

/// Whether `p` occurs in `s` at position `i`.
pub open spec fn occurs_at(s: Seq<char>, p: Seq<char>, i: int) -> bool {
    0 <= i && i + p.len() <= s.len() && s.subrange(i, i + p.len()) == p
}

/// The first position at or after `i` at which `p` occurs.
pub open spec fn find_from(s: Seq<char>, p: Seq<char>, i: int) -> Option<int>
    decreases s.len() + 1 - i,
{
    if i < 0 || i + p.len() > s.len() {
        None
    } else if s.subrange(i, i + p.len()) == p {
        Some(i)
    } else {
        find_from(s, p, i + 1)
    }
}

/// The first position at which `p` occurs.
pub open spec fn find(s: Seq<char>, p: Seq<char>) -> Option<int> {
    find_from(s, p, 0)
}

/// The last position before `j` that holds `c`.
pub open spec fn last_pos(s: Seq<char>, c: char, j: int) -> Option<int>
    decreases j,
{
    if j <= 0 || j > s.len() {
        None
    } else if s[j - 1] == c {
        Some(j - 1)
    } else {
        last_pos(s, c, j - 1)
    }
}

/// Whether `s` begins with `p`.
pub open spec fn starts_with(s: Seq<char>, p: Seq<char>) -> bool {
    occurs_at(s, p, 0)
}

/// The digits at the front of `s`.
pub open spec fn leading_digits(s: Seq<char>) -> Seq<char>
    decreases s.len(),
{
    if s.len() > 0 && is_digit(s[0]) {
        seq![s[0]] + leading_digits(s.drop_first())
    } else {
        Seq::empty()
    }
}

/// Whether `s` consists of digits.
pub open spec fn all_digits(s: Seq<char>) -> bool {
    forall|i: int| 0 <= i < s.len() ==> is_digit(#[trigger] s[i])
}

/// The value of a sequence of digits.
pub open spec fn digits_value(s: Seq<char>) -> nat
    decreases s.len(),
{
    if s.len() == 0 {
        0
    } else {
        (10 * digits_value(s.drop_last()) + (s.last() as u32 - '0' as u32)) as nat
    }
}

/// The unsigned number that `s` denotes: an optional plus sign and at least one
/// digit, nothing else, and a value of at most `max`.
pub open spec fn parse_num(s: Seq<char>, max: nat) -> Option<nat> {
    let d = if s.len() > 0 && s[0] == '+' {
        s.drop_first()
    } else {
        s
    };
    if d.len() == 0 || !all_digits(d) || digits_value(d) > max {
        None
    } else {
        Some(digits_value(d))
    }
}

/// `s` as a `u64`.
pub open spec fn as_u64(s: Seq<char>) -> Option<u64> {
    match parse_num(s, u64::MAX as nat) {
        Some(n) => Some(n as u64),
        None => None,
    }
}

/// `s` as a `u32`.
pub open spec fn as_u32(s: Seq<char>) -> Option<u32> {
    match parse_num(s, u32::MAX as nat) {
        Some(n) => Some(n as u32),
        None => None,
    }
}

/// `s` as a `u16`.
pub open spec fn as_u16(s: Seq<char>) -> Option<u16> {
    match parse_num(s, u16::MAX as nat) {
        Some(n) => Some(n as u16),
        None => None,
    }
}

/// The digit for `n`.
pub open spec fn digit(n: nat) -> char {
    ('0' as u32 + n) as char
}

/// `n` in decimal.
pub open spec fn decimal(n: nat) -> Seq<char>
    decreases n,
{
    if n < 10 {
        seq![digit(n)]
    } else {
        decimal(n / 10).push(digit(n % 10))
    }
}

/// `s` with `c` put in front until it is `width` characters long.
pub open spec fn pad(s: Seq<char>, width: nat, c: char) -> Seq<char> {
    if s.len() >= width {
        s
    } else {
        Seq::new((width - s.len()) as nat, |i: int| c) + s
    }
}

/// ASCII lower case of one character.
pub open spec fn lower_char(c: char) -> char {
    if 'A' <= c && c <= 'Z' {
        (c as u32 + 32) as char
    } else {
        c
    }
}

/// ASCII lower case.
pub open spec fn lower(s: Seq<char>) -> Seq<char> {
    s.map_values(|c: char| lower_char(c))
}

/// The parts joined with single spaces.
pub open spec fn join_words(parts: Seq<Seq<char>>) -> Seq<char>
    decreases parts.len(),
{
    if parts.len() == 0 {
        Seq::empty()
    } else if parts.len() == 1 {
        parts[0]
    } else {
        join_words(parts.drop_last()) + seq![' '] + parts.last()
    }
}

/// The texts of a vector of character vectors.
pub open spec fn texts(v: Seq<Vec<char>>) -> Seq<Seq<char>> {
    v.map_values(|x: Vec<char>| x@)
}

/// The texts of a vector of strings.
pub open spec fn strings(v: Seq<String>) -> Seq<Seq<char>> {
    v.map_values(|x: String| x@)
}

/// The text of an optional string.
pub open spec fn opt_text(o: Option<String>) -> Option<Seq<char>> {
    match o {
        Some(s) => Some(s@),
        None => None,
    }
}

// ── Facts about the models ───────────────────────────────────────────────────

pub proof fn lemma_space_end(s: Seq<char>, i: int)
    requires
        0 <= i <= s.len(),
    ensures
        i <= space_end(s, i) <= s.len(),
        space_end(s, i) < s.len() ==> !is_space(s[space_end(s, i)]),
        forall|j: int| i <= j < space_end(s, i) ==> is_space(#[trigger] s[j]),
    decreases s.len() - i,
{
    if i < s.len() && is_space(s[i]) {
        lemma_space_end(s, i + 1);
    }
}

pub proof fn lemma_word_end(s: Seq<char>, i: int)
    requires
        0 <= i <= s.len(),
    ensures
        i <= word_end(s, i) <= s.len(),
        i < s.len() && !is_space(s[i]) ==> i < word_end(s, i),
        word_end(s, i) < s.len() ==> is_space(s[word_end(s, i)]),
        forall|j: int| i <= j < word_end(s, i) ==> !is_space(#[trigger] s[j]),
    decreases s.len() - i,
{
    if i < s.len() && !is_space(s[i]) {
        lemma_word_end(s, i + 1);
    }
}

pub proof fn lemma_char_pos(s: Seq<char>, c: char, i: int)
    requires
        0 <= i <= s.len(),
    ensures
        i <= char_pos(s, c, i) <= s.len(),
        char_pos(s, c, i) < s.len() ==> s[char_pos(s, c, i)] == c,
        forall|j: int| i <= j < char_pos(s, c, i) ==> #[trigger] s[j] != c,
    decreases s.len() - i,
{
    if i < s.len() && s[i] != c {
        lemma_char_pos(s, c, i + 1);
    }
}

pub proof fn lemma_find_from(s: Seq<char>, p: Seq<char>, i: int)
    requires
        0 <= i,
    ensures
        find_from(s, p, i) matches Some(k) ==> i <= k && occurs_at(s, p, k),
        find_from(s, p, i) matches Some(k) ==> forall|j: int| i <= j < k ==> !#[trigger] occurs_at(s, p, j),
        find_from(s, p, i) is None ==> forall|j: int| i <= j ==> !#[trigger] occurs_at(s, p, j),
    decreases s.len() + 1 - i,
{
    if i + p.len() <= s.len() && s.subrange(i, i + p.len()) != p {
        lemma_find_from(s, p, i + 1);
        assert(!occurs_at(s, p, i));
    }
}

/// What is found at the end of a text is found there whatever follows.
pub proof fn lemma_find_extended(s: Seq<char>, more: Seq<char>, p: Seq<char>)
    requires
        find(s, p) == Some(s.len() - p.len()),
    ensures
        find(s + more, p) == Some(s.len() - p.len()),
{
    let k = s.len() - p.len();
    lemma_find_from(s, p, 0);
    lemma_find_from(s + more, p, 0);
    assert((s + more).subrange(k, k + p.len()) =~= s.subrange(k, k + p.len()));
    assert(occurs_at(s + more, p, k));
    assert forall|j: int| 0 <= j < k implies !#[trigger] occurs_at(s + more, p, j) by {
        assert((s + more).subrange(j, j + p.len()) =~= s.subrange(j, j + p.len()));
        assert(!occurs_at(s, p, j));
    }
}

pub proof fn lemma_last_pos(s: Seq<char>, c: char, j: int)
    requires
        0 <= j <= s.len(),
    ensures
        last_pos(s, c, j) matches Some(k) ==> 0 <= k < j && s[k] == c,
        last_pos(s, c, j) matches Some(k) ==> forall|i: int| k < i < j ==> #[trigger] s[i] != c,
        last_pos(s, c, j) is None ==> forall|i: int| 0 <= i < j ==> #[trigger] s[i] != c,
    decreases j,
{
    if j > 0 && s[j - 1] != c {
        lemma_last_pos(s, c, j - 1);
    }
}

pub proof fn lemma_trim_stop(s: Seq<char>, j: int)
    requires
        0 <= j <= s.len(),
    ensures
        0 <= trim_stop(s, j) <= j,
        trim_stop(s, j) > 0 ==> !is_space(s[trim_stop(s, j) - 1]),
    decreases j,
{
    if j > 0 && is_space(s[j - 1]) {
        lemma_trim_stop(s, j - 1);
    }
}

/// Leading digits are a prefix made of digits, ended by a character that is no
/// digit or by the end.
pub proof fn lemma_leading_digits(s: Seq<char>)
    ensures
        leading_digits(s).len() <= s.len(),
        leading_digits(s) == s.take(leading_digits(s).len() as int),
        all_digits(leading_digits(s)),
        leading_digits(s).len() < s.len() ==> !is_digit(s[leading_digits(s).len() as int]),
    decreases s.len(),
{
    if s.len() > 0 && is_digit(s[0]) {
        let t = s.drop_first();
        lemma_leading_digits(t);
        let d = leading_digits(t);
        assert(leading_digits(s) == seq![s[0]] + d);
        assert(leading_digits(s) =~= s.take(d.len() as int + 1));
        assert forall|i: int| 0 <= i < leading_digits(s).len() implies is_digit(
            #[trigger] leading_digits(s)[i],
        ) by {
            if i > 0 {
                assert(leading_digits(s)[i] == d[i - 1]);
            }
        }
        if leading_digits(s).len() < s.len() {
            assert(s[d.len() as int + 1] == t[d.len() as int]);
        }
    }
}

/// A longer sequence of digits has at least the value of its front.
pub proof fn lemma_digits_grow(s: Seq<char>, n: int)
    requires
        0 <= n <= s.len(),
        all_digits(s),
    ensures
        digits_value(s.take(n)) <= digits_value(s),
    decreases s.len(),
{
    if n < s.len() {
        assert(all_digits(s.drop_last())) by {
            assert forall|i: int| 0 <= i < s.drop_last().len() implies is_digit(
                #[trigger] s.drop_last()[i],
            ) by {
                assert(s.drop_last()[i] == s[i]);
            }
        }
        lemma_digits_grow(s.drop_last(), n);
        assert(s.drop_last().take(n) =~= s.take(n));
        assert(is_digit(s[s.len() - 1]));
    } else {
        assert(s.take(n) =~= s);
    }
}

// ── Reading ──────────────────────────────────────────────────────────────────

/// The characters of `s`.
pub fn chars_of(s: &str) -> (r: Vec<char>)
    ensures
        r@ == s@,
{
    let mut r: Vec<char> = Vec::new();
    for c in it: s.chars()
        invariant
            it.seq() == s@,
            r@ == s@.take(it.index() as int),
    {
        r.push(c);
    }
    r
}

/// The text made of the characters `cs`.
pub fn text_of(cs: &[char]) -> (r: String)
    ensures
        r@ == cs@,
{
    let mut r = String::new();
    push_chars(&mut r, cs);
    r
}

/// Appends the characters `cs`.
pub fn push_chars(r: &mut String, cs: &[char])
    ensures
        final(r)@ == old(r)@ + cs@,
{
    let mut i: usize = 0;
    while i < cs.len()
        invariant
            i <= cs@.len(),
            r@ == old(r)@ + cs@.take(i as int),
        decreases cs@.len() - i,
    {
        r.push(cs[i]);
        i += 1;
        assert(r@ =~= old(r)@ + cs@.take(i as int));
    }
}

/// Whether two character sequences are the same.
pub fn same(a: &[char], b: &[char]) -> (r: bool)
    ensures
        r == (a@ == b@),
{
    if a.len() != b.len() {
        return false;
    }
    let mut i: usize = 0;
    while i < a.len()
        invariant
            i <= a@.len(),
            a@.len() == b@.len(),
            forall|j: int| 0 <= j < i ==> a@[j] == b@[j],
        decreases a@.len() - i,
    {
        if a[i] != b[i] {
            return false;
        }
        i += 1;
    }
    assert(a@ =~= b@);
    true
}

/// Whether two texts are the same.
pub fn same_text(a: &str, b: &str) -> (r: bool)
    ensures
        r == (a@ == b@),
{
    let x = chars_of(a);
    let y = chars_of(b);
    same(x.as_slice(), y.as_slice())
}

/// Whether `cs` spells `word`.
pub fn spells(cs: &[char], word: &str) -> (r: bool)
    ensures
        r == (cs@ == word@),
{
    let w = chars_of(word);
    same(cs, w.as_slice())
}

/// Unicode `White_Space`.
pub fn white(c: char) -> (r: bool)
    ensures
        r == is_space(c),
{
    let n: u32 = c as u32;
    (0x9 <= n && n <= 0xD) || n == 0x20 || n == 0x85 || n == 0xA0 || n == 0x1680 || (0x2000 <= n
        && n <= 0x200A) || n == 0x2028 || n == 0x2029 || n == 0x202F || n == 0x205F || n == 0x3000
}

fn skip_white(s: &[char], from: usize) -> (r: usize)
    requires
        from <= s@.len(),
    ensures
        r == space_end(s@, from as int),
        from <= r <= s@.len(),
{
    proof {
        lemma_space_end(s@, from as int);
    }
    let mut i: usize = from;
    while i < s.len() && white(s[i])
        invariant
            from <= i <= s@.len(),
            space_end(s@, i as int) == space_end(s@, from as int),
        decreases s@.len() - i,
    {
        i += 1;
    }
    i
}

fn skip_word(s: &[char], from: usize) -> (r: usize)
    requires
        from <= s@.len(),
    ensures
        r == word_end(s@, from as int),
        from <= r <= s@.len(),
{
    proof {
        lemma_word_end(s@, from as int);
    }
    let mut i: usize = from;
    while i < s.len() && !white(s[i])
        invariant
            from <= i <= s@.len(),
            word_end(s@, i as int) == word_end(s@, from as int),
        decreases s@.len() - i,
    {
        i += 1;
    }
    i
}

/// A copy of the characters from `from` up to `to`.
pub fn copy_range(s: &[char], from: usize, to: usize) -> (r: Vec<char>)
    requires
        from <= to <= s@.len(),
    ensures
        r@ == s@.subrange(from as int, to as int),
{
    let mut r: Vec<char> = Vec::new();
    let mut i: usize = from;
    while i < to
        invariant
            from <= i <= to <= s@.len(),
            r@ == s@.subrange(from as int, i as int),
        decreases to - i,
    {
        r.push(s[i]);
        i += 1;
        assert(r@ =~= s@.subrange(from as int, i as int));
    }
    r
}

/// The words of `s`.
pub fn split_words(s: &[char]) -> (r: Vec<Vec<char>>)
    ensures
        texts(r@) == words(s@),
{
    let mut r: Vec<Vec<char>> = Vec::new();
    let mut i: usize = skip_white(s, 0);
    proof {
        lemma_words_skip(s@, 0);
        assert(texts(r@) + words_from(s@, i as int) =~= words(s@));
    }
    while i < s.len()
        invariant
            i <= s@.len(),
            i == space_end(s@, i as int),
            texts(r@) + words_from(s@, i as int) == words(s@),
        decreases s@.len() - i,
    {
        let b: usize = skip_word(s, i);
        let ghost before = texts(r@);
        proof {
            lemma_space_end(s@, i as int);
            lemma_word_end(s@, i as int);
            lemma_words_skip(s@, b as int);
        }
        r.push(copy_range(s, i, b));
        assert(texts(r@) =~= before.push(s@.subrange(i as int, b as int)));
        let next: usize = skip_white(s, b);
        proof {
            lemma_space_end(s@, b as int);
            lemma_space_fixed(s@, b as int);
            assert(texts(r@) + words_from(s@, next as int) =~= before + words_from(s@, i as int));
        }
        i = next;
    }
    proof {
        assert(texts(r@) + words_from(s@, i as int) =~= texts(r@));
    }
    r
}

proof fn lemma_space_fixed(s: Seq<char>, i: int)
    requires
        0 <= i <= s.len(),
    ensures
        space_end(s, space_end(s, i)) == space_end(s, i),
{
    lemma_space_end(s, i);
}

/// Skipping white space does not change the words that follow.
pub proof fn lemma_words_skip(s: Seq<char>, i: int)
    requires
        0 <= i <= s.len(),
    ensures
        words_from(s, space_end(s, i)) == words_from(s, i),
        space_end(s, space_end(s, i)) == space_end(s, i),
{
    lemma_space_end(s, i);
    lemma_space_fixed(s, i);
}

/// The lines of `s`.
pub fn split_lines(s: &[char]) -> (r: Vec<Vec<char>>)
    ensures
        texts(r@) == lines(s@),
{
    let mut r: Vec<Vec<char>> = Vec::new();
    let mut i: usize = 0;
    assert(texts(r@) + lines_from(s@, 0) =~= lines(s@));
    while i < s.len()
        invariant
            i <= s@.len(),
            texts(r@) + lines_from(s@, i as int) == lines(s@),
        decreases s@.len() - i,
    {
        let ghost before = texts(r@);
        let mut j: usize = i;
        proof {
            lemma_char_pos(s@, '\n', i as int);
        }
        while j < s.len() && s[j] != '\n'
            invariant
                i <= j <= s@.len(),
                char_pos(s@, '\n', j as int) == char_pos(s@, '\n', i as int),
            decreases s@.len() - j,
        {
            j += 1;
        }
        let stop: usize = if j < s.len() && j > i && s[j - 1] == '\r' {
            j - 1
        } else {
            j
        };
        r.push(copy_range(s, i, stop));
        assert(texts(r@) =~= before.push(s@.subrange(i as int, stop as int)));
        let ghost tail = lines_from(s@, j + 1);
        assert(texts(r@) + tail =~= before + lines_from(s@, i as int));
        if j < s.len() {
            i = j + 1;
        } else {
            i = j;
            assert(tail =~= lines_from(s@, j as int));
        }
    }
    assert(texts(r@) + lines_from(s@, i as int) =~= texts(r@));
    r
}

/// `s` without leading white space.
pub fn trimmed_start<'a>(s: &'a [char]) -> (r: &'a [char])
    ensures
        r@ == trim_start(s@),
{
    let a: usize = skip_white(s, 0);
    let r = slice_subrange(s, a, s.len());
    assert(r@ =~= s@.skip(a as int));
    r
}

/// `s` without leading and trailing white space.
pub fn trimmed<'a>(s: &'a [char]) -> (r: &'a [char])
    ensures
        r@ == trim(s@),
{
    let t = trimmed_start(s);
    let mut j: usize = t.len();
    while j > 0 && white(t[j - 1])
        invariant
            j <= t@.len(),
            trim_stop(t@, j as int) == trim_stop(t@, t@.len() as int),
        decreases j,
    {
        j -= 1;
    }
    let r = slice_subrange(t, 0, j);
    assert(r@ =~= t@.take(j as int));
    r
}

fn matches_at(s: &[char], p: &[char], i: usize) -> (r: bool)
    requires
        i + p@.len() <= s@.len(),
    ensures
        r == (s@.subrange(i as int, i + p@.len()) == p@),
{
    let n: usize = s.len();
    let mut j: usize = 0;
    while j < p.len()
        invariant
            j <= p@.len(),
            n == s@.len(),
            i + p@.len() <= n,
            forall|k: int| 0 <= k < j ==> s@[i + k] == p@[k],
        decreases p@.len() - j,
    {
        if s[i + j] != p[j] {
            assert(s@.subrange(i as int, i + p@.len())[j as int] == s@[i + j]);
            return false;
        }
        j += 1;
    }
    assert(s@.subrange(i as int, i + p@.len()) =~= p@);
    true
}

/// The first position at which `p` occurs.
pub fn find_text(s: &[char], p: &[char]) -> (r: Option<usize>)
    ensures
        match r {
            Some(i) => find(s@, p@) == Some(i as int),
            None => find(s@, p@) is None,
        },
        r matches Some(i) ==> i + p@.len() <= s@.len(),
{
    if p.len() > s.len() {
        return None;
    }
    let last: usize = s.len() - p.len();
    let mut i: usize = 0;
    while i <= last
        invariant
            last == s@.len() - p@.len(),
            i <= last + 1,
            find_from(s@, p@, i as int) == find(s@, p@),
        decreases last + 1 - i,
    {
        if matches_at(s, p, i) {
            return Some(i);
        }
        if i == last {
            assert(find_from(s@, p@, i + 1) is None);
            return None;
        }
        i += 1;
    }
    None
}

/// Whether `s` begins with `p`.
pub fn begins(s: &[char], p: &[char]) -> (r: bool)
    ensures
        r == starts_with(s@, p@),
{
    if p.len() > s.len() {
        false
    } else {
        matches_at(s, p, 0)
    }
}

/// Whether `s` begins with the text `p`.
pub fn begins_text(s: &[char], p: &str) -> (r: bool)
    ensures
        r == starts_with(s@, p@),
{
    let w = chars_of(p);
    begins(s, w.as_slice())
}

/// The first position at or after `from` that holds `c`, or the end.
pub fn find_char(s: &[char], c: char, from: usize) -> (r: usize)
    requires
        from <= s@.len(),
    ensures
        r == char_pos(s@, c, from as int),
        from <= r <= s@.len(),
        r < s@.len() ==> s@[r as int] == c,
{
    let mut i: usize = from;
    proof {
        lemma_char_pos(s@, c, from as int);
    }
    while i < s.len() && s[i] != c
        invariant
            from <= i <= s@.len(),
            char_pos(s@, c, i as int) == char_pos(s@, c, from as int),
        decreases s@.len() - i,
    {
        i += 1;
    }
    i
}

/// The last position that holds `c`.
pub fn find_last(s: &[char], c: char) -> (r: Option<usize>)
    ensures
        match r {
            Some(i) => last_pos(s@, c, s@.len() as int) == Some(i as int) && i < s@.len(),
            None => last_pos(s@, c, s@.len() as int) is None,
        },
{
    let mut j: usize = s.len();
    while j > 0
        invariant
            j <= s@.len(),
            last_pos(s@, c, j as int) == last_pos(s@, c, s@.len() as int),
        decreases j,
    {
        if s[j - 1] == c {
            return Some(j - 1);
        }
        j -= 1;
    }
    None
}

/// How many digits stand at the front of `s`.
pub fn count_digits(s: &[char]) -> (r: usize)
    ensures
        r == leading_digits(s@).len(),
        r <= s@.len(),
        s@.take(r as int) == leading_digits(s@),
{
    let mut i: usize = 0;
    assert(s@.skip(0) =~= s@);
    while i < s.len() && '0' <= s[i] && s[i] <= '9'
        invariant
            i <= s@.len(),
            leading_digits(s@).len() == i + leading_digits(s@.skip(i as int)).len(),
        decreases s@.len() - i,
    {
        assert(s@.skip(i as int).drop_first() =~= s@.skip(i + 1));
        i += 1;
    }
    proof {
        lemma_leading_digits(s@);
        if i < s@.len() {
            assert(s@.skip(i as int)[0] == s@[i as int]);
        }
        assert(leading_digits(s@.skip(i as int)).len() == 0);
    }
    i
}

/// The number that `s` denotes, if it is at most `max`.
pub fn read_num(s: &[char], max: u64) -> (r: Option<u64>)
    ensures
        match r {
            Some(n) => parse_num(s@, max as nat) == Some(n as nat) && n <= max,
            None => parse_num(s@, max as nat) is None,
        },
{
    let from: usize = if s.len() > 0 && s[0] == '+' {
        1
    } else {
        0
    };
    let ghost d = s@.skip(from as int);
    proof {
        if from == 1 {
            assert(d =~= s@.drop_first());
        } else {
            assert(d =~= s@);
        }
    }
    if from == s.len() {
        return None;
    }
    let mut n: u64 = 0;
    let mut i: usize = from;
    assert(d.take(0) =~= Seq::<char>::empty());
    while i < s.len()
        invariant
            from <= i <= s@.len(),
            d == s@.skip(from as int),
            d.len() > 0,
            parse_num(s@, max as nat) == (if !all_digits(d) || digits_value(d) > max {
                None::<nat>
            } else {
                Some(digits_value(d))
            }),
            n <= max,
            n == digits_value(d.take(i - from)),
            forall|j: int| 0 <= j < i - from ==> is_digit(#[trigger] d[j]),
        decreases s@.len() - i,
    {
        let c = s[i];
        assert(d[i - from] == c);
        if !('0' <= c && c <= '9') {
            return None;
        }
        let v: u64 = (c as u32 - '0' as u32) as u64;
        proof {
            assert(d.take(i + 1 - from).drop_last() =~= d.take(i - from));
            assert(d.take(i + 1 - from).last() == c);
            if all_digits(d) {
                lemma_digits_grow(d, i + 1 - from);
            }
        }
        if (n as u128) * 10 + v as u128 > max as u128 {
            return None;
        }
        n = n * 10 + v;
        i += 1;
    }
    proof {
        assert(d.take(d.len() as int) =~= d);
    }
    Some(n)
}

/// `s` as a `u64`.
pub fn read_u64(s: &[char]) -> (r: Option<u64>)
    ensures
        r == as_u64(s@),
{
    read_num(s, u64::MAX)
}

/// `s` as a `u32`.
pub fn read_u32(s: &[char]) -> (r: Option<u32>)
    ensures
        r == as_u32(s@),
{
    match read_num(s, u32::MAX as u64) {
        Some(n) => Some(n as u32),
        None => None,
    }
}

/// `s` as a `u16`.
pub fn read_u16(s: &[char]) -> (r: Option<u16>)
    ensures
        r == as_u16(s@),
{
    match read_num(s, u16::MAX as u64) {
        Some(n) => Some(n as u16),
        None => None,
    }
}

// ── Writing ──────────────────────────────────────────────────────────────────

/// Appends `n` in decimal.
pub fn push_decimal(r: &mut String, n: u64)
    ensures
        final(r)@ == old(r)@ + decimal(n as nat),
    decreases n,
{
    if n >= 10 {
        push_decimal(r, n / 10);
    }
    let d: u8 = 48u8 + (n % 10) as u8;
    r.push(d as char);
    assert(r@ =~= old(r)@ + decimal(n as nat));
}

/// `n` in decimal.
pub fn decimal_text(n: u64) -> (r: String)
    ensures
        r@ == decimal(n as nat),
{
    let mut r = String::new();
    push_decimal(&mut r, n);
    assert(r@ =~= decimal(n as nat));
    r
}

/// Appends `c` so often that a text of `len` characters would reach `width`.
pub fn push_padding(r: &mut String, len: usize, width: usize, c: char)
    ensures
        final(r)@ == old(r)@ + Seq::new(
            (if width > len {
                width - len
            } else {
                0
            }) as nat,
            |i: int| c,
        ),
{
    let mut i: usize = len;
    assert(r@ =~= old(r)@ + Seq::new(0, |i: int| c));
    while i < width
        invariant
            len <= i,
            i <= width || i == len,
            r@ == old(r)@ + Seq::new((i - len) as nat, |i: int| c),
        decreases width - i,
    {
        r.push(c);
        i += 1;
        assert(r@ =~= old(r)@ + Seq::new((i - len) as nat, |i: int| c));
    }
}

/// Appends `s`, with `c` in front up to `width` characters.
pub fn push_padded(r: &mut String, s: &str, width: usize, c: char)
    ensures
        final(r)@ == old(r)@ + pad(s@, width as nat, c),
{
    let n: usize = s.unicode_len();
    push_padding(r, n, width, c);
    r.append(s);
    assert(r@ =~= old(r)@ + pad(s@, width as nat, c));
}

/// Appends `n` in decimal, with zeros in front up to two digits.
pub fn push_two(r: &mut String, n: u64)
    ensures
        final(r)@ == old(r)@ + pad(decimal(n as nat), 2, '0'),
{
    proof {
        lemma_decimal_len(n as nat);
    }
    if n < 10 {
        r.push('0');
        assert(pad(decimal(n as nat), 2, '0') =~= seq!['0'] + decimal(n as nat));
    }
    let ghost mid = r@;
    push_decimal(r, n);
    assert(r@ =~= old(r)@ + pad(decimal(n as nat), 2, '0'));
}

/// A decimal has one digit exactly for the numbers below ten.
pub proof fn lemma_decimal_len(n: nat)
    ensures
        decimal(n).len() >= 1,
        decimal(n).len() == 1 <==> n < 10,
    decreases n,
{
    if n >= 10 {
        lemma_decimal_len(n / 10);
    }
}

/// ASCII lower case.
pub fn lowered(s: &[char]) -> (r: Vec<char>)
    ensures
        r@ == lower(s@),
{
    let mut r: Vec<char> = Vec::new();
    let mut i: usize = 0;
    while i < s.len()
        invariant
            i <= s@.len(),
            r@ == lower(s@.take(i as int)),
        decreases s@.len() - i,
    {
        let c = s[i];
        let l: char = if 'A' <= c && c <= 'Z' {
            ((c as u8) + 32) as char
        } else {
            c
        };
        r.push(l);
        i += 1;
        assert(r@ =~= lower(s@.take(i as int)));
    }
    assert(s@.take(i as int) =~= s@);
    r
}

/// The parts from `from` on, joined with single spaces.
pub fn joined(parts: &Vec<Vec<char>>, from: usize) -> (r: Vec<char>)
    requires
        from <= parts@.len(),
    ensures
        r@ == join_words(texts(parts@).skip(from as int)),
{
    let mut r: Vec<char> = Vec::new();
    let mut i: usize = from;
    let ghost all = texts(parts@).skip(from as int);
    assert(all.take(0) =~= Seq::<Seq<char>>::empty());
    while i < parts.len()
        invariant
            from <= i <= parts@.len(),
            all == texts(parts@).skip(from as int),
            r@ == join_words(all.take(i - from)),
        decreases parts@.len() - i,
    {
        let ghost before = r@;
        if i > from {
            r.push(' ');
        }
        let mut j: usize = 0;
        let ghost base = r@;
        while j < parts[i].len()
            invariant
                i < parts@.len(),
                j <= parts@[i as int]@.len(),
                r@ == base + parts@[i as int]@.take(j as int),
            decreases parts@[i as int]@.len() - j,
        {
            r.push(parts[i][j]);
            j += 1;
            assert(r@ =~= base + parts@[i as int]@.take(j as int));
        }
        proof {
            assert(parts@[i as int]@.take(j as int) =~= parts@[i as int]@);
            let t = all.take(i + 1 - from);
            assert(t.drop_last() =~= all.take(i - from));
            assert(t.last() == parts@[i as int]@);
            assert(r@ =~= join_words(t));
        }
        i += 1;
    }
    assert(all.take(all.len() as int) =~= all);
    r
}

// ── Laws ─────────────────────────────────────────────────────────────────────

/// A number reads as what was written.
pub proof fn law_decimal_reads_back(n: nat, max: nat)
    requires
        n <= max,
    ensures
        parse_num(decimal(n), max) == Some(n),
{
    lemma_decimal_digits(n);
}

/// Decimals are digits that have the value of the number.
pub proof fn lemma_decimal_digits(n: nat)
    ensures
        decimal(n).len() > 0,
        all_digits(decimal(n)),
        digits_value(decimal(n)) == n,
        decimal(n)[0] != '+',
    decreases n,
{
    let c = digit(n % 10);
    assert(c as u32 == '0' as u32 + n % 10);
    if n < 10 {
        assert(decimal(n).drop_last() =~= Seq::<char>::empty());
        assert(decimal(n).last() == c);
        assert(digits_value(decimal(n).drop_last()) == 0);
    } else {
        lemma_decimal_digits(n / 10);
        let d = decimal(n);
        assert(d.last() == c);
        assert(d.drop_last() =~= decimal(n / 10));
        assert forall|i: int| 0 <= i < d.len() implies is_digit(#[trigger] d[i]) by {
            if i < d.len() - 1 {
                assert(d[i] == decimal(n / 10)[i]);
            }
        }
    }
}

} // verus!
