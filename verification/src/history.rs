//! Bounded histories of samples and the scales they are drawn to.

use std::collections::VecDeque;

use vstd::arithmetic::div_mod::*;
use vstd::arithmetic::mul::*;
use vstd::arithmetic::power2::*;
use vstd::prelude::*;

use crate::double;
use crate::double::{Double, FRAC, SIG};
use crate::procfs;
use crate::procfs::plus_wrapping;
use crate::rounding;

verus! {

/// How many samples are kept: one day of two per second.
pub const MAX_HISTORY: usize = 172800;

/// The bits of the binary64 number nearest to 1.1.
pub const HEADROOM_BITS: u64 = 0x3FF1_9999_9999_999A;

/// A history that may be one sample too long, without that sample.
pub open spec fn capped<T>(s: Seq<T>) -> Seq<T> {
    if s.len() > MAX_HISTORY {
        s.drop_first()
    } else {
        s
    }
}

/// A history with one more sample. The oldest one makes room.
pub open spec fn remembered<T>(s: Seq<T>, x: T) -> Seq<T> {
    capped(s.push(x))
}

/// The numbers of a history.
pub open spec fn nums(s: Seq<Double>) -> Seq<nat> {
    s.map_values(|d: Double| d@)
}

/// Adds a sample.
pub fn remember<T>(h: &mut VecDeque<T>, x: T)
    ensures
        final(h)@ == remembered(old(h)@, x),
{
    h.push_back(x);
    cap(h);
}

/// Drops the oldest sample where there is one too many.
pub fn cap<T>(h: &mut VecDeque<T>)
    ensures
        final(h)@ == capped(old(h)@),
{
    if h.len() > MAX_HISTORY {
        let oldest = h.pop_front();
        assert(h@ =~= old(h)@.drop_first());
    }
}

/// Adding a sample to a history adds its number to the numbers.
pub proof fn lemma_nums(s: Seq<Double>, x: Double)
    ensures
        nums(remembered(s, x)) == remembered(nums(s), x@),
        nums(capped(s)) == capped(nums(s)),
{
    assert(nums(s.push(x)) =~= nums(s).push(x@));
    assert(nums(s.push(x).drop_first()) =~= nums(s).push(x@).drop_first());
    if s.len() > 0 {
        assert(nums(s.drop_first()) =~= nums(s).drop_first());
    }
}

/// A history never holds more than a day, keeps every sample while there is
/// room, and always ends with the newest one.
pub proof fn law_history_bounded<T>(s: Seq<T>, x: T)
    requires
        s.len() <= MAX_HISTORY,
    ensures
        0 < remembered(s, x).len() <= MAX_HISTORY,
        remembered(s, x).last() == x,
        s.len() < MAX_HISTORY ==> remembered(s, x) == s.push(x),
        s.len() == MAX_HISTORY ==> remembered(s, x) == s.drop_first().push(x),
{
    assert(s.push(x).drop_first() =~= s.drop_first().push(x) || s.len() == 0);
}

/// The largest value, at least one, among the newest `n`.
pub open spec fn largest(s: Seq<u64>, n: int) -> u64
    decreases n,
{
    if n <= 0 {
        1
    } else {
        let m = largest(s, n - 1);
        let v = s[s.len() - n];
        if v > m {
            v
        } else {
            m
        }
    }
}

/// How many of the newest samples count.
pub open spec fn window(len: nat) -> int {
    if len > MAX_HISTORY {
        MAX_HISTORY as int
    } else {
        len as int
    }
}

/// The top of the scale for a history: the largest value, at least one, and a
/// tenth more, cut to a whole number, and one. The sum wraps around.
pub open spec fn scale(s: Seq<u64>) -> u64 {
    procfs::wrap_add(
        double::num_floor(
            double::num_mul(
                double::num_of(largest(s, window(s.len())) as nat),
                double::scaled(HEADROOM_BITS),
            ),
        ) as u64,
        1,
    )
}

/// The top of the scale for a history.
pub fn sparkline_max(history: &VecDeque<u64>) -> (r: u64)
    ensures
        r == scale(history@),
{
    let n: usize = history.len();
    let w: usize = if n > MAX_HISTORY {
        MAX_HISTORY
    } else {
        n
    };
    let mut m: u64 = 1;
    let mut i: usize = 0;
    while i < w
        invariant
            i <= w <= n == history@.len(),
            m == largest(history@, i as int),
            m >= 1,
        decreases w - i,
    {
        i += 1;
        let v: u64 = history[n - i];
        if v > m {
            m = v;
        }
    }
    proof {
        double::lemma_num_of_range(m);
    }
    let top = Double::from_u64(m).times(headroom());
    plus_wrapping(top.floor(), 1)
}

proof fn lemma_headroom()
    ensures
        double::scaled(HEADROOM_BITS) == 0x11_9999_9999_999A * pow2(1022),
        double::one() == 0x10_0000_0000_0000 * pow2(1022),
        pow2(1022) > 0,
        double::one() < double::scaled(HEADROOM_BITS) < double::infinity(),
{
    lemma2_to64();
    lemma2_to64_rest();
    lemma_pow2_pos(1022);
    lemma_pow2_adds(52, 1022);
    lemma_pow2_unfold(1075);
    lemma_pow2_strictly_increases(1075, 2098);
    assert(HEADROOM_BITS / FRAC == 1023);
}

/// 1.1.
fn headroom() -> (r: Double)
    ensures
        r@ == double::scaled(HEADROOM_BITS),
        r@ > 0,
{
    proof {
        lemma_headroom();
    }
    match Double::from_bits(HEADROOM_BITS) {
        Some(d) => d,
        None => Double::zero(),
    }
}

/// The largest number, at least one, of a history.
pub open spec fn largest_num(s: Seq<nat>, n: int) -> nat
    decreases n,
{
    if n <= 0 {
        double::num_of(1)
    } else {
        double::num_max(largest_num(s, n - 1), s[n - 1])
    }
}

/// The top of the scale for a history of numbers: the largest one, at least one,
/// and a tenth more, and one.
pub open spec fn scale_num(s: Seq<nat>) -> nat {
    double::num_add(
        double::num_mul(largest_num(s, s.len() as int), double::scaled(HEADROOM_BITS)),
        double::num_of(1),
    )
}

/// The top of the scale for a history of numbers.
pub fn sparkline_max_f(history: &VecDeque<Double>) -> (r: Double)
    ensures
        r@ == scale_num(nums(history@)),
        r@ > 0,
{
    proof {
        double::lemma_num_of_range(1);
    }
    let mut m = Double::from_u64(1);
    let n: usize = history.len();
    let mut i: usize = 0;
    while i < n
        invariant
            i <= n == history@.len(),
            m@ == largest_num(nums(history@), i as int),
            m@ > 0,
        decreases n - i,
    {
        assert(nums(history@)[i as int] == history@[i as int]@);
        m = m.max(history[i]);
        i += 1;
    }
    assert(nums(history@).len() == n);
    let top = m.times(headroom());
    proof {
        lemma_pow2_pos(1074);
        rounding::lemma_whole_exact(1, 1);
        double::lemma_nearest_range(top@ + double::num_of(1), 1);
    }
    top.plus(Double::from_u64(1))
}

// ── Laws ─────────────────────────────────────────────────────────────────────

/// A tenth more is at least one more in the last place.
proof fn lemma_tenth_more(m: nat, k: nat)
    requires
        FRAC <= m < SIG,
    ensures
        double::num_mul(m * pow2(k), double::scaled(HEADROOM_BITS)) >= double::infinity() || double::num_mul(
            m * pow2(k),
            double::scaled(HEADROOM_BITS),
        ) >= (m + 1) * pow2(k),
{
    let a = m * pow2(k);
    let b = double::scaled(HEADROOM_BITS);
    let o = double::one();
    let p = pow2(1022);
    let next = (m + 1) * pow2(k);
    lemma_headroom();
    lemma_pow2_pos(k);
    if a < double::infinity() {
        assert(a * b >= next * o) by {
            let h: nat = 0x11_9999_9999_999A;
            let f: nat = 0x10_0000_0000_0000;
            assert(m * h >= (m + 1) * f);
            assert(a * b == (m * h) * (pow2(k) * p)) by (nonlinear_arith)
                requires
                    a == m * pow2(k),
                    b == h * p,
            ;
            assert(next * o == ((m + 1) * f) * (pow2(k) * p)) by (nonlinear_arith)
                requires
                    next == (m + 1) * pow2(k),
                    o == f * p,
            ;
            assert((m * h) * (pow2(k) * p) >= ((m + 1) * f) * (pow2(k) * p)) by (nonlinear_arith)
                requires
                    m * h >= (m + 1) * f,
                    pow2(k) > 0,
                    p > 0,
            ;
        }
        rounding::lemma_nearest_monotone(next * o, a * b, o);
        if next < double::infinity() {
            if m + 1 < SIG {
                rounding::lemma_nearest_exact(m + 1, k, o);
            } else {
                lemma_pow2_unfold((k + 1) as nat);
                assert(next == (FRAC as nat) * pow2((k + 1) as nat)) by (nonlinear_arith)
                    requires
                        next == (m + 1) * pow2(k),
                        m + 1 == 2 * FRAC,
                        pow2((k + 1) as nat) == 2 * pow2(k),
                ;
                rounding::lemma_nearest_exact(FRAC as nat, (k + 1) as nat, o);
            }
        } else {
            lemma_mul_inequality(double::infinity() as int, next as int, o as int);
            lemma_nearest_large(next * o, o);
        }
    }
}

/// Everything from infinity on is rounded to infinity.
proof fn lemma_nearest_large(num: nat, den: nat)
    requires
        den > 0,
        num >= double::infinity() * den,
    ensures
        double::nearest(num, den) == double::infinity(),
{
    lemma_pow2_adds(52, 2046);
    lemma2_to64();
    lemma_pow2_pos(2046);
    lemma_nearest_at_infinity(den);
    rounding::lemma_nearest_monotone(double::infinity() * den, num, den);
    double::lemma_nearest_range(num, den);
}

proof fn lemma_nearest_at_infinity(den: nat)
    requires
        den > 0,
    ensures
        double::nearest(double::infinity() * den, den) == double::infinity(),
{
    let n = double::infinity();
    let k = double::excess(n);
    lemma_div_by_multiple(n as int, den as int);
    double::lemma_excess_range(n);
    lemma2_to64();
    lemma2_to64_rest();
    lemma_pow2_pos(2098);
    if k == 0 {
        lemma_pow2_strictly_increases(53, 2098);
    }
    if 52 + k > 2098 {
        lemma_pow2_strictly_increases(2098, 52 + k);
    }
    if 53 + k <= 2098 {
        if 53 + k < 2098 {
            lemma_pow2_strictly_increases(53 + k, 2098);
        }
    }
    assert(k == 2046);
    let step = den * pow2(k);
    lemma_pow2_pos(k);
    lemma_pow2_adds(52, 2046);
    assert(step > 0) by (nonlinear_arith)
        requires
            den > 0,
            pow2(k) > 0,
            step == den * pow2(k),
    ;
    assert(n * den == pow2(52) * step) by (nonlinear_arith)
        requires
            n == pow2(52) * pow2(k),
            step == den * pow2(k),
    ;
    lemma_fundamental_div_mod_converse((n * den) as int, step as int, pow2(52) as int, 0);
}

/// The binary64 number for a positive whole number is less than one place below it.
proof fn lemma_num_of_close(n: u64) -> (r: (nat, nat))
    requires
        n > 0,
    ensures
        FRAC <= r.0 < SIG,
        double::num_of(n as nat) == r.0 * pow2(r.1),
        (n as nat) * double::one() <= (r.0 + 1) * pow2(r.1),
{
    let num = (n as nat) * double::one();
    let k = double::excess(num);
    let q = num / pow2(k);
    double::lemma_num_of_range(n);
    lemma_pow2_pos(1074);
    lemma_pow2_pos(k);
    lemma2_to64();
    lemma2_to64_rest();
    lemma_div_basics(num as int);
    lemma_mul_basics(pow2(k) as int);
    assert(num >= double::one()) by (nonlinear_arith)
        requires
            num == (n as nat) * double::one(),
            n >= 1,
    ;
    double::lemma_excess_range(num);
    if k == 0 {
        lemma_pow2_strictly_increases(53, 1074);
    }
    lemma_fundamental_div_mod(num as int, pow2(k) as int);
    lemma_mod_bound(num as int, pow2(k) as int);
    lemma_pow2_adds(53, k);
    lemma_pow2_adds(52, k);
    if q >= SIG {
        assert(pow2(k) * q >= pow2(53) * pow2(k)) by (nonlinear_arith)
            requires
                q >= pow2(53),
        ;
    }
    if q < FRAC {
        assert(pow2(k) * q + pow2(k) <= pow2(52) * pow2(k)) by (nonlinear_arith)
            requires
                q + 1 <= pow2(52),
        ;
    }
    assert((q + 1) * pow2(k) == pow2(k) * q + pow2(k)) by (nonlinear_arith);
    let step = 1 * pow2(k);
    assert(step == pow2(k));
    let r = num % step;
    if 2 * r > step || (2 * r == step && q % 2 == 1) {
        if q + 1 < SIG {
            assert((q + 2) * pow2(k) >= (q + 1) * pow2(k)) by (nonlinear_arith);
            (q + 1, k)
        } else {
            lemma_pow2_unfold((k + 1) as nat);
            assert((q + 1) * pow2(k) == (FRAC as nat) * pow2((k + 1) as nat)) by (nonlinear_arith)
                requires
                    q + 1 == 2 * FRAC,
                    pow2((k + 1) as nat) == 2 * pow2(k),
            ;
            assert((FRAC + 1) * pow2((k + 1) as nat) >= FRAC * pow2((k + 1) as nat))
                by (nonlinear_arith);
            (FRAC as nat, (k + 1) as nat)
        }
    } else {
        assert((q + 0) * pow2(k) == q * pow2(k));
        (q, k)
    }
}

proof fn lemma_largest(s: Seq<u64>, n: int)
    requires
        0 <= n <= s.len(),
    ensures
        largest(s, n) >= 1,
        forall|i: int| s.len() - n <= i < s.len() ==> #[trigger] s[i] <= largest(s, n),
    decreases n,
{
    if n > 0 {
        lemma_largest(s, n - 1);
    }
}

/// The top of the scale lies above every sample in the window. Below `2^63`
/// bytes per second it never wraps around to zero.
pub proof fn law_scale_above(s: Seq<u64>)
    ensures
        scale(s) != 0 ==> forall|i: int|
            s.len() - window(s.len()) <= i < s.len() ==> #[trigger] s[i] < scale(s),
        largest(s, window(s.len())) < 0x8000_0000_0000_0000 ==> scale(s) != 0,
{
    let w = window(s.len());
    let m = largest(s, w);
    lemma_largest(s, w);
    let a = double::num_of(m as nat);
    let b = double::scaled(HEADROOM_BITS);
    let o = double::one();
    let top = double::num_mul(a, b);
    let (sig, k) = lemma_num_of_close(m);
    lemma_tenth_more(sig, k);
    double::lemma_num_of_range(m);
    lemma_headroom();
    lemma_pow2_pos(1074);
    lemma2_to64();
    lemma2_to64_rest();
    lemma_pow2_adds(64, 1074);
    lemma_pow2_strictly_increases(1138, 2098);
    assert((m as nat) * o < double::infinity()) by (nonlinear_arith)
        requires
            m < pow2(64),
            pow2(64) * o < double::infinity(),
            o > 0,
    ;
    assert(top >= (m as nat) * o);
    lemma_div_is_ordered(((m as nat) * o) as int, top as int, o as int);
    lemma_div_by_multiple(m as int, o as int);
    assert(double::num_floor(top) >= m);
    if m < 0x8000_0000_0000_0000 {
        lemma_pow2_adds(63, 1074);
        lemma_mul_basics(pow2(1137) as int);
        lemma_pow2_strictly_increases(1137, 2098);
        assert((m as nat) * o <= pow2(63) * o) by (nonlinear_arith)
            requires
                m <= pow2(63),
        ;
        rounding::lemma_nearest_monotone((m as nat) * o, pow2(1137), 1);
        rounding::lemma_nearest_exact(1, 1137, 1);
        assert(a <= pow2(1137));
        assert(b <= 2 * o);
        let cap = 3 * pow2(1136);
        lemma_pow2_unfold(1137);
        lemma_pow2_adds(62, 1074);
        assert(2 * b <= 3 * o);
        assert(a * b <= cap * o) by (nonlinear_arith)
            requires
                a <= 2 * pow2(1136),
                2 * b <= 3 * o,
                cap == 3 * pow2(1136),
        ;
        lemma_pow2_strictly_increases(1138, 2098);
        lemma_pow2_unfold(1138);
        rounding::lemma_nearest_monotone(a * b, cap * o, o);
        rounding::lemma_nearest_exact(3, 1136, o);
        assert(top <= cap);
        assert(cap == (3 * pow2(62)) * o) by (nonlinear_arith)
            requires
                cap == 3 * pow2(1136),
                pow2(1136) == pow2(62) * o,
        ;
        lemma_div_is_ordered(top as int, cap as int, o as int);
        lemma_div_by_multiple((3 * pow2(62)) as int, o as int);
    }
}

} // verus!
