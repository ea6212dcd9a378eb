//! Non-negative binary64 numbers, held as their IEEE 754 bit patterns.
//!
//! Rates and percentages are binary64 quantities that are never negative and
//! never NaN. For such numbers the order of the bit patterns is the order of
//! the numbers, and every finite one is a whole multiple of `2^-1074`. The
//! view of a [`Double`] is that multiple, so the arithmetic below is stated over
//! the naturals: each operation returns the representable number nearest to the
//! exact result, ties going to the even significand.

use vstd::arithmetic::div_mod::*;
use vstd::arithmetic::mul::*;
use vstd::arithmetic::power2::*;
use vstd::prelude::*;

verus! {

/// `2^52`: the distance between two bit patterns whose exponents differ by one.
pub const FRAC: u64 = 0x10_0000_0000_0000;

/// `2^53`: significands are smaller than this.
pub const SIG: u128 = 0x20_0000_0000_0000;

/// The bit pattern of positive infinity.
pub const INF_BITS: u64 = 0x7FF0_0000_0000_0000;

/// How many binary digits `n` has beyond the 53 that a significand holds.
pub open spec fn excess(n: nat) -> nat
    decreases n,
{
    if n < SIG {
        0
    } else {
        1 + excess(n / 2)
    }
}

/// `1.0` in units of `2^-1074`.
pub open spec fn one() -> nat {
    pow2(1074)
}

/// Positive infinity: the first power of two that no finite number reaches.
pub open spec fn infinity() -> nat {
    pow2(2098)
}

/// The representable number nearest to `num / den`, ties to even.
pub open spec fn nearest(num: nat, den: nat) -> nat {
    let k = excess(num / den);
    let step = den * pow2(k);
    let q = num / step;
    let r = num % step;
    let up: nat = if 2 * r > step || (2 * r == step && q % 2 == 1) {
        1
    } else {
        0
    };
    let v = (q + up) * pow2(k);
    if v >= infinity() {
        infinity()
    } else {
        v
    }
}

/// The number with bit pattern `bits`, in units of `2^-1074`.
pub open spec fn scaled(bits: u64) -> nat {
    let e = bits / FRAC;
    if e == 0 {
        bits as nat
    } else {
        ((bits - (e - 1) * FRAC) as nat) * pow2((e - 1) as nat)
    }
}

/// The number nearest to the natural number `n`.
pub open spec fn num_of(n: nat) -> nat {
    nearest(n * one(), 1)
}

/// Sum.
pub open spec fn num_add(a: nat, b: nat) -> nat {
    nearest(a + b, 1)
}

/// Absolute difference.
pub open spec fn num_diff(a: nat, b: nat) -> nat {
    if a >= b {
        nearest((a - b) as nat, 1)
    } else {
        nearest((b - a) as nat, 1)
    }
}

/// Product.
pub open spec fn num_mul(a: nat, b: nat) -> nat {
    if a >= infinity() || b >= infinity() {
        infinity()
    } else {
        nearest(a * b, one())
    }
}

/// Quotient.
pub open spec fn num_div(a: nat, b: nat) -> nat {
    if a >= infinity() {
        infinity()
    } else if b >= infinity() {
        0
    } else {
        nearest(a * one(), b)
    }
}

/// The larger of two numbers.
pub open spec fn num_max(a: nat, b: nat) -> nat {
    if a >= b {
        a
    } else {
        b
    }
}

/// The smaller of two numbers.
pub open spec fn num_min(a: nat, b: nat) -> nat {
    if a <= b {
        a
    } else {
        b
    }
}

/// The whole part, the largest `u64` standing for everything beyond it.
pub open spec fn num_floor(a: nat) -> nat {
    let n = a / one();
    if n > u64::MAX {
        u64::MAX as nat
    } else {
        n
    }
}

/// The smallest whole number that is not smaller, within `u64`.
pub open spec fn num_ceil(a: nat) -> nat {
    let n = ((a + one() - 1) / one() as int) as nat;
    if n > u64::MAX {
        u64::MAX as nat
    } else {
        n
    }
}

/// The nearest whole number, halves going up, within `u64`.
pub open spec fn num_round(a: nat) -> nat {
    let n = (2 * a + one()) / (2 * one());
    if n > u64::MAX {
        u64::MAX as nat
    } else {
        n
    }
}

/// A non-negative binary64 number, infinity included.
#[derive(Clone, Copy, Debug, PartialEq, Eq, Structural)]
pub struct Double {
    bits: u64,
}

impl View for Double {
    type V = nat;

    closed spec fn view(&self) -> nat {
        scaled(self.bits)
    }
}

proof fn lemma_excess(n: nat, k: nat)
    requires
        k == 0 ==> n < SIG,
        k > 0 ==> pow2(52 + k) <= n < pow2(53 + k),
    ensures
        excess(n) == k,
    decreases k,
{
    lemma2_to64_rest();
    if k > 0 {
        lemma_pow2_unfold(52 + k);
        lemma_pow2_unfold(53 + k);
        if k == 1 {
            assert(n / 2 < SIG);
        } else {
            lemma_pow2_strictly_increases(53, 52 + k);
        }
        assert(pow2((53 + k - 1) as nat) == pow2((53 + (k - 1)) as nat));
        lemma_excess(n / 2, (k - 1) as nat);
        if k == 1 {
            assert(n >= SIG);
        }
    }
}

/// Splitting off the low part of a scaled quotient.
proof fn lemma_split(num: int, n: int, q: int, pd: int, s: int, hi: int, lo: int, t: int, d: int)
    requires
        num >= 0,
        n > 0,
        pd > 0,
        t > 0,
        d > 0,
        num * n == q * pd + s,
        0 <= s < pd,
        q == hi * t + lo,
        0 <= lo < t,
        hi >= 0,
        d * n == pd * t,
    ensures
        num / d == hi,
        (num % d) * n == lo * pd + s,
{
    let r = num - hi * d;
    assert(q * pd == hi * (pd * t) + lo * pd) by (nonlinear_arith)
        requires
            q == hi * t + lo,
    ;
    assert(r * n == num * n - hi * (d * n)) by (nonlinear_arith)
        requires
            r == num - hi * d,
    ;
    assert(r * n == lo * pd + s);
    assert(0 <= lo * pd <= (t - 1) * pd) by (nonlinear_arith)
        requires
            0 <= lo <= t - 1,
            pd > 0,
    ;
    assert((t - 1) * pd == t * pd - pd) by (nonlinear_arith);
    assert(t * pd == pd * t) by (nonlinear_arith);
    assert(0 <= r * n < d * n);
    assert(0 <= r) by (nonlinear_arith)
        requires
            0 <= r * n,
            n > 0,
    ;
    assert(r < d) by (nonlinear_arith)
        requires
            r * n < d * n,
            n > 0,
    ;
    lemma_fundamental_div_mod_converse(num, d, hi, r);
}

/// How the dropped part of a scaled quotient compares with half a step.
proof fn lemma_half(n: int, pd: int, s: int, lo: int, t: int, d: int, r: int)
    requires
        n > 0,
        pd > 0,
        d * n == pd * t,
        r * n == lo * pd + s,
        0 <= s < pd,
        0 <= lo < t,
        t == 1 || t % 2 == 0,
        t == 1 ==> s == 0,
    ensures
        2 * r > d <==> (2 * lo > t || (2 * lo == t && s > 0)),
        2 * r == d <==> (2 * lo == t && s == 0),
{
    assert(2 * r * n == 2 * lo * pd + 2 * s) by (nonlinear_arith)
        requires
            r * n == lo * pd + s,
    ;
    assert(pd * t == t * pd) by (nonlinear_arith);
    if 2 * lo > t {
        assert(2 * lo * pd > t * pd) by (nonlinear_arith)
            requires
                2 * lo > t,
                pd > 0,
        ;
        assert(2 * r > d) by (nonlinear_arith)
            requires
                2 * r * n > d * n,
                n > 0,
        ;
    } else if 2 * lo == t {
        assert(2 * r * n == d * n + 2 * s);
        if s > 0 {
            assert(2 * r > d) by (nonlinear_arith)
                requires
                    2 * r * n > d * n,
                    n > 0,
            ;
        } else {
            assert(2 * r == d) by (nonlinear_arith)
                requires
                    2 * r * n == d * n,
                    n > 0,
            ;
        }
    } else if t == 1 {
        assert(lo == 0);
        assert(0 * pd == 0) by (nonlinear_arith);
        assert(r == 0) by (nonlinear_arith)
            requires
                r * n == 0,
                n > 0,
        ;
        assert(d > 0) by (nonlinear_arith)
            requires
                d * n > 0,
                n > 0,
        ;
    } else {
        assert(2 * lo <= t - 2);
        assert(2 * lo * pd <= (t - 2) * pd) by (nonlinear_arith)
            requires
                2 * lo <= t - 2,
                pd > 0,
        ;
        assert((t - 2) * pd == t * pd - 2 * pd) by (nonlinear_arith);
        assert(2 * r < d) by (nonlinear_arith)
            requires
                2 * r * n < d * n,
                n > 0,
        ;
    }
}

/// `num / den` is `(q + f) * 2^e` for some `f` in `[0, 1)`, and `f > 0` exactly
/// when `rest > 0`.
spec fn is_quotient(num: nat, den: nat, q: nat, e: int, rest: nat) -> bool {
    let p = if e >= 0 {
        pow2(e as nat)
    } else {
        1
    };
    let n = if e >= 0 {
        1
    } else {
        pow2((-e) as nat)
    };
    &&& den > 0
    &&& num * n == q * (p * den) + rest
    &&& rest < p * den
}

/// A whole number as a quotient by one.
proof fn lemma_whole(num: nat, q: nat, e: nat, rest: nat)
    requires
        num == q * pow2(e) + rest,
        rest < pow2(e),
    ensures
        is_quotient(num, 1, q, e as int, rest),
{
    lemma_mul_basics(num as int);
    lemma_mul_basics(pow2(e) as int);
    assert(pow2(e) * 1 == pow2(e));
}

/// Rounding by dropping the low `t` binary digits of the quotient.
proof fn lemma_round(num: nat, den: nat, q: nat, e: int, rest: nat, t: nat, hi: nat, lo: nat)
    requires
        is_quotient(num, den, q, e, rest),
        e + t >= 0,
        q == hi * pow2(t) + lo,
        lo < pow2(t),
        hi < SIG,
        e + t > 0 ==> hi >= FRAC,
        t == 0 ==> rest == 0,
    ensures
        ({
            let k = (e + t) as nat;
            let up: nat = if 2 * lo > pow2(t) || (2 * lo == pow2(t) && (rest > 0 || hi % 2 == 1)) {
                1
            } else {
                0
            };
            nearest(num, den) == num_min((hi + up) * pow2(k), infinity())
        }),
{
    let k = (e + t) as nat;
    let p = if e >= 0 {
        pow2(e as nat)
    } else {
        1
    };
    let n = if e >= 0 {
        1
    } else {
        pow2((-e) as nat)
    };
    let d = den * pow2(k);
    lemma_pow2_pos(t);
    lemma_pow2_pos(k);
    lemma2_to64();
    lemma2_to64_rest();
    assert(n > 0 && p > 0) by {
        lemma_pow2_pos(e as nat);
        lemma_pow2_pos((-e) as nat);
    }
    assert(pow2(k) * n == p * pow2(t)) by {
        if e >= 0 {
            lemma_pow2_adds(e as nat, t);
        } else {
            lemma_pow2_adds(k, (-e) as nat);
            assert(k + (-e) as nat == t);
        }
    }
    assert(d * n == (p * den) * pow2(t)) by (nonlinear_arith)
        requires
            d == den * pow2(k),
            pow2(k) * n == p * pow2(t),
    ;
    assert(p * den > 0) by (nonlinear_arith)
        requires
            p > 0,
            den > 0,
    ;
    assert(d > 0) by (nonlinear_arith)
        requires
            d == den * pow2(k),
            den > 0,
            pow2(k) > 0,
    ;
    lemma_split(
        num as int,
        n as int,
        q as int,
        (p * den) as int,
        rest as int,
        hi as int,
        lo as int,
        pow2(t) as int,
        d as int,
    );
    assert(pow2(t) == 1 || pow2(t) % 2 == 0) by {
        if t > 0 {
            lemma_pow2_unfold(t);
        }
    }
    assert(pow2(t) == 1 ==> rest == 0) by {
        if t > 0 {
            lemma_pow2_unfold(t);
        }
    }
    lemma_half(
        n as int,
        (p * den) as int,
        rest as int,
        lo as int,
        pow2(t) as int,
        d as int,
        (num % d) as int,
    );
    assert(excess(num / den) == k) by {
        lemma_div_denominator(num as int, den as int, pow2(k) as int);
        let m = num / den;
        assert(m / pow2(k) == hi);
        lemma_fundamental_div_mod(m as int, pow2(k) as int);
        lemma_mod_bound(m as int, pow2(k) as int);
        assert(pow2(k) * hi <= m < pow2(k) * hi + pow2(k));
        if k > 0 {
            lemma_pow2_adds(52, k);
            lemma_pow2_adds(53, k);
            assert(pow2(52) * pow2(k) <= pow2(k) * hi) by (nonlinear_arith)
                requires
                    pow2(52) <= hi,
            ;
            assert(pow2(k) * hi + pow2(k) <= pow2(53) * pow2(k)) by (nonlinear_arith)
                requires
                    hi + 1 <= pow2(53),
            ;
        } else {
            assert(m == hi) by (nonlinear_arith)
                requires
                    pow2(k) == 1,
                    pow2(k) * hi <= m < pow2(k) * hi + pow2(k),
            ;
        }
        lemma_excess(m, k);
    }
}

/// The bit pattern of a significand with its exponent.
proof fn lemma_encode(m: nat, k: nat)
    requires
        m <= SIG,
        k <= 2045,
        k > 0 ==> m >= FRAC,
    ensures
        k * FRAC + m <= INF_BITS,
        scaled((k * FRAC + m) as u64) == m * pow2(k),
        m * pow2(k) <= infinity(),
{
    lemma2_to64();
    lemma2_to64_rest();
    lemma_pow2_pos(k);
    let bits = (k * FRAC + m) as u64;
    assert(k * FRAC + m <= 2045 * FRAC + SIG);
    if m == SIG {
        assert(bits / FRAC == k + 2);
        lemma_pow2_unfold(k + 1);
        assert(m * pow2(k) == FRAC * pow2(k + 1)) by (nonlinear_arith)
            requires
                m == 2 * FRAC,
                pow2(k + 1) == 2 * pow2(k),
        ;
    } else if k == 0 {
        assert(m * pow2(0) == m);
        if m >= FRAC {
            assert(bits / FRAC == 1);
        } else {
            assert(bits / FRAC == 0);
        }
    } else {
        assert(bits / FRAC == k + 1);
    }
    assert(m * pow2(k) <= pow2(53) * pow2(2045)) by {
        if k < 2045 {
            lemma_pow2_strictly_increases(k, 2045);
        }
        lemma_mul_inequality(m as int, pow2(53) as int, pow2(k) as int);
        lemma_mul_inequality(pow2(k) as int, pow2(2045) as int, pow2(53) as int);
        assert(pow2(53) * pow2(k) == pow2(k) * pow2(53)) by (nonlinear_arith);
        assert(pow2(53) * pow2(2045) == pow2(2045) * pow2(53)) by (nonlinear_arith);
    }
    lemma_pow2_adds(53, 2045);
}

impl Double {
    #[verifier::type_invariant]
    spec fn inv(self) -> bool {
        self.bits <= INF_BITS
    }

    /// The number nearest to `(q + f) * 2^e` units, where `sticky` tells whether
    /// the fraction `f` is positive.
    fn rounded(
        q: u128,
        sticky: bool,
        e: i32,
        Ghost(num): Ghost<nat>,
        Ghost(den): Ghost<nat>,
        Ghost(rest): Ghost<nat>,
    ) -> (r: Double)
        requires
            is_quotient(num, den, q as nat, e as int, rest),
            sticky <==> rest > 0,
            q < 0x100_0000_0000_0000_0000_0000_0000_0000,
            -10000 < e < 10000,
            e <= 0 || q >= FRAC,
            sticky ==> e < 0 || q >= SIG,
        ensures
            r@ == nearest(num, den),
    {
        let mut hi: u128 = q;
        let mut t: i32 = 0;
        let mut pw: u128 = 1;
        proof {
            lemma2_to64();
            lemma2_to64_rest();
            lemma_pow2_adds(60, 60);
        }
        while hi >= SIG || (t < -e && t < 121)
            invariant
                0 <= t <= 121,
                -10000 < e < 10000,
                q < 0x100_0000_0000_0000_0000_0000_0000_0000,
                pw == pow2(t as nat),
                pw <= 0x200_0000_0000_0000_0000_0000_0000_0000,
                hi == q as nat / pow2(t as nat),
                t > 0 ==> q >= pow2((52 + t) as nat) || t <= -e,
                pow2(120) == 0x100_0000_0000_0000_0000_0000_0000_0000nat,
                pow2(53) == SIG,
            decreases 200 - t,
        {
            proof {
                lemma_pow2_pos(t as nat);
                lemma_pow2_unfold((t + 1) as nat);
                lemma_div_denominator(q as int, pow2(t as nat) as int, 2);
                lemma_fundamental_div_mod(q as int, pow2(t as nat) as int);
                lemma_mod_bound(q as int, pow2(t as nat) as int);
                if hi >= SIG {
                    assert(q >= pow2(53) * pow2(t as nat)) by (nonlinear_arith)
                        requires
                            hi >= pow2(53),
                            q >= pow2(t as nat) * hi,
                    ;
                    lemma_pow2_adds(53, t as nat);
                    assert((53 + t) as nat == 52 + (t + 1));
                    if t > 67 {
                        lemma_pow2_strictly_increases(120, (53 + t) as nat);
                    }
                }
                if t == 120 {
                    assert(pow2(121) == 2 * pow2(120));
                } else if t < 120 {
                    lemma_pow2_strictly_increases(t as nat, 120);
                }
            }
            hi = hi / 2;
            pw = pw * 2;
            t = t + 1;
        }
        proof {
            lemma_pow2_pos(t as nat);
            lemma_fundamental_div_mod(q as int, pow2(t as nat) as int);
            lemma_mod_bound(q as int, pow2(t as nat) as int);
        }
        if t < -e {
            proof {
                lemma_vanish(num, den, q as nat, e as int, rest);
            }
            return Double { bits: 0 };
        }
        let lo: u128 = q % pw;
        let k: i32 = e + t;
        let up: u128 = if 2 * lo > pw || (2 * lo == pw && (sticky || hi % 2 == 1)) {
            1
        } else {
            0
        };
        proof {
            assert(q == hi * pow2(t as nat) + lo) by (nonlinear_arith)
                requires
                    q == pow2(t as nat) * hi + lo,
            ;
            if k > 0 && t > 0 {
                lemma_pow2_adds(52, t as nat);
                assert(hi >= FRAC) by {
                    if hi < FRAC {
                        assert((hi + 1) * pow2(t as nat) <= pow2(52) * pow2(t as nat)) by (nonlinear_arith)
                            requires
                                hi + 1 <= pow2(52),
                        ;
                        assert((hi + 1) * pow2(t as nat) == hi * pow2(t as nat) + pow2(t as nat)) by (nonlinear_arith);
                    }
                }
            }
            lemma_round(num, den, q as nat, e as int, rest, t as nat, hi as nat, lo as nat);
        }
        let m: u64 = (hi + up) as u64;
        if k > 2045 {
            proof {
                lemma_overflow(m as nat, k as nat);
            }
            return Double { bits: INF_BITS };
        }
        proof {
            lemma_encode(m as nat, k as nat);
        }
        Double { bits: (k as u64) * FRAC + m }
    }
}

proof fn lemma_overflow(m: nat, k: nat)
    requires
        m >= FRAC,
        k > 2045,
    ensures
        m * pow2(k) >= infinity(),
        scaled(INF_BITS) == infinity(),
{
    lemma2_to64_rest();
    lemma_pow2_adds(52, 2046);
    assert(INF_BITS / FRAC == 2047);
    assert(INF_BITS - 2046 * FRAC == FRAC);
    if k > 2046 {
        lemma_pow2_strictly_increases(2046, k);
    }
    lemma_mul_inequality(FRAC as int, m as int, pow2(k) as int);
    lemma_mul_inequality(pow2(2046) as int, pow2(k) as int, FRAC as int);
    assert(FRAC * pow2(k) == pow2(k) * FRAC) by (nonlinear_arith);
    assert(FRAC * pow2(2046) == pow2(2046) * FRAC) by (nonlinear_arith);
}

/// A quotient far below half a unit rounds to zero.
proof fn lemma_vanish(num: nat, den: nat, q: nat, e: int, rest: nat)
    requires
        is_quotient(num, den, q, e, rest),
        q < pow2(120),
        e < -121,
    ensures
        nearest(num, den) == 0,
{
    let n = pow2((-e) as nat);
    lemma2_to64();
    lemma2_to64_rest();
    lemma_pow2_adds(120, (-e - 120) as nat);
    assert(120 + (-e - 120) as nat == (-e) as nat);
    lemma_pow2_strictly_increases(1, (-e - 120) as nat);
    lemma_pow2_pos(120);
    assert(1 * den == den);
    assert(num * n < pow2(120) * den) by (nonlinear_arith)
        requires
            num * n == q * den + rest,
            rest < den,
            q + 1 <= pow2(120),
    ;
    assert(2 * num < den) by (nonlinear_arith)
        requires
            num * n < pow2(120) * den,
            n == pow2(120) * pow2((-e - 120) as nat),
            pow2((-e - 120) as nat) >= 2,
            pow2(120) > 0,
    ;
    lemma_basic_div(num as int, den as int);
    lemma_small_mod(num, den);
    assert(den * pow2(0) == den) by (nonlinear_arith)
        requires
            pow2(0) == 1,
    ;
    lemma_pow2_pos(2098);
    assert(0 * pow2(0) == 0) by (nonlinear_arith);
}

/// Larger bit patterns stand for larger numbers.
proof fn lemma_monotone(a: u64, b: u64)
    requires
        a < b <= INF_BITS,
    ensures
        scaled(a) < scaled(b),
{
    lemma2_to64();
    lemma2_to64_rest();
    let ea = a / FRAC;
    let eb = b / FRAC;
    assert(a == ea * FRAC + a % FRAC);
    assert(b == eb * FRAC + b % FRAC);
    let ka = (if ea == 0 { 0 } else { ea - 1 }) as nat;
    let kb = (if eb == 0 { 0 } else { eb - 1 }) as nat;
    let ma = (a - ka * FRAC) as nat;
    let mb = (b - kb * FRAC) as nat;
    lemma_mul_basics(ma as int);
    lemma_mul_basics(mb as int);
    assert(scaled(a) == ma * pow2(ka)) by {
        if ea == 0 {
            assert(pow2(ka) == 1);
        }
    }
    assert(scaled(b) == mb * pow2(kb)) by {
        if eb == 0 {
            assert(pow2(kb) == 1);
        }
    }
    lemma_pow2_pos(ka);
    if ka == kb {
        assert(ma < mb);
        lemma_mul_strict_inequality(ma as int, mb as int, pow2(ka) as int);
    } else {
        assert(ka < kb);
        assert(ma < SIG && mb >= FRAC);
        lemma_pow2_unfold(ka + 1);
        if ka + 1 < kb {
            lemma_pow2_strictly_increases(ka + 1, kb);
        }
        assert(ma * pow2(ka) < FRAC * pow2(ka + 1)) by (nonlinear_arith)
            requires
                ma < 2 * FRAC,
                pow2(ka + 1) == 2 * pow2(ka),
                pow2(ka) > 0,
        ;
        lemma_mul_inequality(pow2(ka + 1) as int, pow2(kb) as int, FRAC as int);
        lemma_mul_inequality(FRAC as int, mb as int, pow2(kb) as int);
        assert(FRAC * pow2(ka + 1) == pow2(ka + 1) * FRAC) by (nonlinear_arith);
        assert(FRAC * pow2(kb) == pow2(kb) * FRAC) by (nonlinear_arith);
    }
}

/// `2^d` as a machine integer.
fn power(d: u32) -> (r: u128)
    requires
        d <= 120,
    ensures
        r == pow2(d as nat),
{
    let mut i: u32 = 0;
    let mut r: u128 = 1;
    proof {
        lemma2_to64();
        lemma2_to64_rest();
        lemma_pow2_adds(60, 60);
    }
    while i < d
        invariant
            i <= d <= 120,
            r == pow2(i as nat),
            pow2(120) == 0x100_0000_0000_0000_0000_0000_0000_0000nat,
        decreases d - i,
    {
        proof {
            lemma_pow2_unfold((i + 1) as nat);
            if i + 1 < 120 {
                lemma_pow2_strictly_increases((i + 1) as nat, 120);
            }
        }
        r = r * 2;
        i = i + 1;
    }
    r
}

impl Double {
    /// The number with the given bit pattern, if the pattern is that of a
    /// non-negative number.
    pub fn from_bits(bits: u64) -> (r: Option<Double>)
        ensures
            r is Some <==> bits <= INF_BITS,
            r matches Some(d) ==> d@ == scaled(bits),
    {
        if bits <= INF_BITS {
            Some(Double { bits })
        } else {
            None
        }
    }

    /// The bit pattern.
    pub fn to_bits(self) -> (r: u64)
        ensures
            r <= INF_BITS,
            scaled(r) == self@,
    {
        proof {
            use_type_invariant(&self);
        }
        self.bits
    }

    /// Zero.
    pub fn zero() -> (r: Double)
        ensures
            r@ == 0,
    {
        Double { bits: 0 }
    }

    /// Whether this number is at most `other`.
    pub fn le(self, other: Double) -> (r: bool)
        ensures
            r == (self@ <= other@),
    {
        proof {
            use_type_invariant(&self);
            use_type_invariant(&other);
            if self.bits < other.bits {
                lemma_monotone(self.bits, other.bits);
            }
            if other.bits < self.bits {
                lemma_monotone(other.bits, self.bits);
            }
        }
        self.bits <= other.bits
    }

    /// Whether this number is zero.
    pub fn is_zero(self) -> (r: bool)
        ensures
            r == (self@ == 0),
    {
        proof {
            use_type_invariant(&self);
            if self.bits > 0 {
                lemma_monotone(0, self.bits);
            }
        }
        self.bits == 0
    }

    /// Whether this is infinity.
    pub fn is_infinite(self) -> (r: bool)
        ensures
            r == (self@ >= infinity()),
            r == (self@ == infinity()),
    {
        proof {
            use_type_invariant(&self);
            lemma_overflow(FRAC as nat, 2046);
            if self.bits < INF_BITS {
                lemma_monotone(self.bits, INF_BITS);
            }
        }
        self.bits == INF_BITS
    }

    /// The larger of two numbers.
    pub fn max(self, other: Double) -> (r: Double)
        ensures
            r@ == num_max(self@, other@),
    {
        if other.le(self) {
            self
        } else {
            other
        }
    }

    /// The smaller of two numbers.
    pub fn min(self, other: Double) -> (r: Double)
        ensures
            r@ == num_min(self@, other@),
    {
        if self.le(other) {
            self
        } else {
            other
        }
    }

    /// Significand and exponent.
    fn parts(self) -> (r: (u64, u32))
        ensures
            self@ == r.0 * pow2(r.1 as nat),
            r.0 < SIG,
            r.1 > 0 ==> r.0 >= FRAC,
            r.1 <= 2046,
            self@ < infinity() ==> r.1 <= 2045,
    {
        proof {
            use_type_invariant(&self);
            lemma2_to64();
            lemma_overflow(FRAC as nat, 2046);
        }
        let e: u64 = self.bits / FRAC;
        if e <= 1 {
            assert(self.bits * pow2(0) == self.bits);
            (self.bits, 0)
        } else {
            (self.bits - (e - 1) * FRAC, (e - 1) as u32)
        }
    }

    /// The number nearest to `n`.
    pub fn from_u64(n: u64) -> (r: Double)
        ensures
            r@ == num_of(n as nat),
    {
        if n == 0 {
            proof {
                assert(0 * one() == 0) by (nonlinear_arith);
                lemma_nearest_zero(1);
            }
            return Double { bits: 0 };
        }
        let mut m: u64 = n;
        let mut sh: i32 = 0;
        proof {
            lemma2_to64();
            lemma2_to64_rest();
            assert(n * 1 == n);
            assert(pow2(sh as nat) == 1);
        }
        while m < FRAC
            invariant
                0 <= sh <= 52,
                0 < n,
                m == n * pow2(sh as nat),
                pow2(52) == FRAC,
            decreases 52 - sh,
        {
            proof {
                if sh == 52 {
                    assert(n * pow2(52) >= pow2(52)) by (nonlinear_arith)
                        requires
                            n >= 1,
                    ;
                }
                lemma_pow2_unfold((sh + 1) as nat);
                assert(n * (2 * pow2(sh as nat)) == 2 * (n * pow2(sh as nat))) by (nonlinear_arith);
            }
            m = m * 2;
            sh = sh + 1;
        }
        proof {
            lemma_pow2_adds(sh as nat, (1074 - sh) as nat);
            lemma_pow2_pos((1074 - sh) as nat);
            assert(n * one() == m * pow2((1074 - sh) as nat)) by (nonlinear_arith)
                requires
                    one() == pow2(sh as nat) * pow2((1074 - sh) as nat),
                    m == n * pow2(sh as nat),
            ;
        }
        Double::rounded(m as u128, false, 1074 - sh, Ghost((n as nat) * one()), Ghost(1), Ghost(0))
    }

    /// Sum.
    pub fn plus(self, other: Double) -> (r: Double)
        ensures
            r@ == num_add(self@, other@),
    {
        let (ma, ka) = self.parts();
        let (mb, kb) = other.parts();
        if ka >= kb {
            Double::sum(ma, ka, mb, kb)
        } else {
            Double::sum(mb, kb, ma, ka)
        }
    }

    fn sum(ma: u64, ka: u32, mb: u64, kb: u32) -> (r: Double)
        requires
            kb <= ka <= 2046,
            ma < SIG,
            mb < SIG,
            ka > 0 ==> ma >= FRAC,
            kb > 0 ==> mb >= FRAC,
        ensures
            r@ == nearest((ma as nat) * pow2(ka as nat) + (mb as nat) * pow2(kb as nat), 1),
    {
        let ghost num: nat = (ma as nat) * pow2(ka as nat) + (mb as nat) * pow2(kb as nat);
        proof {
            lemma2_to64();
            lemma2_to64_rest();
            lemma_pow2_pos(kb as nat);
        }
        let d: u32 = ka - kb;
        if d >= 56 {
            let ghost rest: nat = (mb as nat) * pow2(kb as nat);
            proof {
                lemma_pow2_adds(3, (ka - 3) as nat);
                lemma_pow2_adds(53, kb as nat);
                if kb + 53 < ka - 3 {
                    lemma_pow2_strictly_increases((53 + kb) as nat, (ka - 3) as nat);
                }
                assert(rest < pow2(53) * pow2(kb as nat)) by (nonlinear_arith)
                    requires
                        rest == mb * pow2(kb as nat),
                        mb < pow2(53),
                        pow2(kb as nat) > 0,
                ;
                assert(ma * pow2(ka as nat) == (ma * 8) * pow2((ka - 3) as nat)) by (nonlinear_arith)
                    requires
                        pow2(ka as nat) == 8 * pow2((ka - 3) as nat),
                ;
                assert(rest > 0 <==> mb > 0) by (nonlinear_arith)
                    requires
                        rest == mb * pow2(kb as nat),
                        pow2(kb as nat) > 0,
                ;
                lemma_whole(num, ((ma as u128) * 8) as nat, (ka - 3) as nat, rest);
            }
            Double::rounded(
                (ma as u128) * 8,
                mb != 0,
                ka as i32 - 3,
                Ghost(num),
                Ghost(1),
                Ghost(rest),
            )
        } else {
            let pw: u128 = power(d);
            proof {
                if d < 56 {
                    lemma_pow2_strictly_increases(d as nat, 56);
                }
                assert(ma * pw < SIG * pow2(56)) by (nonlinear_arith)
                    requires
                        ma < SIG,
                        0 < pw < pow2(56),
                ;
                lemma_pow2_adds(d as nat, kb as nat);
                assert(num == (ma * pw + mb) * pow2(kb as nat)) by (nonlinear_arith)
                    requires
                        num == ma * pow2(ka as nat) + mb * pow2(kb as nat),
                        pow2(ka as nat) == pow2(d as nat) * pow2(kb as nat),
                        pw == pow2(d as nat),
                ;
                assert(ma * pw >= 0) by (nonlinear_arith);
                lemma_whole(num, (ma * pw + mb) as nat, kb as nat, 0);
            }
            Double::rounded(
                (ma as u128) * pw + mb as u128,
                false,
                kb as i32,
                Ghost(num),
                Ghost(1),
                Ghost(0),
            )
        }
    }
}

/// Zero is rounded to zero.
pub proof fn lemma_nearest_zero(den: nat)
    requires
        den > 0,
    ensures
        nearest(0, den) == 0,
{
    lemma2_to64();
    lemma_pow2_pos(2098);
    lemma_basic_div(0, den as int);
    assert(den * pow2(0) == den) by (nonlinear_arith)
        requires
            pow2(0) == 1,
    ;
    lemma_small_mod(0, den);
    assert(0 * pow2(0) == 0) by (nonlinear_arith);
}

impl Double {
    /// Absolute difference of two finite numbers.
    pub fn diff(self, other: Double) -> (r: Double)
        requires
            self@ < infinity(),
            other@ < infinity(),
        ensures
            r@ == num_diff(self@, other@),
    {
        let (ma, ka) = self.parts();
        let (mb, kb) = other.parts();
        if other.le(self) {
            Double::gap(ma, ka, mb, kb)
        } else {
            Double::gap(mb, kb, ma, ka)
        }
    }

    fn gap(ma: u64, ka: u32, mb: u64, kb: u32) -> (r: Double)
        requires
            ka <= 2046,
            kb <= 2046,
            ma < SIG,
            mb < SIG,
            ka > 0 ==> ma >= FRAC,
            kb > 0 ==> mb >= FRAC,
            (mb as nat) * pow2(kb as nat) <= (ma as nat) * pow2(ka as nat),
        ensures
            r@ == nearest(
                ((ma as nat) * pow2(ka as nat) - (mb as nat) * pow2(kb as nat)) as nat,
                1,
            ),
    {
        let ghost num: nat = ((ma as nat) * pow2(ka as nat) - (mb as nat) * pow2(
            kb as nat,
        )) as nat;
        proof {
            lemma2_to64();
            lemma2_to64_rest();
            lemma_pow2_pos(kb as nat);
            lemma_pow2_pos(ka as nat);
            if ka < kb {
                lemma_pow2_unfold((ka + 1) as nat);
                if ka + 1 < kb {
                    lemma_pow2_strictly_increases((ka + 1) as nat, kb as nat);
                }
                assert((ma as nat) * pow2(ka as nat) < (mb as nat) * pow2(kb as nat))
                    by (nonlinear_arith)
                    requires
                        ma < 2 * FRAC,
                        mb >= FRAC,
                        pow2(kb as nat) >= 2 * pow2(ka as nat),
                        pow2(ka as nat) > 0,
                ;
            }
        }
        let d: u32 = ka - kb;
        if d >= 64 {
            let ghost low: nat = (mb as nat) * pow2(kb as nat);
            let ghost unit: nat = pow2((ka - 10) as nat);
            proof {
                lemma_pow2_adds(10, (ka - 10) as nat);
                lemma_pow2_adds(53, kb as nat);
                if kb + 53 < ka - 10 {
                    lemma_pow2_strictly_increases((53 + kb) as nat, (ka - 10) as nat);
                }
                assert(low < pow2(53) * pow2(kb as nat)) by (nonlinear_arith)
                    requires
                        low == (mb as nat) * pow2(kb as nat),
                        mb < pow2(53),
                        pow2(kb as nat) > 0,
                ;
                assert((ma as nat) * pow2(ka as nat) == ((ma as nat) * 1024) * unit)
                    by (nonlinear_arith)
                    requires
                        pow2(ka as nat) == 1024 * unit,
                ;
                assert(((ma as nat) * 1024 - 1) * unit == ((ma as nat) * 1024) * unit - unit)
                    by (nonlinear_arith);
                assert(low > 0 <==> mb > 0) by (nonlinear_arith)
                    requires
                        low == (mb as nat) * pow2(kb as nat),
                        pow2(kb as nat) > 0,
                ;
                assert(unit * 1 == unit);
            }
            if mb == 0 {
                Double::rounded(
                    (ma as u128) * 1024,
                    false,
                    ka as i32 - 10,
                    Ghost(num),
                    Ghost(1),
                    Ghost(0),
                )
            } else {
                Double::rounded(
                    (ma as u128) * 1024 - 1,
                    true,
                    ka as i32 - 10,
                    Ghost(num),
                    Ghost(1),
                    Ghost((unit - low) as nat),
                )
            }
        } else {
            let pw: u128 = power(d);
            proof {
                lemma_pow2_strictly_increases(d as nat, 64);
                assert(ma * pw < SIG * pow2(64)) by (nonlinear_arith)
                    requires
                        ma < SIG,
                        0 < pw < pow2(64),
                ;
                lemma_pow2_adds(d as nat, kb as nat);
                assert((ma as nat) * pow2(ka as nat) == ((ma as nat) * pw) * pow2(kb as nat))
                    by (nonlinear_arith)
                    requires
                        pow2(ka as nat) == pow2(d as nat) * pow2(kb as nat),
                        pw == pow2(d as nat),
                ;
                assert(ma * pw >= mb) by (nonlinear_arith)
                    requires
                        (mb as nat) * pow2(kb as nat) <= ((ma as nat) * pw) * pow2(kb as nat),
                        pow2(kb as nat) > 0,
                ;
                assert(num == (ma * pw - mb) * pow2(kb as nat)) by (nonlinear_arith)
                    requires
                        num == ((ma as nat) * pw) * pow2(kb as nat) - (mb as nat) * pow2(kb as nat),
                ;
            }
            let mut q: u128 = (ma as u128) * pw - mb as u128;
            let mut e: i32 = kb as i32;
            while e > 0 && q < FRAC as u128
                invariant
                    0 <= e <= 2046,
                    q < SIG * pow2(64),
                    num == q * pow2(e as nat),
                    pow2(64) == 0x1_0000_0000_0000_0000nat,
                decreases e,
            {
                proof {
                    lemma_pow2_unfold(e as nat);
                    assert(num == (2 * q) * pow2((e - 1) as nat)) by (nonlinear_arith)
                        requires
                            num == q * pow2(e as nat),
                            pow2(e as nat) == 2 * pow2((e - 1) as nat),
                    ;
                }
                q = q * 2;
                e = e - 1;
            }
            proof {
                lemma_pow2_pos(e as nat);
                assert(pow2(e as nat) * 1 == pow2(e as nat));
            }
            Double::rounded(q, false, e, Ghost(num), Ghost(1), Ghost(0))
        }
    }
}

impl Double {
    /// Product. Infinity times zero has no value.
    pub fn times(self, other: Double) -> (r: Double)
        requires
            self@ >= infinity() ==> other@ > 0,
            other@ >= infinity() ==> self@ > 0,
        ensures
            r@ == num_mul(self@, other@),
    {
        if self.is_infinite() || other.is_infinite() {
            proof {
                lemma_overflow(FRAC as nat, 2046);
            }
            return Double { bits: INF_BITS };
        }
        if self.is_zero() || other.is_zero() {
            proof {
                assert(self@ * other@ == 0) by (nonlinear_arith)
                    requires
                        self@ == 0 || other@ == 0,
                ;
                lemma_pow2_pos(1074);
                lemma_nearest_zero(one());
            }
            return Double { bits: 0 };
        }
        let (ma, ka) = self.parts();
        let (mb, kb) = other.parts();
        let q: u128 = self::product(ma, mb);
        let e: i32 = ka as i32 + kb as i32 - 1074;
        let ghost num: nat = self@ * other@;
        proof {
            lemma2_to64();
            lemma2_to64_rest();
            assert(ma > 0) by (nonlinear_arith)
                requires
                    (ma as nat) * pow2(ka as nat) > 0,
            ;
            assert(mb > 0) by (nonlinear_arith)
                requires
                    (mb as nat) * pow2(kb as nat) > 0,
            ;
            if ka > 0 {
                assert(q >= FRAC) by (nonlinear_arith)
                    requires
                        q == ma * mb,
                        ma >= FRAC,
                        mb >= 1,
                ;
            } else if kb > 0 {
                assert(q >= FRAC) by (nonlinear_arith)
                    requires
                        q == ma * mb,
                        mb >= FRAC,
                        ma >= 1,
                ;
            }
            lemma_pow2_adds(ka as nat, kb as nat);
            lemma_pow2_pos(1074);
            assert(num == q * pow2((ka + kb) as nat)) by (nonlinear_arith)
                requires
                    num == ((ma as nat) * pow2(ka as nat)) * ((mb as nat) * pow2(kb as nat)),
                    q == ma * mb,
                    pow2((ka + kb) as nat) == pow2(ka as nat) * pow2(kb as nat),
            ;
            if e >= 0 {
                lemma_pow2_pos(e as nat);
                lemma_pow2_adds(e as nat, 1074);
                assert(pow2(e as nat) * one() > 0) by (nonlinear_arith)
                    requires
                        pow2(e as nat) > 0,
                        one() > 0,
                ;
                lemma_mul_basics(num as int);
            } else {
                lemma_pow2_adds((ka + kb) as nat, (-e) as nat);
                assert((ka + kb) as nat + (-e) as nat == 1074);
                assert(num * pow2((-e) as nat) == q * one()) by (nonlinear_arith)
                    requires
                        num == q * pow2((ka + kb) as nat),
                        one() == pow2((ka + kb) as nat) * pow2((-e) as nat),
                ;
                lemma_mul_basics(one() as int);
            }
            assert(is_quotient(num, one(), q as nat, e as int, 0));
        }
        Double::rounded(q, false, e, Ghost(num), Ghost(one()), Ghost(0))
    }

    /// Quotient. The divisor is not zero, and not both numbers are infinite.
    pub fn over(self, other: Double) -> (r: Double)
        requires
            other@ > 0,
            self@ >= infinity() ==> other@ < infinity(),
        ensures
            r@ == num_div(self@, other@),
    {
        if self.is_infinite() {
            proof {
                lemma_overflow(FRAC as nat, 2046);
            }
            return Double { bits: INF_BITS };
        }
        if other.is_infinite() {
            return Double { bits: 0 };
        }
        if self.is_zero() {
            proof {
                assert(0 * one() == 0) by (nonlinear_arith);
                lemma_nearest_zero(other@);
            }
            return Double { bits: 0 };
        }
        let (ma, ka) = self.parts();
        let (mb, kb) = other.parts();
        let mut m: u64 = ma;
        let mut sh: i32 = 0;
        proof {
            lemma2_to64();
            lemma2_to64_rest();
            assert(ma > 0) by (nonlinear_arith)
                requires
                    (ma as nat) * pow2(ka as nat) > 0,
            ;
            assert(mb > 0) by (nonlinear_arith)
                requires
                    (mb as nat) * pow2(kb as nat) > 0,
            ;
            assert(ma * 1 == ma);
            assert(pow2(sh as nat) == 1);
        }
        while m < FRAC
            invariant
                0 <= sh <= 52,
                0 < ma < SIG,
                m < SIG,
                m == ma * pow2(sh as nat),
                pow2(52) == FRAC,
            decreases 52 - sh,
        {
            proof {
                if sh == 52 {
                    assert(ma * pow2(52) >= pow2(52)) by (nonlinear_arith)
                        requires
                            ma >= 1,
                    ;
                }
                lemma_pow2_unfold((sh + 1) as nat);
                assert(ma * (2 * pow2(sh as nat)) == 2 * (ma * pow2(sh as nat))) by (nonlinear_arith);
            }
            m = m * 2;
            sh = sh + 1;
        }
        let top: u128 = (m as u128) * 0x1_0000_0000_0000_0000;
        let q: u128 = top / (mb as u128);
        let r: u128 = top % (mb as u128);
        let e: i32 = ka as i32 - sh - kb as i32 + 1010;
        let ghost num: nat = self@ * one();
        let ghost den: nat = other@;
        let ghost rest: nat = (r as nat) * pow2(
            (if e >= 0 {
                e + kb
            } else {
                kb as int
            }) as nat,
        );
        proof {
            lemma_fundamental_div_mod(top as int, mb as int);
            lemma_mod_bound(top as int, mb as int);
            assert(q >= SIG) by (nonlinear_arith)
                requires
                    top == mb * q + r,
                    r < mb,
                    mb < SIG,
                    top >= FRAC * 0x1_0000_0000_0000_0000,
            ;
            assert(q <= top) by (nonlinear_arith)
                requires
                    top == mb * q + r,
                    mb >= 1,
            ;
            lemma_quotient(
                ma as nat,
                ka as nat,
                mb as nat,
                kb as nat,
                sh as nat,
                q as nat,
                r as nat,
                e as int,
                rest,
            );
        }
        Double::rounded(q, r != 0, e, Ghost(num), Ghost(den), Ghost(rest))
    }
}

/// Product of two significands.
fn product(a: u64, b: u64) -> (r: u128)
    requires
        a < SIG,
        b < SIG,
    ensures
        r == a * b,
        r < 0x100_0000_0000_0000_0000_0000_0000_0000,
{
    proof {
        assert(a * b <= SIG * SIG) by (nonlinear_arith)
            requires
                a < SIG,
                b < SIG,
        ;
    }
    (a as u128) * (b as u128)
}

proof fn lemma_quotient(
    ma: nat,
    ka: nat,
    mb: nat,
    kb: nat,
    sh: nat,
    q: nat,
    r: nat,
    e: int,
    rest: nat,
)
    requires
        mb > 0,
        e == ka - sh - kb + 1010,
        (ma * pow2(sh)) * pow2(64) == mb * q + r,
        r < mb,
        rest == r * pow2(
            (if e >= 0 {
                e + kb
            } else {
                kb as int
            }) as nat,
        ),
    ensures
        is_quotient((ma * pow2(ka)) * one(), mb * pow2(kb), q, e, rest),
        rest > 0 <==> r > 0,
{
    let num = (ma * pow2(ka)) * one();
    let den = mb * pow2(kb);
    let alpha = pow2(sh + 64);
    let gamma = pow2(ka + 1074);
    lemma_pow2_adds(sh, 64);
    lemma_pow2_adds(ka, 1074);
    lemma_pow2_pos(sh + 64);
    lemma_pow2_pos(kb);
    assert(num * alpha == (mb * q + r) * gamma) by (nonlinear_arith)
        requires
            num == (ma * pow2(ka)) * one(),
            alpha == pow2(sh) * pow2(64),
            gamma == pow2(ka) * one(),
            (ma * pow2(sh)) * pow2(64) == mb * q + r,
    ;
    assert(den > 0) by (nonlinear_arith)
        requires
            den == mb * pow2(kb),
            mb > 0,
            pow2(kb) > 0,
    ;
    if e >= 0 {
        let p = pow2(e as nat);
        let w = pow2((e + kb) as nat);
        lemma_pow2_pos(e as nat);
        lemma_pow2_pos((e + kb) as nat);
        lemma_pow2_adds(e as nat, kb);
        lemma_pow2_adds((e + kb) as nat, sh + 64);
        assert((e + kb) as nat + (sh + 64) == ka + 1074);
        assert(num * alpha == ((mb * q + r) * w) * alpha) by (nonlinear_arith)
            requires
                num * alpha == (mb * q + r) * gamma,
                gamma == w * alpha,
        ;
        assert(num == (mb * q + r) * w) by (nonlinear_arith)
            requires
                num * alpha == ((mb * q + r) * w) * alpha,
                alpha > 0,
        ;
        assert(num == q * (p * den) + r * w) by (nonlinear_arith)
            requires
                num == (mb * q + r) * w,
                w == p * pow2(kb),
                den == mb * pow2(kb),
        ;
        assert(r * w < p * den) by (nonlinear_arith)
            requires
                r < mb,
                w > 0,
                w == p * pow2(kb),
                den == mb * pow2(kb),
        ;
        assert(r * w > 0 <==> r > 0) by (nonlinear_arith)
            requires
                w > 0,
        ;
        lemma_mul_basics(num as int);
    } else {
        let n = pow2((-e) as nat);
        let w = pow2(kb);
        lemma_pow2_adds(ka + 1074, (-e) as nat);
        lemma_pow2_adds(kb, sh + 64);
        assert(ka + 1074 + (-e) as nat == kb + (sh + 64));
        assert((num * n) * alpha == ((mb * q + r) * w) * alpha) by (nonlinear_arith)
            requires
                num * alpha == (mb * q + r) * gamma,
                gamma * n == w * alpha,
        ;
        assert(num * n == (mb * q + r) * w) by (nonlinear_arith)
            requires
                (num * n) * alpha == ((mb * q + r) * w) * alpha,
                alpha > 0,
        ;
        assert(num * n == q * den + r * w) by (nonlinear_arith)
            requires
                num * n == (mb * q + r) * w,
                den == mb * w,
        ;
        assert(r * w < den) by (nonlinear_arith)
            requires
                r < mb,
                w > 0,
                den == mb * w,
        ;
        assert(r * w > 0 <==> r > 0) by (nonlinear_arith)
            requires
                w > 0,
        ;
        lemma_mul_basics(den as int);
    }
}

impl Double {
    /// Whole part, and whether the fraction is positive and at least a half.
    fn split(self) -> (r: (u64, bool, bool))
        ensures
            r.0 == num_floor(self@),
            r.1 == (self@ % one() > 0),
            r.2 == (2 * (self@ % one()) >= one()),
    {
        let (m, k) = self.parts();
        proof {
            lemma2_to64();
            lemma2_to64_rest();
            lemma_pow2_pos(1074);
            lemma_pow2_pos(k as nat);
        }
        if k >= 1074 {
            let j: u32 = k - 1074;
            proof {
                lemma_pow2_adds(j as nat, 1074);
                lemma_pow2_pos(j as nat);
                let w = (m as nat) * pow2(j as nat);
                assert(self@ == w * one() + 0) by (nonlinear_arith)
                    requires
                        self@ == m * pow2(k as nat),
                        pow2(k as nat) == pow2(j as nat) * one(),
                        w == (m as nat) * pow2(j as nat),
                ;
                lemma_fundamental_div_mod_converse(self@ as int, one() as int, w as int, 0);
                if k == 1074 {
                    lemma_mul_basics(m as int);
                }
            }
            if j > 11 {
                proof {
                    if j > 12 {
                        lemma_pow2_strictly_increases(12, j as nat);
                    }
                    assert((m as nat) * pow2(j as nat) >= FRAC * 4096) by (nonlinear_arith)
                        requires
                            m >= FRAC,
                            pow2(j as nat) >= 4096,
                    ;
                }
                return (u64::MAX, false, false);
            }
            let pw: u128 = power(j);
            proof {
                if j < 11 {
                    lemma_pow2_strictly_increases(j as nat, 11);
                }
                assert(m * pw < SIG * 4096) by (nonlinear_arith)
                    requires
                        m < SIG,
                        pw <= 2048,
                ;
            }
            let w: u128 = (m as u128) * pw;
            if w > u64::MAX as u128 {
                (u64::MAX, false, false)
            } else {
                (w as u64, false, false)
            }
        } else {
            let f: u32 = 1074 - k;
            let ghost pf: nat = pow2(f as nat);
            proof {
                lemma_pow2_adds(f as nat, k as nat);
                lemma_pow2_pos(f as nat);
                lemma_fraction(m as nat, pow2(k as nat), pf, self@);
            }
            if f >= 55 {
                proof {
                    lemma_pow2_strictly_increases(54, f as nat);
                    lemma_basic_div(m as int, pf as int);
                    lemma_small_mod(m as nat, pf);
                }
                return (0, m > 0, false);
            }
            let pw: u128 = power(f);
            let w: u128 = (m as u128) / pw;
            let r: u128 = (m as u128) % pw;
            proof {
                lemma_div_nonincreasing(m as int, pw as int);
                lemma_mod_bound(m as int, pw as int);
            }
            (w as u64, r > 0, 2 * r >= pw)
        }
    }

    /// The whole part; numbers beyond the range of `u64` give its maximum.
    pub fn floor(self) -> (r: u64)
        ensures
            r == num_floor(self@),
    {
        self.split().0
    }

    /// The smallest whole number that is not smaller; numbers beyond the range
    /// of `u64` give its maximum.
    pub fn ceil(self) -> (r: u64)
        ensures
            r == num_ceil(self@),
    {
        let (w, some, _half) = self.split();
        proof {
            lemma_pow2_pos(1074);
            let o = one() as int;
            let a = self@ as int;
            lemma_fundamental_div_mod(a, o);
            lemma_mod_bound(a, o);
            if some {
                lemma_step(a / o, o);
                lemma_fundamental_div_mod_converse(a + o - 1, o, a / o + 1, a % o - 1);
            } else {
                lemma_fundamental_div_mod_converse(a + o - 1, o, a / o, o - 1);
            }
        }
        if some && w < u64::MAX {
            w + 1
        } else {
            w
        }
    }

    /// The nearest whole number, halves going up; numbers beyond the range of
    /// `u64` give its maximum.
    pub fn round(self) -> (r: u64)
        ensures
            r == num_round(self@),
    {
        let (w, _some, half) = self.split();
        proof {
            lemma_pow2_pos(1074);
            let o = one() as int;
            let a = self@ as int;
            lemma_fundamental_div_mod(a, o);
            lemma_mod_bound(a, o);
            lemma_step(a / o, o);
            assert((2 * o) * (a / o) == 2 * (o * (a / o))) by (nonlinear_arith);
            assert((2 * o) * (a / o + 1) == 2 * (o * (a / o + 1))) by (nonlinear_arith);
            if half {
                lemma_fundamental_div_mod_converse(2 * a + o, 2 * o, a / o + 1, 2 * (a % o) - o);
            } else {
                lemma_fundamental_div_mod_converse(2 * a + o, 2 * o, a / o, 2 * (a % o) + o);
            }
        }
        if half && w < u64::MAX {
            w + 1
        } else {
            w
        }
    }
}

proof fn lemma_step(q: int, o: int)
    ensures
        o * (q + 1) == o * q + o,
{
    assert(o * (q + 1) == o * q + o) by (nonlinear_arith);
}

/// Whole part and fraction of `m * c` measured in steps of `f * c`.
proof fn lemma_fraction(m: nat, c: nat, f: nat, a: nat)
    requires
        c > 0,
        f > 0,
        a == m * c,
        one() == f * c,
    ensures
        a / one() == m / f,
        a % one() > 0 <==> m % f > 0,
        2 * (a % one()) >= one() <==> 2 * (m % f) >= f,
{
    let q = m / f;
    let r = m % f;
    lemma_fundamental_div_mod(m as int, f as int);
    lemma_mod_bound(m as int, f as int);
    assert(a == one() * q + r * c) by (nonlinear_arith)
        requires
            a == m * c,
            m == f * q + r,
            one() == f * c,
    ;
    assert(r * c < one()) by (nonlinear_arith)
        requires
            r < f,
            c > 0,
            one() == f * c,
    ;
    assert(0 <= r * c) by (nonlinear_arith);
    lemma_fundamental_div_mod_converse(a as int, one() as int, q as int, (r * c) as int);
    assert(r * c > 0 <==> r > 0) by (nonlinear_arith)
        requires
            c > 0,
    ;
    assert(2 * (r * c) >= one() <==> 2 * r >= f) by (nonlinear_arith)
        requires
            c > 0,
            one() == f * c,
    ;
}

/// The number nearest to a positive quotient of at least one unit is positive,
/// and finite where the quotient is far from the limit.
pub proof fn lemma_nearest_range(num: nat, den: nat)
    requires
        den > 0,
    ensures
        num >= den ==> nearest(num, den) > 0,
        num / den < pow2(2097) ==> nearest(num, den) < infinity(),
        nearest(num, den) <= infinity(),
{
    let n = num / den;
    let k = excess(n);
    let step = den * pow2(k);
    let q = num / step;
    lemma2_to64();
    lemma2_to64_rest();
    lemma_excess_range(n);
    lemma_pow2_pos(k);
    lemma_pow2_pos(2098);
    lemma_div_denominator(num as int, den as int, pow2(k) as int);
    assert(q == n / pow2(k));
    assert(step > 0) by (nonlinear_arith)
        requires
            den > 0,
            pow2(k) > 0,
            step == den * pow2(k),
    ;
    lemma_fundamental_div_mod(n as int, pow2(k) as int);
    lemma_mod_bound(n as int, pow2(k) as int);
    if num >= den {
        lemma_div_non_zero(num as int, den as int);
        assert(q >= 1) by {
            if q == 0 {
                lemma_mul_basics(pow2(k) as int);
                assert(n < pow2(k));
                if k > 0 {
                    lemma_pow2_strictly_increases(k, 52 + k);
                }
            }
        }
        assert((q + 0) * pow2(k) >= 1) by (nonlinear_arith)
            requires
                q >= 1,
                pow2(k) >= 1,
        ;
        assert((q + 1) * pow2(k) >= 1) by (nonlinear_arith)
            requires
                q >= 1,
                pow2(k) >= 1,
        ;
    }
    if n < pow2(2097) {
        lemma_pow2_strictly_increases(2097, 2098);
        if k > 2044 {
            if 52 + k > 2097 {
                lemma_pow2_strictly_increases(2097, 52 + k);
            }
            assert(false);
        }
        assert(q < SIG) by {
            if q >= SIG {
                lemma_pow2_adds(53, k);
                assert(pow2(k) * q >= pow2(53) * pow2(k)) by (nonlinear_arith)
                    requires
                        q >= pow2(53),
                ;
                assert(n >= pow2(53 + k));
            }
        }
        lemma_pow2_adds(53, 2044);
        if k < 2044 {
            lemma_pow2_strictly_increases(k, 2044);
        }
        assert((q + 1) * pow2(k) <= pow2(53) * pow2(2044)) by (nonlinear_arith)
            requires
                q + 1 <= pow2(53),
                pow2(k) <= pow2(2044),
        ;
        assert((q + 0) * pow2(k) <= (q + 1) * pow2(k)) by (nonlinear_arith);
    }
}

/// What the excess says of the size of a number.
pub proof fn lemma_excess_range(n: nat)
    ensures
        excess(n) == 0 ==> n < SIG,
        excess(n) > 0 ==> pow2(52 + excess(n)) <= n,
        n < pow2(53 + excess(n)),
    decreases n,
{
    lemma2_to64_rest();
    if n >= SIG {
        lemma_excess_range(n / 2);
        let k = excess(n / 2);
        lemma_pow2_unfold(54 + k);
        assert(pow2((54 + k - 1) as nat) == pow2(53 + k));
        if k > 0 {
            lemma_pow2_unfold(53 + k);
            assert(pow2((53 + k - 1) as nat) == pow2(52 + k));
        }
        assert(52 + excess(n) == 53 + k);
    }
}

/// Whole numbers are finite, and positive unless they are zero.
pub proof fn lemma_num_of_range(n: u64)
    ensures
        num_of(n as nat) < infinity(),
        n > 0 ==> num_of(n as nat) > 0,
        n == 0 ==> num_of(n as nat) == 0,
{
    lemma2_to64();
    lemma_pow2_pos(1074);
    lemma_pow2_adds(64, 1074);
    lemma_pow2_strictly_increases(1138, 2097);
    let num = (n as nat) * one();
    lemma_div_basics(num as int);
    assert(num < pow2(64) * one()) by (nonlinear_arith)
        requires
            num == (n as nat) * one(),
            n < pow2(64),
            one() > 0,
    ;
    if n > 0 {
        assert(num >= 1) by (nonlinear_arith)
            requires
                num == (n as nat) * one(),
                n > 0,
                one() > 0,
        ;
    } else {
        lemma_mul_basics(one() as int);
        lemma_nearest_zero(1);
    }
    lemma_nearest_range(num, 1);
}

/// The nearest number lies between half the whole part of the quotient and just
/// above twice that.
pub proof fn lemma_nearest_bounds(num: nat, den: nat)
    requires
        den > 0,
    ensures
        nearest(num, den) <= 2 * (num / den) + 1,
        num / den < pow2(2097) ==> num / den <= 2 * nearest(num, den),
{
    let n = num / den;
    let k = excess(n);
    let step = den * pow2(k);
    let q = num / step;
    lemma2_to64();
    lemma2_to64_rest();
    lemma_excess_range(n);
    lemma_pow2_pos(k);
    lemma_div_denominator(num as int, den as int, pow2(k) as int);
    lemma_fundamental_div_mod(n as int, pow2(k) as int);
    lemma_mod_bound(n as int, pow2(k) as int);
    assert(pow2(k) * q == q * pow2(k)) by (nonlinear_arith);
    assert((q + 1) * pow2(k) == q * pow2(k) + pow2(k)) by (nonlinear_arith);
    assert((q + 0) * pow2(k) == q * pow2(k));
    if k > 0 {
        lemma_pow2_strictly_increases(k, 52 + k);
        lemma_pow2_unfold(k + 1);
        if k + 1 < 52 + k {
            lemma_pow2_strictly_increases(k + 1, 52 + k);
        }
    }
    lemma_nearest_range(num, den);
}

/// Whole numbers below `2^53` are represented exactly.
pub proof fn lemma_num_of_exact(n: nat)
    requires
        n < SIG,
    ensures
        num_of(n) == n * one(),
        n * one() < infinity(),
{
    lemma2_to64();
    lemma2_to64_rest();
    lemma_pow2_pos(1074);
    lemma_pow2_adds(53, 1074);
    lemma_pow2_strictly_increases(1127, 2098);
    assert(n * one() < pow2(53) * one()) by (nonlinear_arith)
        requires
            n < pow2(53),
            one() > 0,
    ;
    if n == 0 {
        lemma_mul_basics(one() as int);
        lemma_nearest_zero(1);
    } else {
        if n >= FRAC {
            lemma_exact_up(n, 0);
        } else {
            assert(n * pow2(0) == n);
            lemma_exact_up(n, 1);
        }
    }
}

/// Shifting `n` up until it fills a significand leaves nothing to round.
proof fn lemma_exact_up(n: nat, sh: nat)
    requires
        0 < n < SIG,
        sh <= 52,
        sh > 0 ==> n * pow2((sh - 1) as nat) < FRAC,
        sh == 0 ==> n >= FRAC,
    ensures
        nearest(n * one(), 1) == n * one(),
    decreases 52 - sh,
{
    lemma2_to64();
    lemma2_to64_rest();
    let m = n * pow2(sh);
    let num = n * one();
    lemma_pow2_pos(sh);
    lemma_pow2_adds(sh, (1074 - sh) as nat);
    if sh > 0 {
        lemma_pow2_unfold(sh);
        assert(m == 2 * (n * pow2((sh - 1) as nat))) by (nonlinear_arith)
            requires
                pow2(sh) == 2 * pow2((sh - 1) as nat),
                m == n * pow2(sh),
        ;
    } else {
        lemma_mul_basics(n as int);
        assert(pow2(sh) == 1);
        assert(m == n);
    }
    assert(m < SIG);
    if m >= FRAC {
        assert(num == m * pow2((1074 - sh) as nat)) by (nonlinear_arith)
            requires
                one() == pow2(sh) * pow2((1074 - sh) as nat),
                m == n * pow2(sh),
                num == n * one(),
        ;
        lemma_pow2_pos((1074 - sh) as nat);
        lemma_whole(num, m, (1074 - sh) as nat, 0);
        assert(m == m * pow2(0) + 0);
        lemma_round(num, 1, m, (1074 - sh) as int, 0, 0, m, 0);
        lemma_encode(m, (1074 - sh) as nat);
        assert((m + 0) * pow2((1074 - sh) as nat) == num);
    } else {
        if sh == 52 {
            assert(n * pow2(52) >= pow2(52)) by (nonlinear_arith)
                requires
                    n >= 1,
            ;
        }
        lemma_exact_up(n, sh + 1);
    }
}

/// The whole number that `n` becomes when it is held as a binary64 number.
pub fn round_whole(n: u64) -> (r: u128)
    ensures
        r == nearest(n as nat, 1),
        r <= 0x2_0000_0000_0000_0000,
{
    proof {
        lemma2_to64();
        lemma2_to64_rest();
        assert(n * 1 == n);
        lemma_whole(n as nat, n as nat, 0, 0);
        lemma_nearest_bounds(n as nat, 1);
        lemma_div_basics(n as int);
    }
    let d = Double::rounded(n as u128, false, 0, Ghost(n as nat), Ghost(1), Ghost(0));
    let (m, k) = d.parts();
    proof {
        if k > 13 {
            lemma_pow2_strictly_increases(13, k as nat);
            assert((m as nat) * pow2(k as nat) > FRAC * 0x2000) by (nonlinear_arith)
                requires
                    m >= FRAC,
                    pow2(k as nat) > 0x2000,
            ;
            assert(false);
        }
        if k < 13 {
            lemma_pow2_strictly_increases(k as nat, 13);
        }
    }
    let pw: u128 = power(k);
    proof {
        assert(m * pw <= SIG * 0x2000) by (nonlinear_arith)
            requires
                m < SIG,
                pw <= 0x2000,
        ;
    }
    (m as u128) * pw
}

/// The whole number nearest to `num / den`, ties to even.
pub open spec fn half_even(num: nat, den: nat) -> nat {
    let q = num / den;
    let r = num % den;
    if 2 * r > den || (2 * r == den && q % 2 == 1) {
        q + 1
    } else {
        q
    }
}

/// A common factor does not change what a quotient rounds to.
proof fn lemma_half_even_scale(num: nat, den: nat, c: nat)
    requires
        den > 0,
        c > 0,
    ensures
        half_even(num * c, den * c) == half_even(num, den),
{
    let q = num / den;
    let r = num % den;
    lemma_fundamental_div_mod(num as int, den as int);
    lemma_mod_bound(num as int, den as int);
    assert(num * c == q * (den * c) + r * c) by (nonlinear_arith)
        requires
            num == den * q + r,
    ;
    assert(0 <= r * c < den * c) by (nonlinear_arith)
        requires
            0 <= r < den,
            c > 0,
    ;
    lemma_fundamental_div_mod_converse((num * c) as int, (den * c) as int, q as int, (r * c) as int);
    assert(2 * (r * c) > den * c <==> 2 * r > den) by (nonlinear_arith)
        requires
            c > 0,
    ;
    assert(2 * (r * c) == den * c <==> 2 * r == den) by (nonlinear_arith)
        requires
            c > 0,
    ;
}

impl Double {
    /// Whether the number is below `2^53`, beyond which all numbers are whole.
    pub fn is_small(self) -> (r: bool)
        ensures
            r <==> self@ < SIG * one(),
    {
        let (m, k) = self.parts();
        proof {
            lemma_pow2_pos(1074);
            if k >= 1075 {
                if k > 1075 {
                    lemma_pow2_strictly_increases(1075, k as nat);
                }
                lemma_pow2_unfold(1075);
                assert(m * pow2(k as nat) >= SIG * pow2(1074)) by (nonlinear_arith)
                    requires
                        m >= FRAC,
                        SIG == 2 * FRAC,
                        pow2(k as nat) >= 2 * pow2(1074),
                ;
            } else {
                if k < 1074 {
                    lemma_pow2_strictly_increases(k as nat, 1074);
                }
                assert(m * pow2(k as nat) < SIG * pow2(1074)) by (nonlinear_arith)
                    requires
                        m < SIG,
                        pow2(k as nat) <= pow2(1074),
                        pow2(1074) > 0,
                ;
            }
        }
        k < 1075
    }

    /// The number of tenths nearest to a small number, ties to even.
    pub fn tenths(self) -> (r: u64)
        requires
            self@ < SIG * one(),
        ensures
            r == half_even(self@ * 10, one()),
            r <= 10 * SIG,
    {
        let (m, k) = self.parts();
        let x: u64 = m * 10;
        proof {
            lemma_pow2_pos(1074);
            lemma_pow2_pos(k as nat);
            if k >= 1075 {
                if k > 1075 {
                    lemma_pow2_strictly_increases(1075, k as nat);
                }
                lemma_pow2_unfold(1075);
                assert(m * pow2(k as nat) >= SIG * pow2(1074)) by (nonlinear_arith)
                    requires
                        m >= FRAC,
                        SIG == 2 * FRAC,
                        pow2(k as nat) >= 2 * pow2(1074),
                ;
                assert(false);
            }
            lemma_pow2_adds((1074 - k) as nat, k as nat);
            assert(self@ * 10 == (x as nat) * pow2(k as nat)) by (nonlinear_arith)
                requires
                    self@ == m * pow2(k as nat),
                    x == m * 10,
            ;
            lemma_pow2_pos((1074 - k) as nat);
            lemma_half_even_scale(x as nat, pow2((1074 - k) as nat), pow2(k as nat));
        }
        let e: u32 = 1074 - k;
        if e > 100 {
            proof {
                lemma2_to64();
                lemma2_to64_rest();
                lemma_pow2_strictly_increases(64, e as nat);
                lemma_small_mod(x as nat, pow2(e as nat));
                lemma_basic_div(x as int, pow2(e as nat) as int);
            }
            return 0;
        }
        let p: u128 = power(e);
        let q: u128 = x as u128 / p;
        let rest: u128 = x as u128 % p;
        proof {
            lemma_div_is_ordered_by_denominator(x as int, 1, p as int);
            lemma_div_basics(x as int);
            lemma2_to64();
            lemma2_to64_rest();
            lemma_pow2_adds(50, 50);
            if e < 100 {
                lemma_pow2_strictly_increases(e as nat, 100);
            }
            lemma_mod_bound(x as int, p as int);
            if p == 1 {
                assert(x as int % 1 == 0);
            } else {
                lemma_div_is_ordered_by_denominator(x as int, 2, p as int);
            }
        }
        if 2 * rest > p || (2 * rest == p && q % 2 == 1) {
            q as u64 + 1
        } else {
            q as u64
        }
    }

    /// A number of at least `2^53` as a multiple of a power of two.
    pub fn large(self) -> (r: (u64, u32))
        requires
            SIG * one() <= self@ < infinity(),
        ensures
            self@ == (r.0 * pow2(r.1 as nat)) * one(),
            r.1 <= 971,
    {
        let (m, k) = self.parts();
        proof {
            lemma_pow2_pos(1074);
            if k < 1074 {
                lemma_pow2_strictly_increases(k as nat, 1074);
            }
            if k <= 1074 {
                assert(m * pow2(k as nat) < SIG * pow2(1074)) by (nonlinear_arith)
                    requires
                        m < SIG,
                        pow2(k as nat) <= pow2(1074),
                        pow2(1074) > 0,
                ;
                assert(false);
            }
            lemma_pow2_adds((k - 1074) as nat, 1074);
            assert(m * (pow2((k - 1074) as nat) * pow2(1074)) == (m * pow2((k - 1074) as nat))
                * pow2(1074)) by (nonlinear_arith);
        }
        (m, k - 1074)
    }
}

} // verus!
