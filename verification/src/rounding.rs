//! Rounding to binary64 keeps the order of numbers and leaves alone what needs no
//! rounding.

use vstd::arithmetic::div_mod::*;
use vstd::arithmetic::mul::*;
use vstd::arithmetic::power2::*;
use vstd::prelude::*;

use crate::double;
use crate::double::SIG;

verus! {

/// The quotient that is rounded, its remainder, and where its significand ends.
proof fn lemma_parts(num: nat, den: nat)
    requires
        den > 0,
    ensures
        ({
            let n = num / den;
            let k = double::excess(n);
            let step = den * pow2(k);
            let q = num / step;
            &&& step > 0
            &&& pow2(k) > 0
            &&& q == n / pow2(k)
            &&& num == step * q + num % step
            &&& num % step < step
            &&& q < SIG
            &&& k > 0 ==> 2 * q >= SIG
        }),
{
    let n = num / den;
    let k = double::excess(n);
    let step = den * pow2(k);
    let q = num / step;
    lemma2_to64();
    lemma2_to64_rest();
    double::lemma_excess_range(n);
    lemma_pow2_pos(k);
    lemma_div_denominator(num as int, den as int, pow2(k) as int);
    assert(step > 0) by (nonlinear_arith)
        requires
            den > 0,
            pow2(k) > 0,
            step == den * pow2(k),
    ;
    lemma_fundamental_div_mod(num as int, step as int);
    lemma_mod_bound(num as int, step as int);
    lemma_fundamental_div_mod(n as int, pow2(k) as int);
    lemma_mod_bound(n as int, pow2(k) as int);
    lemma_pow2_adds(53, k);
    if q >= SIG {
        assert(pow2(k) * q >= pow2(53) * pow2(k)) by (nonlinear_arith)
            requires
                q >= pow2(53),
        ;
    }
    if k > 0 {
        lemma_pow2_adds(52, k);
        if 2 * q < SIG {
            assert(pow2(k) * q + pow2(k) <= pow2(52) * pow2(k)) by (nonlinear_arith)
                requires
                    q + 1 <= pow2(52),
            ;
        }
    }
}

proof fn lemma_excess_grows(a: nat, b: nat)
    requires
        a <= b,
    ensures
        double::excess(a) <= double::excess(b),
{
    double::lemma_excess_range(a);
    double::lemma_excess_range(b);
    if double::excess(a) > double::excess(b) {
        if 52 + double::excess(a) > 53 + double::excess(b) {
            lemma_pow2_strictly_increases(53 + double::excess(b), 52 + double::excess(a));
        }
    }
}

/// A larger number is not rounded to a smaller one.
pub proof fn lemma_nearest_monotone(a: nat, b: nat, den: nat)
    requires
        a <= b,
        den > 0,
    ensures
        double::nearest(a, den) <= double::nearest(b, den),
{
    let na = a / den;
    let nb = b / den;
    let ka = double::excess(na);
    let kb = double::excess(nb);
    let sa = den * pow2(ka);
    let sb = den * pow2(kb);
    let qa = a / sa;
    let qb = b / sb;
    lemma_parts(a, den);
    lemma_parts(b, den);
    lemma_div_is_ordered(a as int, b as int, den as int);
    lemma_excess_grows(na, nb);
    let ua: nat = if 2 * (a % sa) > sa || (2 * (a % sa) == sa && qa % 2 == 1) {
        1
    } else {
        0
    };
    let ub: nat = if 2 * (b % sb) > sb || (2 * (b % sb) == sb && qb % 2 == 1) {
        1
    } else {
        0
    };
    if ka == kb {
        lemma_div_is_ordered(a as int, b as int, sa as int);
        assert(qa + ua <= qb + ub) by {
            if qa == qb {
                assert(a % sa <= b % sb);
            }
        }
        assert((qa + ua) * pow2(ka) <= (qb + ub) * pow2(kb)) by (nonlinear_arith)
            requires
                qa + ua <= qb + ub,
                ka == kb,
        ;
    } else {
        lemma_pow2_unfold((ka + 1) as nat);
        if ka + 1 < kb {
            lemma_pow2_strictly_increases((ka + 1) as nat, kb);
        }
        assert((qa + ua) * pow2(ka) <= (qb + ub) * pow2(kb)) by (nonlinear_arith)
            requires
                qa + ua <= SIG,
                2 * qb >= SIG,
                pow2(kb) >= 2 * pow2(ka),
        ;
    }
}

/// What has a significand needs no rounding.
pub proof fn lemma_nearest_exact(m: nat, k: nat, den: nat)
    requires
        m < SIG,
        den > 0,
        m * pow2(k) < double::infinity(),
    ensures
        double::nearest((m * pow2(k)) * den, den) == m * pow2(k),
{
    let n = m * pow2(k);
    let num = n * den;
    lemma2_to64_rest();
    lemma_pow2_pos(k);
    lemma_div_by_multiple(n as int, den as int);
    assert(num / den == n);
    let j = double::excess(n);
    double::lemma_excess_range(n);
    lemma_pow2_adds(53, k);
    assert(n < pow2(53) * pow2(k)) by (nonlinear_arith)
        requires
            m < pow2(53),
            pow2(k) > 0,
            n == m * pow2(k),
    ;
    if j > k {
        if 52 + j > 53 + k {
            lemma_pow2_strictly_increases(53 + k, 52 + j);
        }
        assert(false);
    }
    lemma_pow2_adds((k - j) as nat, j);
    let q = m * pow2((k - j) as nat);
    let step = den * pow2(j);
    lemma_pow2_pos(j);
    assert(step > 0) by (nonlinear_arith)
        requires
            den > 0,
            pow2(j) > 0,
            step == den * pow2(j),
    ;
    assert(n == q * pow2(j)) by (nonlinear_arith)
        requires
            n == m * pow2(k),
            pow2(k) == pow2((k - j) as nat) * pow2(j),
            q == m * pow2((k - j) as nat),
    ;
    assert(num == q * step) by (nonlinear_arith)
        requires
            num == n * den,
            n == q * pow2(j),
            step == den * pow2(j),
    ;
    lemma_fundamental_div_mod_converse(num as int, step as int, q as int, 0);
}

/// A small whole number times `1.0` needs no rounding.
pub proof fn lemma_whole_exact(n: nat, den: nat)
    requires
        n < SIG,
        den > 0,
    ensures
        double::nearest((n * double::one()) * den, den) == n * double::one(),
        double::num_of(n) == n * double::one(),
        n * double::one() < double::infinity(),
{
    double::lemma_num_of_exact(n);
    lemma_nearest_exact(n, 1074, den);
}

/// Machine integers are at most `2^64`.
pub proof fn lemma_num_of_at_most(n: u64)
    ensures
        double::num_of(n as nat) <= pow2(1138),
        n > 0 ==> double::num_of(n as nat) >= double::one(),
{
    lemma2_to64();
    lemma_pow2_adds(64, 1074);
    lemma_pow2_strictly_increases(1138, 2098);
    lemma_mul_basics(pow2(1138) as int);
    assert((n as nat) * double::one() <= pow2(64) * double::one()) by (nonlinear_arith)
        requires
            n <= pow2(64),
    ;
    lemma_nearest_monotone((n as nat) * double::one(), pow2(1138), 1);
    lemma_nearest_exact(1, 1138, 1);
    if n > 0 {
        assert(1 * double::one() <= (n as nat) * double::one()) by (nonlinear_arith)
            requires
                n >= 1,
        ;
        lemma_whole_exact(1, 1);
        lemma_mul_basics(double::one() as int);
        lemma_nearest_monotone(1 * double::one(), (n as nat) * double::one(), 1);
    }
}

/// A product is at most the product of bounds.
pub proof fn lemma_mul_at_most(a: nat, b: nat, j: nat, k: nat)
    requires
        a <= pow2(j),
        b <= pow2(k),
        j < 2098,
        k < 2098,
        1074 <= j + k < 1074 + 2098,
    ensures
        double::num_mul(a, b) <= pow2((j + k - 1074) as nat),
{
    let e = (j + k - 1074) as nat;
    lemma_pow2_strictly_increases(j, 2098);
    lemma_pow2_strictly_increases(k, 2098);
    lemma_pow2_strictly_increases(e, 2098);
    lemma_pow2_adds(j, k);
    lemma_pow2_adds(e, 1074);
    lemma_pow2_pos(1074);
    lemma_mul_upper_bound(a as int, pow2(j) as int, b as int, pow2(k) as int);
    lemma_mul_basics(pow2(e) as int);
    lemma_nearest_monotone(a * b, pow2(e) * double::one(), double::one());
    lemma_nearest_exact(1, e, double::one());
}

/// A quotient by at least one is at most a bound of the dividend.
pub proof fn lemma_div_at_most(a: nat, b: nat, j: nat)
    requires
        a <= pow2(j),
        b >= double::one(),
        j < 2098,
    ensures
        double::num_div(a, b) <= pow2(j),
{
    lemma_pow2_strictly_increases(j, 2098);
    lemma_pow2_pos(1074);
    if b < double::infinity() {
        assert(a * double::one() <= pow2(j) * b) by (nonlinear_arith)
            requires
                a <= pow2(j),
                double::one() <= b,
        ;
        lemma_mul_basics(pow2(j) as int);
        lemma_nearest_monotone(a * double::one(), pow2(j) * b, b);
        lemma_nearest_exact(1, j, b);
    }
}

} // verus!
