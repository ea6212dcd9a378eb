//! Rates: how much per second, and what part of a whole.

use vstd::arithmetic::div_mod::*;
use vstd::arithmetic::mul::*;
use vstd::arithmetic::power2::*;
use vstd::prelude::*;

use crate::double;
use crate::double::Double;

verus! {

/// Nanoseconds in a second.
pub const NANOS: u64 = 1_000_000_000;

/// `ns` nanoseconds in seconds.
pub open spec fn secs(ns: u64) -> nat {
    double::num_add(
        double::num_of((ns / NANOS) as nat),
        double::num_div(double::num_of((ns % NANOS) as nat), double::num_of(NANOS as nat)),
    )
}

/// `amount` within `ns` nanoseconds, per second.
pub open spec fn per_second(amount: u64, ns: u64) -> nat {
    double::num_div(double::num_of(amount as nat), secs(ns))
}

/// A positive time is a positive finite number of seconds, and never far below
/// a nanosecond.
pub proof fn lemma_secs(ns: u64)
    ensures
        secs(ns) < double::infinity(),
        ns > 0 ==> secs(ns) > 0,
        ns > 0 ==> secs(ns) * 0x1_0000_0000_0000 >= double::one(),
        secs(ns) < 0x100_0000_0000 * double::one(),
{
    let s = (ns / NANOS) as nat;
    let r = (ns % NANOS) as nat;
    let o = double::one();
    lemma2_to64();
    lemma2_to64_rest();
    lemma_pow2_pos(1074);
    double::lemma_num_of_exact(s);
    double::lemma_num_of_exact(r);
    double::lemma_num_of_exact(NANOS as nat);
    lemma_pow2_strictly_increases(63, 1074);
    lemma_pow2_adds(48, 1026);
    lemma_pow2_strictly_increases(1, 1026);
    lemma_pow2_pos(2098);
    let a = double::num_of(s);
    let den: nat = (NANOS as nat) * o;
    let num = (r * o) * o;
    assert(den > 0) by (nonlinear_arith)
        requires
            den == NANOS * o,
            o > 0,
    ;
    let n = num / den;
    assert(num == o * (r * o)) by (nonlinear_arith)
        requires
            num == (r * o) * o,
    ;
    assert(den == o * NANOS) by (nonlinear_arith)
        requires
            den == NANOS * o,
    ;
    lemma_mul_basics(o as int);
    assert(r * o >= 0) by (nonlinear_arith);
    lemma_truncated(o, r * o, NANOS as nat);
    assert(n == (r * o) / (NANOS as nat));
    lemma_fundamental_div_mod((r * o) as int, NANOS as int);
    lemma_mod_bound((r * o) as int, NANOS as int);
    assert(r * o <= (NANOS - 1) * o) by (nonlinear_arith)
        requires
            r <= NANOS - 1,
    ;
    assert((NANOS - 1) * o == NANOS * o - o) by (nonlinear_arith);
    assert(n < o) by (nonlinear_arith)
        requires
            NANOS * n <= r * o,
            r * o < NANOS * o,
    ;
    lemma_pow2_strictly_increases(1074, 2097);
    double::lemma_nearest_bounds(num, den);
    let b = double::num_div(double::num_of(r), double::num_of(NANOS as nat));
    assert(b == double::nearest(num, den));
    assert(s * o < 0x10_0000_0000 * o) by (nonlinear_arith)
        requires
            s < 0x10_0000_0000,
            o > 0,
    ;
    lemma_pow2_adds(37, 1074);
    lemma_pow2_strictly_increases(1111, 2097);
    lemma_div_basics((a + b) as int);
    double::lemma_nearest_bounds(a + b, 1);
    double::lemma_nearest_range(a + b, 1);
    if ns > 0 {
        if s > 0 {
            assert(s * o >= o) by (nonlinear_arith)
                requires
                    s >= 1,
            ;
        } else {
            assert(r * o >= o) by (nonlinear_arith)
                requires
                    r >= 1,
            ;
            assert(NANOS * (n + 1) > r * o) by (nonlinear_arith)
                requires
                    r * o < NANOS * n + NANOS,
            ;
        }
    }
}

proof fn lemma_truncated(o: nat, x: nat, d: nat)
    requires
        o > 0,
        d > 0,
    ensures
        (o * x) / (o * d) == x / d,
{
    lemma_fundamental_div_mod(x as int, d as int);
    lemma_mod_bound(x as int, d as int);
    let q = x / d;
    let r = x % d;
    assert(o * x == q * (o * d) + o * r) by (nonlinear_arith)
        requires
            x == d * q + r,
    ;
    assert(0 <= o * r < o * d) by (nonlinear_arith)
        requires
            0 <= r < d,
            o > 0,
    ;
    lemma_fundamental_div_mod_converse((o * x) as int, (o * d) as int, q as int, (o * r) as int);
}

/// Processor time: `ticks` ticks in seconds.
pub open spec fn tick_secs(ticks: u64, clk: u64) -> nat {
    double::num_div(double::num_of(ticks as nat), double::num_of(clk as nat))
}

/// `ticks` ticks within `ns` nanoseconds, in percent of one processor.
pub open spec fn cpu_share(ticks: u64, clk: u64, ns: u64) -> nat {
    double::num_mul(
        double::num_div(
            double::num_of(ticks as nat),
            double::num_mul(double::num_of(clk as nat), secs(ns)),
        ),
        double::num_of(100),
    )
}

proof fn lemma_clock(clk: u64, ns: u64)
    requires
        clk > 0,
        ns > 0,
    ensures
        double::num_mul(double::num_of(clk as nat), secs(ns)) > 0,
        double::num_mul(double::num_of(clk as nat), secs(ns)) < double::infinity(),
{
    let o = double::one();
    let a = double::num_of(clk as nat);
    let b = secs(ns);
    lemma2_to64();
    lemma2_to64_rest();
    lemma_pow2_pos(1074);
    lemma_secs(ns);
    double::lemma_num_of_range(clk);
    let whole = (clk as nat) * o;
    lemma_div_basics(whole as int);
    assert(whole < pow2(64) * o) by (nonlinear_arith)
        requires
            whole == (clk as nat) * o,
            clk < pow2(64),
            o > 0,
    ;
    lemma_pow2_adds(64, 1074);
    lemma_pow2_strictly_increases(1138, 2097);
    double::lemma_nearest_bounds(whole, 1);
    assert(whole >= o) by (nonlinear_arith)
        requires
            whole == (clk as nat) * o,
            clk >= 1,
    ;
    lemma_pow2_adds(49, 1025);
    lemma_pow2_pos(1025);
    assert(a * b >= o) by (nonlinear_arith)
        requires
            2 * a >= o,
            b * 0x1_0000_0000_0000 >= o,
            o == 0x2_0000_0000_0000 * pow2(1025),
            pow2(1025) >= 1,
    ;
    assert(a * b < (0x4_0000_0000_0000_0000 * 0x100_0000_0000 * o) * o) by (nonlinear_arith)
        requires
            a < 0x4_0000_0000_0000_0000 * o,
            b < 0x100_0000_0000 * o,
            o > 0,
    ;
    lemma_pow2_adds(53, 53);
    lemma_pow2_adds(106, 1074);
    lemma_pow2_strictly_increases(1180, 2097);
    lemma_fundamental_div_mod((a * b) as int, o as int);
    lemma_mod_bound((a * b) as int, o as int);
    let n = (a * b) / o;
    assert(n < 0x4_0000_0000_0000_0000 * 0x100_0000_0000 * o) by (nonlinear_arith)
        requires
            o * n <= a * b,
            a * b < (0x4_0000_0000_0000_0000 * 0x100_0000_0000 * o) * o,
            o > 0,
    ;
    double::lemma_nearest_range(a * b, o);
}

/// Processor time: `ticks` ticks in seconds.
pub fn tick_seconds(ticks: u64, clk: u64) -> (r: Double)
    requires
        clk > 0,
    ensures
        r@ == tick_secs(ticks, clk),
{
    proof {
        double::lemma_num_of_range(ticks);
        double::lemma_num_of_range(clk);
    }
    Double::from_u64(ticks).over(Double::from_u64(clk))
}

/// `ticks` ticks within `ns` nanoseconds, in percent of one processor.
pub fn share_of_cpu(ticks: u64, clk: u64, ns: u64) -> (r: Double)
    requires
        clk > 0,
        ns > 0,
    ensures
        r@ == cpu_share(ticks, clk, ns),
{
    let t = seconds(ns);
    proof {
        double::lemma_num_of_range(ticks);
        double::lemma_num_of_range(clk);
        double::lemma_num_of_range(100);
        lemma_clock(clk, ns);
    }
    let budget = Double::from_u64(clk).times(t);
    Double::from_u64(ticks).over(budget).times(Double::from_u64(100))
}

/// `ns` nanoseconds in seconds.
pub fn seconds(ns: u64) -> (r: Double)
    ensures
        r@ == secs(ns),
        r@ < double::infinity(),
        ns > 0 ==> r@ > 0,
{
    proof {
        lemma_secs(ns);
        double::lemma_num_of_range(ns / NANOS);
        double::lemma_num_of_range(ns % NANOS);
        double::lemma_num_of_range(NANOS);
    }
    let whole = Double::from_u64(ns / NANOS);
    let part = Double::from_u64(ns % NANOS);
    let unit = Double::from_u64(NANOS);
    whole.plus(part.over(unit))
}

/// `amount` within `ns` nanoseconds, per second.
pub fn each_second(amount: u64, ns: u64) -> (r: Double)
    requires
        ns > 0,
    ensures
        r@ == per_second(amount, ns),
{
    let t = seconds(ns);
    proof {
        double::lemma_num_of_range(amount);
    }
    Double::from_u64(amount).over(t)
}

/// Nothing within any time is nothing per second.
pub proof fn lemma_nothing(ns: u64)
    requires
        ns > 0,
    ensures
        per_second(0, ns) == 0,
{
    lemma_secs(ns);
    double::lemma_num_of_range(0);
    assert(0nat * double::one() == 0) by (nonlinear_arith);
    double::lemma_nearest_zero(secs(ns));
}

} // verus!
