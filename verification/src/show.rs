//! Numbers and times as people read them.

use vstd::arithmetic::div_mod::*;
use vstd::arithmetic::mul::*;
use vstd::arithmetic::power2::*;
use vstd::prelude::*;
use vstd::string::*;

use crate::double;
use crate::double::{round_whole, Double, SIG};
use crate::text;
use crate::text::{push_decimal, push_padded, push_two};

verus! {

/// Seconds by which Asia/Shanghai is ahead of UTC, all year round.
pub const SHANGHAI_OFFSET: u64 = 28800;

/// Hour, minute and second of a number of seconds since a midnight.
pub open spec fn clock_of(t: int) -> (u32, u32, u32) {
    (((t / 3600) % 24) as u32, ((t / 60) % 60) as u32, (t % 60) as u32)
}

/// Wall-clock hour, minute and second in Asia/Shanghai for a UNIX timestamp. The
/// sum with the offset wraps around beyond the range of `u64`.
pub fn shanghai_hms(utc_secs: u64) -> (r: (u32, u32, u32))
    ensures
        r == clock_of(((utc_secs + SHANGHAI_OFFSET) % 0x1_0000_0000_0000_0000) as int),
{
    let local: u64 = ((utc_secs as u128 + SHANGHAI_OFFSET as u128) % 0x1_0000_0000_0000_0000)
        as u64;
    (((local / 3600) % 24) as u32, ((local / 60) % 60) as u32, (local % 60) as u32)
}

/// The time of day `r` shows on the clock on every day `d`.
proof fn lemma_time_of_day(d: int, r: int)
    requires
        0 <= d,
        0 <= r < 86400,
    ensures
        clock_of(86400 * d + r) == ((r / 3600) as u32, ((r % 3600) / 60) as u32, (r % 60) as u32),
        r == 3600 * (r / 3600) + 60 * ((r % 3600) / 60) + r % 60,
        r / 3600 < 24,
        (r % 3600) / 60 < 60,
{
    let t = 86400 * d + r;
    let h = r / 3600;
    let m = (r % 3600) / 60;
    let s = r % 60;
    assert(r == 3600 * h + 60 * m + s);
    lemma_fundamental_div_mod_converse(t, 3600, 24 * d + h, 60 * m + s);
    lemma_fundamental_div_mod_converse(t, 60, 60 * (24 * d + h) + m, s);
    lemma_fundamental_div_mod_converse(24 * d + h, 24, d, h);
    lemma_fundamental_div_mod_converse(60 * (24 * d + h) + m, 60, 24 * d + h, m);
}

/// The clock in Asia/Shanghai shows the time of day eight hours ahead of UTC, and
/// shows the same again after a day.
pub proof fn law_shanghai_clock(utc_secs: int)
    requires
        0 <= utc_secs,
    ensures
        ({
            let (h, m, s) = clock_of(utc_secs + SHANGHAI_OFFSET);
            &&& h < 24 && m < 60 && s < 60
            &&& h * 3600 + m * 60 + s == (utc_secs + 8 * 3600) % 86400
            &&& clock_of(utc_secs + 86400 + SHANGHAI_OFFSET) == (h, m, s)
        }),
{
    let t = utc_secs + SHANGHAI_OFFSET;
    lemma_fundamental_div_mod(t, 86400);
    lemma_time_of_day(t / 86400, t % 86400);
    lemma_time_of_day(t / 86400 + 1, t % 86400);
}

/// The name and number of a process as shown.
pub open spec fn proc_label(comm: Seq<char>, pid: Option<u32>) -> Seq<char> {
    match pid {
        Some(p) => comm + seq!['('] + text::decimal(p as nat) + seq![')'],
        None => comm,
    }
}

/// The name and number of a process as shown.
pub fn proc_sort_label(comm: &str, pid: Option<u32>) -> (r: String)
    ensures
        r@ == proc_label(comm@, pid),
{
    let mut r = String::new();
    r.append(comm);
    if let Some(p) = pid {
        r.push('(');
        push_decimal(&mut r, p as u64);
        r.push(')');
    }
    assert(r@ =~= proc_label(comm@, pid));
    r
}

/// The size of a unit, in bytes.
pub open spec fn unit_size(unit: nat) -> nat {
    if unit == 0 {
        1
    } else if unit == 1 {
        1024
    } else if unit == 2 {
        1048576
    } else if unit == 3 {
        1073741824
    } else {
        1099511627776
    }
}

/// The largest unit, of five, that the speed reaches.
pub open spec fn unit_of(v: nat) -> nat {
    if v < 1024 {
        0
    } else if v < 1048576 {
        1
    } else if v < 1073741824 {
        2
    } else if v < 1099511627776 {
        3
    } else {
        4
    }
}

/// The name of a unit.
pub open spec fn unit_name(unit: nat) -> Seq<char> {
    if unit == 0 {
        "B/s"@
    } else if unit == 1 {
        "KB/s"@
    } else if unit == 2 {
        "MB/s"@
    } else if unit == 3 {
        "GB/s"@
    } else {
        "TB/s"@
    }
}

/// Tenths as a decimal with one place.
pub open spec fn one_place(tenths: nat) -> Seq<char> {
    text::decimal(tenths / 10) + seq!['.'] + text::decimal(tenths % 10)
}

/// A speed as shown: six characters for the number, with one decimal place
/// beyond plain bytes, and the unit. The number is the binary64 one nearest to
/// the speed.
pub open spec fn speed_text(bytes: u64) -> Seq<char> {
    let v = double::nearest(bytes as nat, 1);
    let u = unit_of(v);
    let number = if u == 0 {
        text::decimal(v)
    } else {
        one_place(double::half_even(v * 10, unit_size(u)))
    };
    text::pad(number, 6, ' ') + seq![' '] + unit_name(u)
}

/// Appends tenths as a decimal with one place.
fn push_tenths(r: &mut String, tenths: u64)
    ensures
        final(r)@ == old(r)@ + one_place(tenths as nat),
{
    push_decimal(r, tenths / 10);
    r.push('.');
    push_decimal(r, tenths % 10);
    assert(r@ =~= old(r)@ + one_place(tenths as nat));
}

/// A speed in bytes per second as shown.
pub fn format_speed(bytes_per_sec: u64) -> (r: String)
    ensures
        r@ == speed_text(bytes_per_sec),
{
    let v: u128 = round_whole(bytes_per_sec);
    let (size, name): (u128, &str) = if v < 1024 {
        (1, "B/s")
    } else if v < 1048576 {
        (1024, "KB/s")
    } else if v < 1073741824 {
        (1048576, "MB/s")
    } else if v < 1099511627776 {
        (1073741824, "GB/s")
    } else {
        (1099511627776, "TB/s")
    };
    let mut number = String::new();
    if v < 1024 {
        push_decimal(&mut number, v as u64);
        assert(number@ =~= text::decimal(v as nat));
    } else {
        let x: u128 = v * 10;
        let q: u128 = x / size;
        let rest: u128 = x % size;
        proof {
            assert(q <= x / 1024) by (nonlinear_arith)
                requires
                    size >= 1024,
                    q == x / size,
            ;
        }
        let tenths: u64 = if 2 * rest > size || (2 * rest == size && q % 2 == 1) {
            q as u64 + 1
        } else {
            q as u64
        };
        push_tenths(&mut number, tenths);
        assert(number@ =~= one_place(double::half_even((v * 10) as nat, size as nat)));
    }
    let mut r = String::new();
    push_padded(&mut r, number.as_str(), 6, ' ');
    r.push(' ');
    r.append(name);
    assert(r@ =~= speed_text(bytes_per_sec));
    r
}

/// A speed is shown in the unit of which it is at least one and, up to the largest
/// unit, less than 1024.
pub proof fn law_speed_units(v: nat)
    ensures
        v > 0 ==> unit_size(unit_of(v)) <= v,
        unit_of(v) < 4 ==> v < 1024 * unit_size(unit_of(v)),
{
}

/// CPU time as shown: minutes, seconds and hundredths below an hour; hours,
/// minutes and seconds from an hour on.
pub open spec fn time_text(secs: nat) -> Seq<char> {
    let cs = double::num_round(double::num_mul(secs, double::num_of(100)));
    let s = cs / 100;
    if s >= 3600 {
        two(s / 3600) + seq![':'] + two((s / 60) % 60) + seq![':'] + two(s % 60)
    } else {
        two((s / 60) % 60) + seq![':'] + two(s % 60) + seq!['.'] + two(cs % 100)
    }
}

/// A number with at least two digits.
pub open spec fn two(n: nat) -> Seq<char> {
    text::pad(text::decimal(n), 2, '0')
}

/// CPU time as shown.
pub fn fmt_time_plus(secs: Double) -> (r: String)
    ensures
        r@ == time_text(secs@),
{
    proof {
        double::lemma_num_of_range(100);
    }
    let cs: u64 = secs.times(Double::from_u64(100)).round();
    let s: u64 = cs / 100;
    let mut r = String::new();
    if s >= 3600 {
        push_two(&mut r, s / 3600);
        r.push(':');
        push_two(&mut r, (s / 60) % 60);
        r.push(':');
        push_two(&mut r, s % 60);
    } else {
        push_two(&mut r, (s / 60) % 60);
        r.push(':');
        push_two(&mut r, s % 60);
        r.push('.');
        push_two(&mut r, cs % 100);
    }
    assert(r@ =~= time_text(secs@));
    r
}

/// A number with one decimal place.
pub open spec fn number_text(d: nat) -> Seq<char> {
    if d >= double::infinity() {
        "inf"@
    } else {
        one_place(double::half_even(d * 10, double::one()))
    }
}

/// The value of decimal digits, the lowest first.
spec fn low_first(digits: Seq<u8>) -> nat
    decreases digits.len(),
{
    if digits.len() == 0 {
        0
    } else {
        digits[0] as nat + 10 * low_first(digits.drop_first())
    }
}

/// Whether all are decimal digits.
spec fn are_digits(digits: Seq<u8>) -> bool {
    forall|i: int| 0 <= i < digits.len() ==> #[trigger] digits[i] < 10
}

/// Doubles a number given by its digits, which do not end in zeros.
fn double_digits(digits: &mut Vec<u8>)
    requires
        are_digits(old(digits)@),
        old(digits)@.len() < usize::MAX,
        old(digits)@.len() > 0 ==> old(digits)@.last() > 0,
    ensures
        are_digits(final(digits)@),
        low_first(final(digits)@) == 2 * low_first(old(digits)@),
        final(digits)@.len() <= old(digits)@.len() + 1,
        final(digits)@.len() > 0 ==> final(digits)@.last() > 0,
{
    let ghost before = digits@;
    let mut i: usize = 0;
    let mut carry: u8 = 0;
    let n: usize = digits.len();
    proof {
        assert(before.skip(0) =~= before);
        assert(digits@.take(0) =~= Seq::<u8>::empty());
        assert(1 * (2 * low_first(before)) == 2 * low_first(before)) by (nonlinear_arith);
    }
    while i < n
        invariant
            i <= n == digits@.len() == before.len(),
            are_digits(digits@),
            are_digits(before),
            carry <= 1,
            forall|j: int| i <= j < n ==> digits@[j] == before[j],
            low_first(digits@.take(i as int)) + place(i as nat) * (carry + 2 * low_first(
                before.skip(i as int),
            )) == 2 * low_first(before),
            n > 0 && i == n && carry == 0 ==> digits@[n - 1] > 0,
            n > 0 ==> before[n - 1] > 0,
        decreases n - i,
    {
        let x: u8 = 2 * digits[i] + carry;
        let ghost was = digits@;
        proof {
            let rest = before.skip(i as int);
            assert(rest.drop_first() =~= before.skip(i + 1));
            assert(rest[0] == before[i as int]);
        }
        digits.set(i, x % 10);
        proof {
            assert(digits@.take(i + 1).take(i as int) =~= was.take(i as int));
            lemma_low_first_push(digits@.take(i + 1));
            let p = place(i as nat);
            let s = low_first(before.skip(i + 1));
            let d = before[i as int];
            let c1: u8 = if x >= 10 { 1 } else { 0 };
            assert(p * (carry + 2 * (d + 10 * s)) == p * (x % 10) + (10 * p) * (c1 + 2 * s))
                by (nonlinear_arith)
                requires
                    x == 2 * d + carry,
                    x % 10 + 10 * c1 == x,
            ;
        }
        carry = if x >= 10 {
            1
        } else {
            0
        };
        i += 1;
    }
    proof {
        assert(digits@.take(n as int) =~= digits@);
        assert(before.skip(n as int) =~= Seq::<u8>::empty());
    }
    if carry > 0 {
        let ghost was = digits@;
        digits.push(1);
        proof {
            assert(digits@.drop_last() =~= was);
            assert(digits@.take(n as int) =~= was);
            lemma_low_first_push(digits@);
            assert(place(n as nat) * (1 + 2 * 0) == place(n as nat)) by (nonlinear_arith);
        }
    } else {
        assert(place(n as nat) * (0 + 2 * 0) == 0) by (nonlinear_arith);
    }
}

/// The value of the digit at a position.
spec fn place(i: nat) -> nat
    decreases i,
{
    if i == 0 {
        1
    } else {
        10 * place((i - 1) as nat)
    }
}

/// The last digit counts by its place.
proof fn lemma_low_first_push(digits: Seq<u8>)
    requires
        digits.len() > 0,
    ensures
        low_first(digits) == low_first(digits.drop_last()) + place((digits.len() - 1) as nat)
            * digits.last(),
    decreases digits.len(),
{
    if digits.len() == 1 {
        assert(digits.drop_first() =~= Seq::<u8>::empty());
        assert(digits.drop_last() =~= Seq::<u8>::empty());
        assert(place(0) * digits.last() == digits.last()) by (nonlinear_arith)
            requires
                place(0) == 1,
        ;
    } else {
        let rest = digits.drop_first();
        lemma_low_first_push(rest);
        assert(rest.drop_last() =~= digits.drop_last().drop_first());
        assert(rest.last() == digits.last());
        assert(digits.drop_last()[0] == digits[0]);
        assert(place((digits.len() - 1) as nat) == 10 * place((rest.len() - 1) as nat));
        assert(10 * (place((rest.len() - 1) as nat) * digits.last()) == (10 * place(
            (rest.len() - 1) as nat,
        )) * digits.last()) by (nonlinear_arith);
    }
}

/// The digits of a multiple of a power of two, the lowest first.
fn digits_of(m: u64, k: u32) -> (r: Vec<u8>)
    requires
        m > 0,
        k <= 1000,
    ensures
        are_digits(r@),
        low_first(r@) == m * pow2(k as nat),
        r@.len() > 0,
        r@.last() > 0,
{
    let mut r: Vec<u8> = Vec::new();
    let mut n: u64 = m;
    proof {
        assert(1 * (m as nat) == m) by (nonlinear_arith);
        reveal_with_fuel(place, 21);
    }
    while n > 0
        invariant
            are_digits(r@),
            low_first(r@) + place(r@.len()) * n == m,
            n == 0 ==> r@.len() > 0 && r@.last() > 0,
            r@.len() <= 20,
            n < place((20 - r@.len()) as nat),
        decreases n,
    {
        let ghost was = r@;
        let d: u8 = (n % 10) as u8;
        r.push(d);
        proof {
            assert(r@.drop_last() =~= was);
            lemma_low_first_push(r@);
            let p = place(was.len());
            assert(p * n == p * d + (10 * p) * (n / 10)) by (nonlinear_arith)
                requires
                    n == 10 * (n / 10) + d,
            ;
            if was.len() < 20 {
                assert(place((20 - was.len()) as nat) == 10 * place((20 - r@.len()) as nat));
            }
        }
        n = n / 10;
    }
    let mut i: u32 = 0;
    proof {
        assert(place(r@.len()) * 0 == 0) by (nonlinear_arith);
        lemma2_to64();
        assert(m * pow2(0) == m) by (nonlinear_arith)
            requires
                pow2(0) == 1,
        ;
    }
    while i < k
        invariant
            i <= k <= 1000,
            are_digits(r@),
            r@.len() > 0,
            r@.last() > 0,
            r@.len() <= 20 + i,
            low_first(r@) == m * pow2(i as nat),
            m > 0,
        decreases k - i,
    {
        double_digits(&mut r);
        proof {
            lemma_pow2_unfold((i + 1) as nat);
            assert(2 * (m * pow2(i as nat)) == m * (2 * pow2(i as nat))) by (nonlinear_arith);
            lemma_pow2_pos((i + 1) as nat);
            assert(m * pow2((i + 1) as nat) > 0) by (nonlinear_arith)
                requires
                    m > 0,
                    pow2((i + 1) as nat) > 0,
            ;
        }
        i += 1;
    }
    r
}

/// The text of a number given by its digits.
proof fn lemma_digits_text(digits: Seq<u8>)
    requires
        digits.len() > 0,
        are_digits(digits),
        digits.last() > 0,
    ensures
        digits.len() == 1 ==> text::decimal(low_first(digits)) == seq![text::digit(digits[0] as nat)],
        digits.len() > 1 ==> text::decimal(low_first(digits)) == text::decimal(
            low_first(digits.drop_first()),
        ).push(text::digit(digits[0] as nat)),
        low_first(digits) > 0,
    decreases digits.len(),
{
    if digits.len() == 1 {
        assert(digits.drop_first() =~= Seq::<u8>::empty());
    } else {
        lemma_digits_text(digits.drop_first());
    }
}

/// Appends the text of a number given by its digits.
fn push_digits(r: &mut String, digits: &Vec<u8>)
    requires
        digits@.len() > 0,
        are_digits(digits@),
        digits@.last() > 0,
    ensures
        final(r)@ == old(r)@ + text::decimal(low_first(digits@)),
{
    let n: usize = digits.len();
    let mut i: usize = n;
    while i > 0
        invariant
            i <= n == digits@.len(),
            n > 0,
            are_digits(digits@),
            digits@.last() > 0,
            r@ == old(r)@ + (if i == n {
                Seq::<char>::empty()
            } else {
                text::decimal(low_first(digits@.skip(i as int)))
            }),
        decreases i,
    {
        i -= 1;
        let ghost was = r@;
        r.push((48u8 + digits[i]) as char);
        proof {
            let rest = digits@.skip(i as int);
            assert(rest.drop_first() =~= digits@.skip(i + 1));
            assert(rest.last() == digits@.last());
            lemma_digits_text(rest);
            assert(r@ =~= old(r)@ + text::decimal(low_first(rest)));
        }
    }
    assert(digits@.skip(0) =~= digits@);
}

/// A number with one decimal place.
pub fn one_decimal(d: Double) -> (r: String)
    ensures
        r@ == number_text(d@),
{
    let mut r = String::new();
    if d.is_infinite() {
        r.append("inf");
        assert(r@ =~= number_text(d@));
    } else if d.is_small() {
        push_tenths(&mut r, d.tenths());
        assert(r@ =~= number_text(d@));
    } else {
        let (m, k) = d.large();
        proof {
            lemma_pow2_pos(1074);
            lemma_pow2_pos(k as nat);
            let w = (m * pow2(k as nat)) as nat;
            assert(SIG * double::one() > 0) by (nonlinear_arith)
                requires
                    double::one() > 0,
                    SIG > 0,
            ;
            if m == 0 {
                assert(0 * pow2(k as nat) == 0) by (nonlinear_arith);
                assert(0 * double::one() == 0) by (nonlinear_arith);
            }
            assert(d@ * 10 == (w * 10) * double::one() + 0) by (nonlinear_arith)
                requires
                    d@ == w * double::one(),
            ;
            lemma_fundamental_div_mod_converse((d@ * 10) as int, double::one() as int, (w * 10) as int, 0);
        }
        push_digits(&mut r, &digits_of(m, k));
        r.push('.');
        push_decimal(&mut r, 0);
        assert(r@ =~= number_text(d@));
    }
    r
}

} // verus!
