//! What is measured between two samples.

use vstd::arithmetic::div_mod::*;
use vstd::arithmetic::power2::*;
use vstd::prelude::*;

use crate::conns;
use crate::conns::{ConnMonitor, IpAddress};
use crate::double;
use crate::double::SIG;
use crate::procfs;
use crate::rate;
use crate::rounding;
use crate::ss::SocketModel;
use crate::state;
use crate::state::AppModel;

verus! {

/// `n` as a number.
pub open spec fn whole(n: nat) -> nat {
    n * double::one()
}

/// A quotient does not depend on the unit in which its parts are counted.
pub proof fn law_quotient_has_no_unit(num: nat, den: nat, c: nat)
    requires
        den > 0,
        c > 0,
    ensures
        double::nearest(num * c, den * c) == double::nearest(num, den),
{
    lemma_div_scaled(num, den, c);
    let k = double::excess(num / den);
    let step = den * pow2(k);
    lemma_pow2_pos(k);
    assert((den * c) * pow2(k) == step * c) by (nonlinear_arith)
        requires
            step == den * pow2(k),
    ;
    assert(step > 0) by (nonlinear_arith)
        requires
            step == den * pow2(k),
            den > 0,
            pow2(k) > 0,
    ;
    lemma_div_scaled(num, step, c);
    let r = num % step;
    assert(2 * (r * c) > step * c <==> 2 * r > step) by (nonlinear_arith)
        requires
            c > 0,
    ;
    assert(2 * (r * c) == step * c <==> 2 * r == step) by (nonlinear_arith)
        requires
            c > 0,
    ;
}

proof fn lemma_div_scaled(num: nat, den: nat, c: nat)
    requires
        den > 0,
        c > 0,
    ensures
        (num * c) / (den * c) == num / den,
        (num * c) % (den * c) == (num % den) * c,
{
    let q = num / den;
    let r = num % den;
    lemma_fundamental_div_mod(num as int, den as int);
    lemma_mod_bound(num as int, den as int);
    assert(num * c == q * (den * c) + r * c) by (nonlinear_arith)
        requires
            num == den * q + r,
    ;
    assert(0 <= r * c < den * c) by (nonlinear_arith)
        requires
            0 <= r < den,
            c > 0,
    ;
    lemma_fundamental_div_mod_converse((num * c) as int, (den * c) as int, q as int, (r * c) as int);
}

/// Rounding is off by at most half of the distance between neighbours, which is one
/// unit up to `2^53` units.
pub proof fn law_nearest_is_near(num: nat, den: nat)
    requires
        den > 0,
        num / den < SIG,
    ensures
        2 * (double::nearest(num, den) * den) <= 2 * num + den,
        2 * num <= 2 * (double::nearest(num, den) * den) + den,
{
    lemma2_to64();
    lemma2_to64_rest();
    assert(double::excess(num / den) == 0);
    assert(den * pow2(0) == den) by (nonlinear_arith)
        requires
            pow2(0) == 1,
    ;
    lemma_fundamental_div_mod(num as int, den as int);
    lemma_mod_bound(num as int, den as int);
    lemma_pow2_strictly_increases(54, 2098);
    lemma_pow2_unfold(54);
    let q = num / den;
    assert((q + 1) * den == den * q + den) by (nonlinear_arith);
    assert((q + 0) * den == den * q) by (nonlinear_arith);
    assert((q + 1) * pow2(0) == q + 1) by (nonlinear_arith)
        requires
            pow2(0) == 1,
    ;
    assert((q + 0) * pow2(0) == q) by (nonlinear_arith)
        requires
            pow2(0) == 1,
    ;
}

/// A whole number of seconds is that number, and a time lies between the whole
/// seconds around it.
pub proof fn law_seconds(ns: u64)
    ensures
        ns % 1_000_000_000 == 0 ==> rate::secs(ns) == whole((ns / 1_000_000_000) as nat),
        whole((ns / 1_000_000_000) as nat) <= rate::secs(ns),
        rate::secs(ns) <= whole((ns / 1_000_000_000 + 1) as nat),
{
    let s = (ns / 1_000_000_000) as nat;
    let r = (ns % 1_000_000_000) as nat;
    let o = double::one();
    lemma_pow2_pos(1074);
    rounding::lemma_whole_exact(s, 1);
    rounding::lemma_whole_exact(s + 1, 1);
    rounding::lemma_whole_exact(r, 1);
    rounding::lemma_whole_exact(1_000_000_000, 1);
    let f = double::num_div(double::num_of(r), double::num_of(1_000_000_000));
    let den = 1_000_000_000 * o;
    assert(den > 0);
    assert(f == double::nearest((r * o) * o, den));
    rounding::lemma_whole_exact(1, den);
    assert((1 * o) * den == (1_000_000_000 * o) * o) by (nonlinear_arith)
        requires
            den == 1_000_000_000 * o,
    ;
    assert((r * o) * o <= (1_000_000_000 * o) * o) by (nonlinear_arith)
        requires
            r <= 1_000_000_000,
            o > 0,
    ;
    rounding::lemma_nearest_monotone((r * o) * o, (1 * o) * den, den);
    assert(1 * o == o) by (nonlinear_arith);
    assert(f <= o);
    if r == 0 {
        assert((0 * o) * o == 0) by (nonlinear_arith);
        double::lemma_nearest_zero(den);
        assert(f == 0);
    }
    assert((s + 1) * o == s * o + o) by (nonlinear_arith);
    rounding::lemma_nearest_monotone(s * o, s * o + f, 1);
    rounding::lemma_nearest_monotone(s * o + f, (s + 1) * o, 1);
    assert((s * o) * 1 == s * o) by (nonlinear_arith);
    assert(((s + 1) * o) * 1 == (s + 1) * o) by (nonlinear_arith);
}

/// A time is its whole seconds and the quotient of its further nanoseconds and a
/// second's, together.
pub proof fn law_time_in_seconds(ns: u64)
    ensures
        rate::secs(ns) == double::nearest(
            whole((ns / 1_000_000_000) as nat) + double::nearest(
                whole((ns % 1_000_000_000) as nat),
                1_000_000_000,
            ),
            1,
        ),
{
    let o = double::one();
    let s = (ns / 1_000_000_000) as nat;
    let r = (ns % 1_000_000_000) as nat;
    lemma_pow2_pos(1074);
    rounding::lemma_whole_exact(s, 1);
    rounding::lemma_whole_exact(r, 1);
    rounding::lemma_whole_exact(1_000_000_000, 1);
    law_quotient_has_no_unit(r * o, 1_000_000_000, o);
}

/// Whole numbers add, multiply, divide and are told apart as they should.
pub proof fn law_whole_numbers(a: nat, b: nat)
    requires
        a + b < SIG,
        a * b < SIG,
    ensures
        double::num_of(a) == whole(a),
        double::num_add(whole(a), whole(b)) == whole(a + b),
        double::num_mul(whole(a), whole(b)) == whole(a * b),
        b > 0 ==> double::num_div(whole(a * b), whole(b)) == whole(a),
        double::num_diff(whole(a + b), whole(b)) == whole(a),
        double::num_diff(whole(b), whole(a + b)) == whole(a),
{
    let o = double::one();
    lemma_pow2_pos(1074);
    rounding::lemma_whole_exact(a, 1);
    rounding::lemma_whole_exact(b, 1);
    rounding::lemma_whole_exact(a + b, 1);
    rounding::lemma_whole_exact(a * b, o);
    assert(a * o + b * o == (a + b) * o) by (nonlinear_arith);
    assert((a * o) * (b * o) == ((a * b) * o) * o) by (nonlinear_arith);
    assert((a * o) * 1 == a * o) by (nonlinear_arith);
    assert(((a + b) * o) * 1 == (a + b) * o) by (nonlinear_arith);
    if b > 0 {
        assert(b * o > 0) by (nonlinear_arith)
            requires
                b > 0,
                o > 0,
        ;
        rounding::lemma_whole_exact(a, b * o);
        assert((a * o) * (b * o) == ((a * b) * o) * o);
    }
}

/// So many bytes in each of so many whole seconds are so many bytes per second.
pub proof fn law_steady_rate(each: nat, seconds: nat)
    requires
        0 < seconds,
        each * seconds < SIG,
        seconds * 1_000_000_000 <= u64::MAX,
    ensures
        rate::per_second((each * seconds) as u64, (seconds * 1_000_000_000) as u64) == whole(each),
{
    let o = double::one();
    let ns = (seconds * 1_000_000_000) as u64;
    lemma_pow2_pos(1074);
    assert(ns / 1_000_000_000 == seconds && ns % 1_000_000_000 == 0);
    law_seconds(ns);
    let n = each * seconds;
    rounding::lemma_whole_exact(n, 1);
    rounding::lemma_whole_exact(seconds, 1);
    assert(each <= n) by (nonlinear_arith)
        requires
            n == each * seconds,
            seconds >= 1,
    ;
    let den = seconds * o;
    assert(den > 0) by (nonlinear_arith)
        requires
            den == seconds * o,
            seconds > 0,
            o > 0,
    ;
    rounding::lemma_whole_exact(each, den);
    assert((each * o) * den == (n * o) * o) by (nonlinear_arith)
        requires
            den == seconds * o,
            n == each * seconds,
    ;
}

/// More bytes in the same time are no lower rate.
pub proof fn law_rate_grows(a: u64, b: u64, ns: u64)
    requires
        a <= b,
        ns > 0,
    ensures
        rate::per_second(a, ns) <= rate::per_second(b, ns),
{
    rate::lemma_secs(ns);
    double::lemma_num_of_range(a);
    double::lemma_num_of_range(b);
    let o = double::one();
    assert(a * o <= b * o) by (nonlinear_arith)
        requires
            a <= b,
            o >= 0,
    ;
    rounding::lemma_nearest_monotone((a as nat) * o, (b as nat) * o, 1);
    let x = double::num_of(a as nat);
    let y = double::num_of(b as nat);
    assert(x * o <= y * o) by (nonlinear_arith)
        requires
            x <= y,
            o >= 0,
    ;
    rounding::lemma_nearest_monotone(x * o, y * o, rate::secs(ns));
}

// ── Parts of a whole ─────────────────────────────────────────────────────────

/// A share does not depend on how finely its whole is counted: `k` parts of `n * k`
/// are one part of `n`, and all of the parts are the whole.
pub proof fn law_share(n: nat, k: nat)
    requires
        0 < k,
        0 < n,
        n * k < SIG,
    ensures
        procfs::percent(k, n * k) == double::nearest(
            double::nearest(double::one(), n) * (100 * double::one()),
            double::one(),
        ),
        n == 1 ==> procfs::percent(k, n * k) == whole(100),
{
    let o = double::one();
    lemma_pow2_pos(1074);
    assert(k <= n * k) by (nonlinear_arith)
        requires
            n >= 1,
    ;
    rounding::lemma_whole_exact(k, 1);
    rounding::lemma_whole_exact(n * k, 1);
    rounding::lemma_whole_exact(100, 1);
    let q = double::nearest((k * o) * o, (n * k) * o);
    assert(k * o > 0) by (nonlinear_arith)
        requires
            k > 0,
            o > 0,
    ;
    assert((k * o) * o == o * (k * o)) by (nonlinear_arith);
    assert((n * k) * o == n * (k * o)) by (nonlinear_arith);
    law_quotient_has_no_unit(o, n, k * o);
    assert(q == double::nearest(o, n));
    rounding::lemma_whole_exact(1, n);
    assert(o <= (1 * o) * n) by (nonlinear_arith)
        requires
            n >= 1,
    ;
    rounding::lemma_nearest_monotone(o, (1 * o) * n, n);
    assert(1 * o == o) by (nonlinear_arith);
    assert(q <= o);
    if n == 1 {
        assert((1 * o) * 1 == o) by (nonlinear_arith);
        assert(q == o);
        rounding::lemma_whole_exact(100, o);
        assert((100 * o) * o == o * (100 * o)) by (nonlinear_arith);
    }
}

/// A larger part of a smaller whole is no smaller share.
pub proof fn law_share_grows(a: u64, b: u64, whole: u64)
    requires
        a <= b,
        whole > 0,
    ensures
        procfs::percent(a as nat, whole as nat) <= procfs::percent(b as nat, whole as nat),
{
    let o = double::one();
    lemma_pow2_pos(1074);
    double::lemma_num_of_range(a);
    double::lemma_num_of_range(b);
    double::lemma_num_of_range(whole);
    assert(a * o <= b * o) by (nonlinear_arith)
        requires
            a <= b,
            o >= 0,
    ;
    rounding::lemma_nearest_monotone((a as nat) * o, (b as nat) * o, 1);
    let x = double::num_of(a as nat);
    let y = double::num_of(b as nat);
    let w = double::num_of(whole as nat);
    assert(x * o <= y * o) by (nonlinear_arith)
        requires
            x <= y,
            o >= 0,
    ;
    rounding::lemma_nearest_monotone(x * o, y * o, w);
    let p = double::num_div(x, w);
    let q = double::num_div(y, w);
    let h = procfs::hundred();
    assert(p <= q);
    assert(p * h <= q * h) by (nonlinear_arith)
        requires
            p <= q,
            h >= 0,
    ;
    rounding::lemma_nearest_monotone(p * h, q * h, o);
    double::lemma_nearest_range(p * h, o);
}

/// The share of busy ticks among the ticks that passed is what is recorded: all of
/// them are a hundred, `k` of `n * k` are as many as one of `n`, and a sample that
/// has nothing to be measured against records zero. The next sample is measured
/// against this one.
pub proof fn law_processor_share(
    m: AppModel,
    mem: Option<nat>,
    busy: u64,
    total: u64,
    now: u64,
)
    ensures
        ({
            let a = state::recorded_usage(m, Some((busy, total)), mem, now);
            let d_busy = (busy - m.prev_cpu_busy) as nat;
            let d_total = (total - m.prev_cpu_total) as nat;
            let counts = m.prev_cpu_total > 0 && total > m.prev_cpu_total && now > m.prev_cpu_time;
            &&& a.sys_cpu_history.len() > 0
            &&& a.prev_cpu_busy == busy && a.prev_cpu_total == total && a.prev_cpu_time == now
            &&& !counts ==> a.sys_cpu_history.last() == 0
            &&& a.sys_cpu_history.last() <= double::num_of(100)
            &&& counts && busy >= m.prev_cpu_busy ==> {
                let share = double::num_mul(
                    double::num_div(double::num_of(d_busy), double::num_of(d_total)),
                    double::num_of(100),
                );
                a.sys_cpu_history.last() == if share <= double::num_of(100) {
                    share
                } else {
                    double::num_of(100)
                }
            }
            &&& counts && busy >= m.prev_cpu_busy && d_busy >= d_total && d_total < SIG
                ==> a.sys_cpu_history.last() == whole(100)
            &&& counts && busy <= m.prev_cpu_busy ==> a.sys_cpu_history.last() == 0
        }),
{
    let a = state::recorded_usage(m, Some((busy, total)), mem, now);
    let d_busy = procfs::sat_sub(busy, m.prev_cpu_busy);
    let d_total = procfs::sat_sub(total, m.prev_cpu_total);
    assert(a.sys_cpu_history.last() == state::cpu_percent(m, busy, total, now));
    double::lemma_num_of_range(100);
    rounding::lemma_whole_exact(100, 1);
    if total > m.prev_cpu_total {
        if busy <= m.prev_cpu_busy {
            double::lemma_num_of_range(0);
            double::lemma_num_of_range(d_total);
            assert(0nat * double::one() == 0) by (nonlinear_arith);
            double::lemma_nearest_zero(double::num_of(d_total as nat));
            assert(0nat * procfs::hundred() == 0) by (nonlinear_arith);
            lemma_pow2_pos(1074);
            lemma_pow2_pos(2098);
            double::lemma_nearest_zero(double::one());
        }
        if d_busy >= d_total && d_total < SIG {
            law_share(1, d_total as nat);
            law_share_grows(d_total, d_busy, d_total);
            assert(1 * (d_total as nat) == d_total);
        }
    }
}

/// A sample without processor figures keeps the figures of the last one.
pub proof fn law_processor_unread(m: AppModel, mem: Option<nat>, now: u64)
    ensures
        ({
            let a = state::recorded_usage(m, None, mem, now);
            &&& a.prev_cpu_busy == m.prev_cpu_busy
            &&& a.prev_cpu_total == m.prev_cpu_total
            &&& a.prev_cpu_time == m.prev_cpu_time
            &&& m.sys_cpu_history.len() <= 172_800 ==> a.sys_cpu_history == m.sys_cpu_history
        }),
{
}

/// `k` busy ticks of `n * k` are recorded as one of `n`.
pub proof fn law_processor_share_of_parts(
    m: AppModel,
    mem: Option<nat>,
    n: nat,
    k: nat,
    now: u64,
)
    requires
        0 < n,
        0 < k,
        n * k < SIG,
        m.prev_cpu_total > 0,
        m.prev_cpu_total + n * k <= u64::MAX,
        m.prev_cpu_busy + k <= u64::MAX,
        now > m.prev_cpu_time,
    ensures
        state::recorded_usage(
            m,
            Some(((m.prev_cpu_busy + k) as u64, (m.prev_cpu_total + n * k) as u64)),
            mem,
            now,
        ).sys_cpu_history.last() == double::nearest(
            double::nearest(double::one(), n) * (100 * double::one()),
            double::one(),
        ),
{
    let busy = (m.prev_cpu_busy + k) as u64;
    let total = (m.prev_cpu_total + n * k) as u64;
    assert(n * k > 0) by (nonlinear_arith)
        requires
            n > 0,
            k > 0,
    ;
    law_processor_share(m, mem, busy, total, now);
    law_share(n, k);
    assert(k <= n * k) by (nonlinear_arith)
        requires
            n >= 1,
    ;
    law_share(1, (n * k) as nat);
    law_share_grows(k as u64, (n * k) as u64, (n * k) as u64);
    rounding::lemma_whole_exact(100, 1);
    assert(1 * (n * k) == n * k) by (nonlinear_arith);
}

// ── Connections ──────────────────────────────────────────────────────────────

/// Whether two sockets have the same protocol and endpoints.
pub open spec fn same_socket(a: SocketModel, b: SocketModel) -> bool {
    a.proto == b.proto && a.local == b.local && a.remote == b.remote
}

proof fn lemma_kept(
    prev: Map<(Seq<char>, Seq<char>, Seq<char>), (u64, u64, u64)>,
    socks: Seq<SocketModel>,
    now: u64,
    s: SocketModel,
    i: int,
    n: int,
)
    requires
        0 <= i <= n <= socks.len(),
        forall|j: int| i <= j < n ==> !same_socket(#[trigger] socks[j], s),
    ensures
        conns::at(conns::prev_after(prev, socks, now, n), (s.proto, s.local, s.remote))
            == conns::at(conns::prev_after(prev, socks, now, i), (s.proto, s.local, s.remote)),
    decreases n - i,
{
    if i < n {
        lemma_kept(prev, socks, now, s, i, n - 1);
        assert(!same_socket(socks[n - 1], s));
    }
}

/// Whether `after` is what a sample of `socks` leaves to be measured against: of each
/// socket with counters those of its last listing, and nothing of others.
pub open spec fn are_baselines(
    after: Map<(Seq<char>, Seq<char>, Seq<char>), (u64, u64, u64)>,
    socks: Seq<SocketModel>,
    now: u64,
) -> bool {
    &&& forall|i: int|
        0 <= i < socks.len() && (#[trigger] socks[i]).rx_bytes is Some && socks[i].tx_bytes is Some
            && (forall|j: int|
            i < j < socks.len() ==> !same_socket(#[trigger] socks[j], socks[i])) ==> {
            let k = (socks[i].proto, socks[i].local, socks[i].remote);
            after.dom().contains(k) && after[k] == (
                socks[i].rx_bytes->0,
                socks[i].tx_bytes->0,
                now,
            )
        }
    &&& forall|k: (Seq<char>, Seq<char>, Seq<char>)| #[trigger]
        after.dom().contains(k) ==> exists|i: int|
            0 <= i < socks.len() && k == (
                (#[trigger] socks[i]).proto,
                socks[i].local,
                socks[i].remote,
            )
}

/// What a sample leaves to be measured against: each socket that it lists has the
/// counters and the time of its last listing, however they compare with what was
/// there before, and what it does not list is forgotten.
pub proof fn law_baselines(
    prev: Map<(Seq<char>, Seq<char>, Seq<char>), (u64, u64, u64)>,
    socks: Seq<SocketModel>,
    now: u64,
)
    ensures
        are_baselines(
            conns::prev_after(prev, socks, now, socks.len() as int).restrict(conns::keys_of(socks)),
            socks,
            now,
        ),
{
    let n = socks.len() as int;
    let keys = socks.map_values(|s: SocketModel| conns::key_of(s));
    let all = conns::prev_after(prev, socks, now, n);
    let after = all.restrict(conns::keys_of(socks));
    assert forall|i: int|
        0 <= i < socks.len() && (#[trigger] socks[i]).rx_bytes is Some
            && socks[i].tx_bytes is Some && (forall|j: int|
            i < j < socks.len() ==> !same_socket(#[trigger] socks[j], socks[i])) implies {
        let k = (socks[i].proto, socks[i].local, socks[i].remote);
        after.dom().contains(k) && after[k] == (socks[i].rx_bytes->0, socks[i].tx_bytes->0, now)
    } by {
        let k = (socks[i].proto, socks[i].local, socks[i].remote);
        assert(keys[i] == k);
        assert(keys.contains(k));
        lemma_kept(prev, socks, now, socks[i], i + 1, n);
        assert(conns::at(conns::prev_after(prev, socks, now, i + 1), k) == Some(
            (socks[i].rx_bytes->0, socks[i].tx_bytes->0, now),
        ));
    }
    assert forall|k: (Seq<char>, Seq<char>, Seq<char>)| #[trigger]
        after.dom().contains(k) implies exists|i: int|
        0 <= i < socks.len() && k == (
            (#[trigger] socks[i]).proto,
            socks[i].local,
            socks[i].remote,
        ) by {
        assert(keys.contains(k));
        let i = choose|i: int| 0 <= i < keys.len() && keys[i] == k;
        assert(k == (socks[i].proto, socks[i].local, socks[i].remote));
    }
}

/// Between two samples that follow each other, a socket that is not `udp` has the
/// bytes that it gained over the time that passed, whatever was sampled before the
/// first.
pub proof fn law_rates_between_samples(
    prev: Map<(Seq<char>, Seq<char>, Seq<char>), (u64, u64, u64)>,
    first: Seq<SocketModel>,
    t1: u64,
    i: int,
    m: ConnMonitor,
    second: Seq<SocketModel>,
    peers: Seq<Option<(IpAddress, u16)>>,
    t2: u64,
    j: int,
)
    requires
        t1 < t2,
        m.prev@ == conns::prev_after(prev, first, t1, first.len() as int).restrict(
            conns::keys_of(first),
        ),
        0 <= i < first.len(),
        0 <= j < second.len(),
        same_socket(first[i], second[j]),
        second[j].proto != "udp"@,
        first[i].rx_bytes is Some && first[i].tx_bytes is Some,
        second[j].rx_bytes is Some && second[j].tx_bytes is Some,
        forall|k: int| i < k < first.len() ==> !same_socket(#[trigger] first[k], first[i]),
        forall|k: int| 0 <= k < j ==> !same_socket(#[trigger] second[k], second[j]),
    ensures
        ({
            let c = conns::sampled(m, second, peers, t2)[j];
            let r1 = first[i].rx_bytes->0;
            let r2 = second[j].rx_bytes->0;
            let x1 = first[i].tx_bytes->0;
            let x2 = second[j].tx_bytes->0;
            let time = rate::secs((t2 - t1) as u64);
            &&& c.rx_rate is Some && c.tx_rate is Some
            &&& r2 >= r1 ==> c.rx_rate->0 == double::num_div(double::num_of((r2 - r1) as nat), time)
            &&& x2 >= x1 ==> c.tx_rate->0 == double::num_div(double::num_of((x2 - x1) as nat), time)
            &&& r2 <= r1 ==> c.rx_rate->0 == 0
            &&& x2 <= x1 ==> c.tx_rate->0 == 0
        }),
{
    law_baselines(prev, first, t1);
    let k = (second[j].proto, second[j].local, second[j].remote);
    assert(m.prev@.dom().contains(k));
    lemma_kept(m.prev@, second, t2, second[j], 0, j);
    assert(conns::key_of(second[j]) == k);
    rate::lemma_nothing((t2 - t1) as u64);
}

/// A listed connection shows the endpoints and the owner of its socket, and keeps
/// the order of the listing until it is sorted.
pub proof fn law_sampled_fields(
    m: ConnMonitor,
    socks: Seq<SocketModel>,
    peers: Seq<Option<(IpAddress, u16)>>,
    now: u64,
)
    ensures
        conns::sampled(m, socks, peers, now).len() == socks.len(),
        forall|i: int|
            0 <= i < socks.len() ==> {
                let c = #[trigger] conns::sampled(m, socks, peers, now)[i];
                let s = socks[i];
                &&& c.proto == s.proto && c.local == s.local && c.remote == s.remote
                &&& c.comm == s.comm && c.pid == s.pid
                &&& c.rx_rate is Some <==> c.tx_rate is Some
                &&& c.rx_rate is Some ==> s.rx_bytes is Some && s.tx_bytes is Some && s.proto
                    != "udp"@
            },
{
}

} // verus!
