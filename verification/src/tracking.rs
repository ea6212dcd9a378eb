//! What a sample does to the state.

use vstd::arithmetic::div_mod::*;
use vstd::arithmetic::power2::*;
use vstd::prelude::*;

use crate::double;
use crate::double::SIG;
use crate::history;
use crate::laws;
use crate::measuring;
use crate::procfs;
use crate::rate;
use crate::rounding;
use crate::state;
use crate::state::AppModel;

verus! {

// ── Whole numbers ────────────────────────────────────────────────────────────

/// The whole part of a number that a machine integer can hold: the number lies
/// between it and the next.
pub proof fn law_whole_part(a: nat)
    requires
        a / double::one() <= u64::MAX,
    ensures
        measuring::whole(double::num_floor(a)) <= a,
        a < measuring::whole((double::num_floor(a) + 1) as nat),
{
    let o = double::one();
    lemma_pow2_pos(1074);
    lemma_fundamental_div_mod(a as int, o as int);
    lemma_mod_bound(a as int, o as int);
    let n = a / o;
    assert(n * o == o * n) by (nonlinear_arith);
    assert((n + 1) * o == o * n + o) by (nonlinear_arith);
}

/// The whole part of a whole number is that number.
pub proof fn law_whole_of_whole(n: u64)
    ensures
        double::num_floor(measuring::whole(n as nat)) == n,
{
    lemma_pow2_pos(1074);
    lemma_div_by_multiple(n as int, double::one() as int);
}

// ── Histories ────────────────────────────────────────────────────────────────

/// What is remembered comes last and everything before it keeps its order; two days
/// of it are kept, of which the oldest gives way.
pub proof fn law_remembered<T>(s: Seq<T>, x: T)
    requires
        s.len() <= 172_800,
    ensures
        ({
            let h = history::remembered(s, x);
            &&& h.len() > 0 && h.last() == x
            &&& s.len() < 172_800 ==> h.drop_last() == s
            &&& s.len() == 172_800 ==> h.len() == 172_800 && h.drop_last() == s.drop_first()
        }),
{
    let h = history::remembered(s, x);
    if s.len() < 172_800 {
        assert(h.drop_last() =~= s);
    } else {
        assert(h.drop_last() =~= s.drop_first());
    }
}

/// After a sample the histories end in the present speeds, the peak is the highest
/// of the old one and both speeds, and the counters of the active interface are
/// known.
pub proof fn law_recorded_speed(
    m: AppModel,
    counters: Map<Seq<char>, (u64, u64)>,
    now: u64,
)
    ensures
        ({
            let a = state::recorded_speed(m, counters, now);
            &&& a.rx_history.len() > 0 && a.rx_history.last() == m.current_rx
            &&& a.tx_history.len() > 0 && a.tx_history.last() == m.current_tx
            &&& m.rx_history.len() < 172_800 ==> a.rx_history.drop_last() == m.rx_history
            &&& m.tx_history.len() < 172_800 ==> a.tx_history.drop_last() == m.tx_history
            &&& a.peak_speed >= m.peak_speed && a.peak_speed >= m.current_rx && a.peak_speed
                >= m.current_tx
            &&& a.peak_speed == m.peak_speed || a.peak_speed == m.current_rx || a.peak_speed
                == m.current_tx
            &&& a.current_rx == m.current_rx && a.current_tx == m.current_tx
            &&& a.last_sample == now
            &&& counters.dom().contains(m.iface) ==> a.prev_rx_bytes == counters[m.iface].0
                && a.prev_tx_bytes == counters[m.iface].1
            &&& !counters.dom().contains(m.iface) ==> a.prev_rx_bytes == m.prev_rx_bytes
                && a.prev_tx_bytes == m.prev_tx_bytes
        }),
{
    let a = state::recorded_speed(m, counters, now);
    if m.rx_history.len() < 172_800 {
        assert(a.rx_history.drop_last() =~= m.rx_history);
    }
    if m.tx_history.len() < 172_800 {
        assert(a.tx_history.drop_last() =~= m.tx_history);
    }
}

/// The memory in use is recorded, at most as a hundred, and zero where it is not
/// known.
pub proof fn law_recorded_memory(
    m: AppModel,
    cpu: Option<(u64, u64)>,
    mem: Option<nat>,
    now: u64,
)
    ensures
        ({
            let h = state::recorded_usage(m, cpu, mem, now).sys_mem_history;
            &&& h.len() > 0
            &&& mem is None ==> h.last() == 0
            &&& mem is Some && mem->0 <= measuring::whole(100) ==> h.last() == mem->0
            &&& mem is Some && mem->0 >= measuring::whole(100) ==> h.last() == measuring::whole(100)
            &&& m.sys_mem_history.len() < 172_800 ==> h.drop_last() == m.sys_mem_history
        }),
{
    rounding::lemma_whole_exact(100, 1);
    let h = state::recorded_usage(m, cpu, mem, now).sys_mem_history;
    if m.sys_mem_history.len() < 172_800 {
        assert(h.drop_last() =~= m.sys_mem_history);
    }
}

// ── Disks ────────────────────────────────────────────────────────────────────

/// So many sectors in each of so many whole seconds are 512 times as many bytes per
/// second.
pub proof fn law_sectors(each: nat, seconds: nat)
    requires
        0 < seconds,
        each * seconds * 512 < SIG,
        seconds * 1_000_000_000 <= u64::MAX,
    ensures
        state::sector_rate((each * seconds) as u64, (seconds * 1_000_000_000) as u64)
            == measuring::whole(each * 512),
{
    let o = double::one();
    let n = each * seconds;
    let ns = (seconds * 1_000_000_000) as u64;
    lemma_pow2_pos(1074);
    assert(ns / 1_000_000_000 == seconds && ns % 1_000_000_000 == 0);
    measuring::law_seconds(ns);
    rounding::lemma_whole_exact(n, 1);
    rounding::lemma_whole_exact(512, 1);
    rounding::lemma_whole_exact(n * 512, o);
    assert((n * o) * (512 * o) == ((n * 512) * o) * o) by (nonlinear_arith);
    assert(double::num_mul(double::num_of(n), double::num_of(512)) == (n * 512) * o);
    let den = seconds * o;
    assert(den > 0) by (nonlinear_arith)
        requires
            den == seconds * o,
            seconds > 0,
            o > 0,
    ;
    rounding::lemma_whole_exact(seconds, 1);
    assert(each * 512 <= n * 512) by (nonlinear_arith)
        requires
            n == each * seconds,
            seconds >= 1,
    ;
    rounding::lemma_whole_exact(each * 512, den);
    assert(((each * 512) * o) * den == ((n * 512) * o) * o) by (nonlinear_arith)
        requires
            den == seconds * o,
            n == each * seconds,
    ;
}

/// The disk figures of a sample are what the next is measured from. Bytes per second
/// are 512 times the sectors that were gained over the time since the sample before;
/// they are zero where nothing is known from before or a count fell.
pub proof fn law_recorded_disk(m: AppModel, read: u64, written: u64, now: u64)
    ensures
        ({
            let a = state::recorded_disk(m, Some((read, written)), now);
            let counts = (m.prev_disk_read_sectors > 0 || m.prev_disk_write_sectors > 0) && read
                >= m.prev_disk_read_sectors && written >= m.prev_disk_write_sectors && now
                > m.prev_disk_time;
            let time = rate::secs((now - m.prev_disk_time) as u64);
            &&& a.prev_disk_read_sectors == read && a.prev_disk_write_sectors == written
            &&& a.prev_disk_time == now
            &&& a.sys_disk_read_history.len() > 0 && a.sys_disk_write_history.len() > 0
            &&& !counts ==> a.sys_disk_read_history.last() == 0 && a.sys_disk_write_history.last()
                == 0
            &&& counts ==> a.sys_disk_read_history.last() == double::num_div(
                double::num_mul(
                    double::num_of((read - m.prev_disk_read_sectors) as nat),
                    double::num_of(512),
                ),
                time,
            )
            &&& counts ==> a.sys_disk_write_history.last() == double::num_div(
                double::num_mul(
                    double::num_of((written - m.prev_disk_write_sectors) as nat),
                    double::num_of(512),
                ),
                time,
            )
            &&& m.sys_disk_read_history.len() < 172_800 ==> a.sys_disk_read_history.drop_last()
                == m.sys_disk_read_history
            &&& m.sys_disk_write_history.len() < 172_800 ==> a.sys_disk_write_history.drop_last()
                == m.sys_disk_write_history
        }),
        ({
            let a = state::recorded_disk(m, None, now);
            &&& a.prev_disk_read_sectors == m.prev_disk_read_sectors
            &&& a.prev_disk_write_sectors == m.prev_disk_write_sectors
            &&& a.prev_disk_time == m.prev_disk_time
            &&& m.sys_disk_read_history.len() <= 172_800 ==> a.sys_disk_read_history
                == m.sys_disk_read_history
            &&& m.sys_disk_write_history.len() <= 172_800 ==> a.sys_disk_write_history
                == m.sys_disk_write_history
        }),
{
    let a = state::recorded_disk(m, Some((read, written)), now);
    if m.sys_disk_read_history.len() < 172_800 {
        assert(a.sys_disk_read_history.drop_last() =~= m.sys_disk_read_history);
    }
    if m.sys_disk_write_history.len() < 172_800 {
        assert(a.sys_disk_write_history.drop_last() =~= m.sys_disk_write_history);
    }
}

/// One sample of the system records speed, processor, memory and disks from the same
/// state, and the connections are due half a second after they last were.
pub proof fn law_system_sample(
    m: AppModel,
    counters: Map<Seq<char>, (u64, u64)>,
    cpu: Option<(u64, u64)>,
    mem: Option<nat>,
    disk: Option<(u64, u64)>,
    now: u64,
)
    ensures
        ({
            let a = state::sampled_system(m, counters, cpu, mem, disk, now);
            let s = state::recorded_speed(m, counters, now);
            let u = state::recorded_usage(m, cpu, mem, now);
            let d = state::recorded_disk(m, disk, now);
            &&& a.rx_history == s.rx_history && a.tx_history == s.tx_history
            &&& a.peak_speed == s.peak_speed && a.last_sample == now
            &&& a.prev_rx_bytes == s.prev_rx_bytes && a.prev_tx_bytes == s.prev_tx_bytes
            &&& a.sys_cpu_history == u.sys_cpu_history && a.sys_mem_history == u.sys_mem_history
            &&& a.prev_cpu_busy == u.prev_cpu_busy && a.prev_cpu_total == u.prev_cpu_total
            &&& a.prev_cpu_time == u.prev_cpu_time
            &&& a.sys_disk_read_history == d.sys_disk_read_history
            &&& a.sys_disk_write_history == d.sys_disk_write_history
            &&& a.prev_disk_read_sectors == d.prev_disk_read_sectors
            &&& a.prev_disk_write_sectors == d.prev_disk_write_sectors
            &&& a.prev_disk_time == d.prev_disk_time
            &&& state::conns_due(m, now) <==> now - m.last_conns_sample >= 500_000_000
            &&& a.last_conns_sample == if now - m.last_conns_sample >= 500_000_000 {
                now
            } else {
                m.last_conns_sample
            }
            &&& a == (AppModel {
                rx_history: a.rx_history,
                tx_history: a.tx_history,
                peak_speed: a.peak_speed,
                prev_rx_bytes: a.prev_rx_bytes,
                prev_tx_bytes: a.prev_tx_bytes,
                last_sample: now,
                sys_cpu_history: a.sys_cpu_history,
                sys_mem_history: a.sys_mem_history,
                prev_cpu_busy: a.prev_cpu_busy,
                prev_cpu_total: a.prev_cpu_total,
                prev_cpu_time: a.prev_cpu_time,
                sys_disk_read_history: a.sys_disk_read_history,
                sys_disk_write_history: a.sys_disk_write_history,
                prev_disk_read_sectors: a.prev_disk_read_sectors,
                prev_disk_write_sectors: a.prev_disk_write_sectors,
                prev_disk_time: a.prev_disk_time,
                last_conns_sample: a.last_conns_sample,
                ..m
            })
        }),
{
}

// ── Traffic ──────────────────────────────────────────────────────────────────

/// What a counter gained: nothing where it fell.
pub open spec fn growth(before: u64, after: u64) -> int {
    if after >= before {
        after - before
    } else {
        0
    }
}

/// What one sample makes of an interface. Its counters are what the next sample is
/// measured from, and its window grows by what they gained since the last sample,
/// received and sent together; one without counters from before gains nothing.
pub proof fn law_traffic_of_interface(
    m: AppModel,
    counters: Map<Seq<char>, (u64, u64)>,
    now: u64,
    name: Seq<char>,
)
    requires
        m.ifaces.no_duplicates(),
        m.ifaces.contains(name),
        counters.dom().contains(name),
    ensures
        ({
            let a = state::with_counters(m, counters, now);
            let c = counters[name];
            let p = m.prev_counters[name];
            let known = m.prev_counters.dom().contains(name);
            let window = if m.auto_window_bytes.dom().contains(name) {
                m.auto_window_bytes[name] as int
            } else {
                0
            };
            let gain = if known {
                growth(p.0, c.0) + growth(p.1, c.1)
            } else {
                0
            };
            &&& a.prev_counters.dom().contains(name) && a.prev_counters[name] == c
            &&& window + gain <= u64::MAX ==> a.auto_window_bytes.dom().contains(name)
                && a.auto_window_bytes[name] == window + gain
        }),
{
    laws::law_window_adds_up(m, counters, now, name);
    let a = state::with_counters(m, counters, now);
    let k = choose|k: int| 0 <= k < m.ifaces.len() && m.ifaces[k] == name;
    lemma_has_window(
        m,
        counters,
        procfs::sat_sub(now, m.last_sample),
        k,
        m.ifaces.len() as int,
    );
}

proof fn lemma_has_window(
    m: AppModel,
    counters: Map<Seq<char>, (u64, u64)>,
    e: u64,
    k: int,
    n: int,
)
    requires
        0 <= k < n <= m.ifaces.len(),
        counters.dom().contains(m.ifaces[k]),
    ensures
        state::counted(m, counters, e, n).auto_window_bytes.dom().contains(m.ifaces[k]),
    decreases n,
{
    if n > k + 1 {
        lemma_has_window(m, counters, e, k, n - 1);
    }
}

/// Two samples that follow each other: the speed of the active interface in the
/// second is what its counters gained between them over the time between them, cut
/// to whole bytes, whatever was before the first.
pub proof fn law_speed_between_samples(
    m: AppModel,
    first: Map<Seq<char>, (u64, u64)>,
    t1: u64,
    second: Map<Seq<char>, (u64, u64)>,
    t2: u64,
)
    requires
        m.ifaces.no_duplicates(),
        m.ifaces.contains(m.iface),
        first.dom().contains(m.iface),
        second.dom().contains(m.iface),
        t1 < t2,
    ensures
        ({
            let a = state::recorded_speed(state::with_counters(m, first, t1), first, t1);
            let b = state::with_counters(a, second, t2);
            let c1 = first[m.iface];
            let c2 = second[m.iface];
            let time = rate::secs((t2 - t1) as u64);
            &&& b.current_rx == double::num_floor(
                double::num_div(double::num_of(growth(c1.0, c2.0) as nat), time),
            )
            &&& b.current_tx == double::num_floor(
                double::num_div(double::num_of(growth(c1.1, c2.1) as nat), time),
            )
        }),
{
    law_traffic_of_interface(m, first, t1, m.iface);
    let e = procfs::sat_sub(t1, m.last_sample);
    state::lemma_counted(m, first, e, m.ifaces.len() as int);
    let a = state::recorded_speed(state::with_counters(m, first, t1), first, t1);
    assert(a.iface == m.iface && a.ifaces == m.ifaces);
    laws::law_speed(a, second, t2);
}

/// A window lasts a second. When it is over the next begins without traffic; before
/// that it goes on and nothing is switched.
pub proof fn law_window(
    m: AppModel,
    counters: Map<Seq<char>, (u64, u64)>,
    now: u64,
    name: Seq<char>,
)
    ensures
        ({
            let a = state::with_counters(m, counters, now);
            let n = state::sampled_traffic(m, counters, now);
            let over = now - m.auto_window_start >= 1_000_000_000;
            &&& !over ==> n == a && !state::sample_switches(m, counters, now)
            &&& over ==> n.auto_window_start == now
            &&& over ==> (state::sample_switches(m, counters, now) <==> state::switch_target(a, now)
                is Some)
            &&& over ==> n.iface == state::auto_switched(a, now).iface && n.iface_idx
                == state::auto_switched(a, now).iface_idx
            &&& over && n.auto_window_bytes.dom().contains(name) ==> n.auto_window_bytes[name] == 0
            &&& over && state::switch_target(a, now) is None ==> n == (AppModel {
                auto_window_bytes: n.auto_window_bytes,
                auto_window_start: now,
                ..a
            })
            &&& n.prev_counters == a.prev_counters
        }),
{
}

/// The bytes of an interface in the window, zero where it has none.
pub open spec fn window_bytes(m: AppModel, name: Seq<char>) -> int {
    if m.auto_window_bytes.dom().contains(name) {
        m.auto_window_bytes[name] as int
    } else {
        0
    }
}

/// An interface of which a sample has no counters keeps what is known of it.
pub proof fn law_unread_interface(
    m: AppModel,
    counters: Map<Seq<char>, (u64, u64)>,
    now: u64,
    name: Seq<char>,
)
    requires
        !counters.dom().contains(name),
    ensures
        ({
            let a = state::with_counters(m, counters, now);
            &&& a.prev_counters.dom().contains(name) <==> m.prev_counters.dom().contains(name)
            &&& a.prev_counters.dom().contains(name) ==> a.prev_counters[name]
                == m.prev_counters[name]
            &&& window_bytes(a, name) == window_bytes(m, name)
            &&& name == m.iface ==> a.current_rx == m.current_rx && a.current_tx == m.current_tx
        }),
{
    lemma_unread_kept(
        m,
        counters,
        procfs::sat_sub(now, m.last_sample),
        name,
        m.ifaces.len() as int,
    );
}

proof fn lemma_unread_kept(
    m: AppModel,
    counters: Map<Seq<char>, (u64, u64)>,
    e: u64,
    name: Seq<char>,
    n: int,
)
    requires
        !counters.dom().contains(name),
        n <= m.ifaces.len(),
    ensures
        ({
            let a = state::counted(m, counters, e, n);
            &&& a.prev_counters.dom().contains(name) <==> m.prev_counters.dom().contains(name)
            &&& a.prev_counters.dom().contains(name) ==> a.prev_counters[name]
                == m.prev_counters[name]
            &&& window_bytes(a, name) == window_bytes(m, name)
            &&& a.iface == m.iface
            &&& name == m.iface ==> a.current_rx == m.current_rx && a.current_tx == m.current_tx
        }),
    decreases n,
{
    if n > 0 {
        lemma_unread_kept(m, counters, e, name, n - 1);
    }
}

/// The counters right after a switch are those of the new interface, below the two
/// lines at the top of the file.
pub proof fn law_counters_at_switch(dev: Option<Seq<char>>, iface: Seq<char>)
    ensures
        dev is None ==> state::baseline(dev, iface) is None,
        dev is Some ==> match procfs::counters_from(crate::text::lines(dev->0), iface, 2) {
            Ok(p) => state::baseline(dev, iface) == Some(p),
            Err(_) => state::baseline(dev, iface) is None,
        },
{
}

/// The automatic switch: it happens just where it is on, more than a second has
/// passed since the last one, and some interface has over 4096 bytes more than the
/// active one; it goes to one that none has more than.
pub proof fn law_automatic_switch(m: AppModel, now: u64)
    requires
        window_bytes(m, m.iface) + 4096 <= u64::MAX,
        m.ifaces.len() <= usize::MAX,
    ensures
        state::switch_target(m, now) is Some <==> m.auto_iface && now - m.last_auto_switch
            > 1_000_000_000 && exists|j: int|
            0 <= j < m.ifaces.len() && window_bytes(m, #[trigger] m.ifaces[j]) > window_bytes(
                m,
                m.iface,
            ) + 4096,
        state::switch_target(m, now) matches Some(i) ==> {
            let n = state::auto_switched(m, now);
            &&& 0 <= i < m.ifaces.len()
            &&& forall|j: int|
                0 <= j < m.ifaces.len() ==> window_bytes(m, #[trigger] m.ifaces[j]) <= window_bytes(
                    m,
                    m.ifaces[i],
                )
            &&& n.iface == m.ifaces[i] && n.iface_idx == i && n.last_auto_switch == now
            &&& n.auto_iface && n.current_rx == 0 && n.current_tx == 0
        },
{
    laws::law_auto_switch_is_earned(m, now);
    assert forall|j: int| 0 <= j < m.ifaces.len() implies window_bytes(m, #[trigger] m.ifaces[j])
        == state::bytes_of(m.auto_window_bytes, m.ifaces[j]) by {}
    match state::switch_target(m, now) {
        Some(i) => {
            assert(window_bytes(m, m.ifaces[i]) > window_bytes(m, m.iface) + 4096);
            lemma_small_mod(i as nat, m.ifaces.len());
            state::law_busiest(m);
            state::lemma_name_pos(m.ifaces, state::busiest(m)->0, 0);
        },
        None => {
            if m.auto_iface && now - m.last_auto_switch > 1_000_000_000 {
                assert forall|j: int| 0 <= j < m.ifaces.len() implies window_bytes(
                    m,
                    #[trigger] m.ifaces[j],
                ) <= window_bytes(m, m.iface) + 4096 by {
                    if window_bytes(m, m.ifaces[j]) > window_bytes(m, m.iface) + 4096 {
                        laws::law_auto_switch_happens(m, now, j);
                    }
                }
            }
        },
    }
}

/// The counters that are read right after a switch are what the new interface is
/// measured from; where they cannot be read nothing is.
pub proof fn law_after_switch(m: AppModel, p: Option<(u64, u64)>, name: Seq<char>)
    ensures
        ({
            let n = state::rebaselined(m, p);
            &&& p is Some ==> n.prev_rx_bytes == (p->0).0 && n.prev_tx_bytes == (p->0).1
            &&& p is Some ==> n.prev_counters.dom().contains(m.iface) && n.prev_counters[m.iface]
                == p->0
            &&& p is None ==> n.prev_rx_bytes == 0 && n.prev_tx_bytes == 0
            &&& p is None ==> !n.prev_counters.dom().contains(m.iface)
            &&& name != m.iface ==> (n.prev_counters.dom().contains(name)
                <==> m.prev_counters.dom().contains(name))
            &&& name != m.iface && n.prev_counters.dom().contains(name)
                ==> n.prev_counters[name] == m.prev_counters[name]
            &&& n == (AppModel {
                prev_rx_bytes: n.prev_rx_bytes,
                prev_tx_bytes: n.prev_tx_bytes,
                prev_counters: n.prev_counters,
                ..m
            })
        }),
{
}

/// A start knows nothing yet: the histories are empty, the peak is the least, the
/// order is by throughput and automatic switching is on.
pub proof fn law_start(iface: Seq<char>, ifaces: Seq<Seq<char>>, idx: usize, now: u64)
    ensures
        ({
            let m = state::fresh_app(iface, ifaces, idx, now);
            &&& m.iface == iface && m.ifaces == ifaces && m.iface_idx == idx
            &&& m.rx_history.len() == 0 && m.tx_history.len() == 0
            &&& m.sys_cpu_history.len() == 0 && m.sys_mem_history.len() == 0
            &&& m.sys_disk_read_history.len() == 0 && m.sys_disk_write_history.len() == 0
            &&& m.current_rx == 0 && m.current_tx == 0 && m.peak_speed == 1
            &&& m.prev_cpu_total == 0 && m.prev_cpu_busy == 0 && m.prev_cpu_time == now
            &&& m.prev_disk_read_sectors == 0 && m.prev_disk_write_sectors == 0
            &&& m.prev_disk_time == now
            &&& m.prev_rx_bytes == 0 && m.prev_tx_bytes == 0 && m.last_sample == now
            &&& forall|n: Seq<char>| !#[trigger] m.prev_counters.dom().contains(n)
            &&& forall|n: Seq<char>| !#[trigger] m.auto_window_bytes.dom().contains(n)
            &&& m.auto_window_start == now && m.last_auto_switch == now && m.last_conns_sample
                == now
            &&& m.auto_iface && !m.focus_conns && !m.aggregate && !m.filter_mode
            &&& m.filter.len() == 0 && !m.sort_asc
            &&& m.sort_key == crate::rows::SortKey::Throughput
            &&& m.header_y == 0 && m.col_hit.len() == 0
        }),
{
}

/// The wanted interface is among the choices at its place, before the others where
/// it was not listed; the others keep their order.
pub proof fn law_choices(listed: Option<Seq<Seq<char>>>, wanted: Seq<char>)
    ensures
        ({
            let (names, i) = state::choices(listed, wanted);
            &&& 0 <= i < names.len() && names[i] == wanted
            &&& forall|j: int| 0 <= j < i ==> #[trigger] names[j] != wanted
            &&& listed is None ==> names == seq![wanted] && i == 0
            &&& listed is Some && (listed->0).contains(wanted) ==> names == listed->0
            &&& listed is Some && !(listed->0).contains(wanted) ==> i == 0 && names.drop_first()
                == listed->0
        }),
{
    let (names, i) = state::choices(listed, wanted);
    if listed is Some {
        let l = listed->0;
        state::lemma_name_pos(l, wanted, 0);
        let p = state::name_pos(l, wanted, 0);
        if l.contains(wanted) {
            let k = choose|k: int| 0 <= k < l.len() && l[k] == wanted;
            assert(l[k] == wanted);
            assert(p < l.len());
        } else if p < l.len() {
            assert(l[p] == wanted);
            assert(l.contains(wanted));
        } else {
            assert((seq![wanted] + l).drop_first() =~= l);
        }
    } else {
        state::lemma_name_pos(seq![wanted], wanted, 0);
        assert(seq![wanted][0] == wanted);
    }
}

} // verus!
