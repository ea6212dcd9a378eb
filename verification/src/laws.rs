//! What holds of the program as a whole.

use vstd::arithmetic::div_mod::*;
use vstd::prelude::*;

use crate::conns;
use crate::conns::{AggModel, ConnModel, ProcModel};
use crate::double;
use crate::history;
use crate::history::MAX_HISTORY;
use crate::keys;
use crate::keys::{Command, Key};
use crate::procfs;
use crate::rank;
use crate::rank::SortModel;
use crate::rate;
use crate::rate::NANOS;
use crate::rows;
use crate::rows::{RowModel, SortKey};
use crate::state;
use crate::state::{AppModel, SWITCH_MARGIN};
use crate::top;

verus! {

// ── What every operation keeps ───────────────────────────────────────────────

/// Whether all numbers are at most `top`.
pub open spec fn at_most(s: Seq<nat>, top: nat) -> bool {
    forall|i: int| 0 <= i < s.len() ==> #[trigger] s[i] <= top
}

/// Whether all speeds are at most `top`.
pub open spec fn speeds_at_most(s: Seq<u64>, top: u64) -> bool {
    forall|i: int| 0 <= i < s.len() ==> #[trigger] s[i] <= top
}

/// What holds of the state at all times: the active interface is the one at its
/// position in the list, no history is longer than a day, both speed histories
/// are equally long, the peak is at least one and no recorded speed exceeds it,
/// percentages are at most a hundred, and disk rates are finite.
pub open spec fn sound(m: AppModel) -> bool {
    &&& m.iface_idx < m.ifaces.len() <= usize::MAX
    &&& m.ifaces[m.iface_idx as int] == m.iface
    &&& m.rx_history.len() == m.tx_history.len() <= MAX_HISTORY
    &&& m.sys_cpu_history.len() <= MAX_HISTORY
    &&& m.sys_mem_history.len() <= MAX_HISTORY
    &&& m.sys_disk_read_history.len() <= MAX_HISTORY
    &&& m.sys_disk_write_history.len() <= MAX_HISTORY
    &&& m.peak_speed >= 1
    &&& speeds_at_most(m.rx_history, m.peak_speed)
    &&& speeds_at_most(m.tx_history, m.peak_speed)
    &&& at_most(m.sys_cpu_history, procfs::hundred())
    &&& at_most(m.sys_mem_history, procfs::hundred())
    &&& top::all_finite(m.sys_disk_read_history)
    &&& top::all_finite(m.sys_disk_write_history)
}

/// The program starts sound with the interfaces to choose from.
pub proof fn law_start_is_sound(
    listed: Option<Seq<Seq<char>>>,
    wanted: Seq<char>,
    ifaces: Seq<Seq<char>>,
    i: usize,
    now: u64,
)
    requires
        (ifaces, i as int) == state::choices(listed, wanted),
        ifaces.len() <= usize::MAX,
    ensures
        sound(state::fresh_app(wanted, ifaces, i, now)),
{
    state::law_wanted_is_chosen(listed, wanted);
}

/// A sound state stays sound through a switch, and through a failed one.
pub proof fn law_switch_keeps_sound(m: AppModel, idx: int, now: u64)
    requires
        sound(m),
    ensures
        sound(state::switched(m, idx, now)),
        sound(state::cleared(m, now)),
{
    lemma_mod_bound(idx, m.ifaces.len() as int);
}

/// A sound state stays sound through a sample of the counters, whatever they
/// are, and through reading the counters of a new interface.
pub proof fn law_traffic_keeps_sound(
    m: AppModel,
    counters: Map<Seq<char>, (u64, u64)>,
    now: u64,
    p: Option<(u64, u64)>,
)
    requires
        sound(m),
    ensures
        sound(state::sampled_traffic(m, counters, now)),
        sound(state::rebaselined(m, p)),
{
    let a = state::with_counters(m, counters, now);
    state::lemma_counted(m, counters, procfs::sat_sub(now, m.last_sample), m.ifaces.len() as int);
    assert(sound(a));
    if let Some(i) = state::switch_target(a, now) {
        law_switch_keeps_sound(a, i, now);
    }
}

/// A sound state stays sound through a sample of the system, whatever is read.
pub proof fn law_system_keeps_sound(
    m: AppModel,
    counters: Map<Seq<char>, (u64, u64)>,
    cpu: Option<(u64, u64)>,
    mem: Option<nat>,
    disk: Option<(u64, u64)>,
    now: u64,
)
    requires
        sound(m),
    ensures
        sound(state::sampled_system(m, counters, cpu, mem, disk, now)),
{
    let a = state::recorded_speed(m, counters, now);
    assert(sound(a)) by {
        history::law_history_bounded(m.rx_history, m.current_rx);
        history::law_history_bounded(m.tx_history, m.current_tx);
        lemma_speeds(m.rx_history, m.current_rx, m.peak_speed, a.peak_speed);
        lemma_speeds(m.tx_history, m.current_tx, m.peak_speed, a.peak_speed);
    }
    let b = state::recorded_usage(a, cpu, mem, now);
    assert(sound(b)) by {
        if let Some((busy, total)) = cpu {
            let x = state::cpu_percent(a, busy, total, now);
            history::law_history_bounded(a.sys_cpu_history, x);
            lemma_remember_bound(a.sys_cpu_history, x, procfs::hundred());
        }
        let y = match mem {
            Some(p) => double::num_min(p, procfs::hundred()),
            None => 0,
        };
        history::law_history_bounded(a.sys_mem_history, y);
        lemma_remember_bound(a.sys_mem_history, y, procfs::hundred());
    }
    if let Some(p) = disk {
        let (x, y) = state::disk_rates(b, p, now);
        assert(x < double::infinity() && y < double::infinity()) by {
            if state::disk_comparable(b, p, now) {
                let ns = (now - b.prev_disk_time) as u64;
                state::lemma_sector_rate((p.0 - b.prev_disk_read_sectors) as u64, ns);
                state::lemma_sector_rate((p.1 - b.prev_disk_write_sectors) as u64, ns);
            } else {
                double::lemma_num_of_range(0);
            }
        }
        history::law_history_bounded(b.sys_disk_read_history, x);
        history::law_history_bounded(b.sys_disk_write_history, y);
        lemma_remember_finite(b.sys_disk_read_history, x);
        lemma_remember_finite(b.sys_disk_write_history, y);
    }
}

proof fn lemma_speeds(s: Seq<u64>, x: u64, before: u64, after: u64)
    requires
        speeds_at_most(s, before),
        before <= after,
        x <= after,
    ensures
        speeds_at_most(history::remembered(s, x), after),
{
    let t = s.push(x);
    assert forall|i: int| 0 <= i < t.len() implies #[trigger] t[i] <= after by {
        if i < s.len() {
            assert(s[i] <= before);
        }
    }
    if t.len() > MAX_HISTORY {
        assert forall|i: int| 0 <= i < t.drop_first().len() implies #[trigger] t.drop_first()[i]
            <= after by {
            assert(t[i + 1] <= after);
        }
    }
}

proof fn lemma_remember_bound(s: Seq<nat>, x: nat, top: nat)
    requires
        at_most(s, top),
        x <= top,
    ensures
        at_most(history::remembered(s, x), top),
{
    let t = s.push(x);
    assert forall|i: int| 0 <= i < t.len() implies #[trigger] t[i] <= top by {
        if i < s.len() {
            assert(s[i] <= top);
        }
    }
    if t.len() > MAX_HISTORY {
        assert forall|i: int| 0 <= i < t.drop_first().len() implies #[trigger] t.drop_first()[i]
            <= top by {
            assert(t[i + 1] <= top);
        }
    }
}

proof fn lemma_remember_finite(s: Seq<nat>, x: nat)
    requires
        top::all_finite(s),
        x < double::infinity(),
    ensures
        top::all_finite(history::remembered(s, x)),
{
    let t = s.push(x);
    assert forall|i: int| 0 <= i < t.len() implies #[trigger] t[i] < double::infinity() by {
        if i < s.len() {
            assert(s[i] < double::infinity());
        }
    }
    if t.len() > MAX_HISTORY {
        assert forall|i: int| 0 <= i < t.drop_first().len() implies #[trigger] t.drop_first()[i]
            < double::infinity() by {
            assert(t[i + 1] < double::infinity());
        }
    }
}

/// Keys and clicks keep a sound state sound.
pub proof fn law_keys_keep_sound(m: AppModel, key: Key, now: u64, column: SortKey)
    requires
        sound(m),
    ensures
        sound(keys::typed(m, key)),
        sound(keys::commanded(m, keys::command(key), now)),
        sound(keys::sorted_by(m, column)),
{
    let a = AppModel { auto_iface: false, last_auto_switch: now, ..m };
    law_switch_keeps_sound(m, 0, now);
    law_switch_keeps_sound(a, keys::wrapped(m.iface_idx + 1), now);
    law_switch_keeps_sound(a, keys::wrapped(m.iface_idx + m.ifaces.len() - 1), now);
}

/// A sound state can always be drawn.
pub proof fn law_sound_is_drawable(m: AppModel)
    requires
        sound(m),
    ensures
        top::all_finite(m.sys_cpu_history),
        top::all_finite(m.sys_mem_history),
        top::all_finite(m.sys_disk_read_history),
        top::all_finite(m.sys_disk_write_history),
{
    double::lemma_num_of_range(100);
}

// ── Interfaces ───────────────────────────────────────────────────────────────

/// The next interface and then the previous one, or the other way round, is the
/// interface before, whatever the list. The list is shorter than half of what a
/// machine can count.
pub proof fn law_next_and_previous(m: AppModel, t1: u64, t2: u64)
    requires
        sound(m),
        2 * m.ifaces.len() <= usize::MAX,
    ensures
        ({
            let a = keys::commanded(keys::commanded(m, Command::Next, t1), Command::Previous, t2);
            let b = keys::commanded(keys::commanded(m, Command::Previous, t1), Command::Next, t2);
            &&& a.iface == m.iface && a.iface_idx == m.iface_idx
            &&& b.iface == m.iface && b.iface_idx == m.iface_idx
        }),
{
    let n = m.ifaces.len() as int;
    let i = m.iface_idx as int;
    lemma_small_mod((i + 1) as nat, (usize::MAX + 1) as nat);
    lemma_small_mod((i + n - 1) as nat, (usize::MAX + 1) as nat);
    let up = (i + 1) % n;
    let down = (i + n - 1) % n;
    if i + 1 < n {
        lemma_small_mod((i + 1) as nat, n as nat);
    } else {
        lemma_mod_self_0(n);
    }
    lemma_mod_add_multiples_vanish(i - 1, n);
    if i >= 1 {
        lemma_small_mod((i - 1) as nat, n as nat);
    } else {
        lemma_small_mod((n - 1) as nat, n as nat);
    }
    lemma_mod_bound(i + 1, n);
    lemma_mod_bound(i + n - 1, n);
    lemma_small_mod((up + n - 1) as nat, (usize::MAX + 1) as nat);
    lemma_small_mod((down + 1) as nat, (usize::MAX + 1) as nat);
    lemma_mod_add_multiples_vanish(up - 1, n);
    if up >= 1 {
        lemma_small_mod((up - 1) as nat, n as nat);
    } else {
        lemma_small_mod((n - 1) as nat, n as nat);
    }
    if down + 1 < n {
        lemma_small_mod((down + 1) as nat, n as nat);
    } else {
        lemma_mod_self_0(n);
    }
}

/// The state after the key for the next interface has been pressed `n` times.
#[verifier::opaque]
pub open spec fn stepped(m: AppModel, n: nat, now: u64) -> AppModel
    decreases n,
{
    if n == 0 {
        m
    } else {
        keys::commanded(stepped(m, (n - 1) as nat, now), Command::Next, now)
    }
}

/// Whether the interface at `i` is reached in less than one turn.
pub open spec fn visited(m: AppModel, i: int, now: u64) -> bool {
    exists|k: nat|
        k < m.ifaces.len() && (#[trigger] stepped(m, k, now)).iface_idx == i && stepped(
            m,
            k,
            now,
        ).iface == m.ifaces[i]
}

/// Stepping from interface to interface goes around the list: as many steps as
/// there are interfaces visit every one of them, each once, and end where they
/// began.
pub proof fn law_interface_cycle(m: AppModel, now: u64)
    requires
        sound(m),
    ensures
        forall|k: nat|
            k <= m.ifaces.len() ==> {
                let a = #[trigger] stepped(m, k, now);
                &&& a.ifaces == m.ifaces
                &&& a.iface_idx == (m.iface_idx + k) % m.ifaces.len() as int
                &&& a.iface == m.ifaces[a.iface_idx as int]
            },
        forall|i: int| 0 <= i < m.ifaces.len() ==> #[trigger] visited(m, i, now),
        forall|j: nat, k: nat|
            j < k < m.ifaces.len() ==> (#[trigger] stepped(m, j, now)).iface_idx != (
            #[trigger] stepped(m, k, now)).iface_idx,
        stepped(m, m.ifaces.len(), now).iface_idx == m.iface_idx,
        stepped(m, m.ifaces.len(), now).iface == m.iface,
{
    let n = m.ifaces.len() as int;
    let i0 = m.iface_idx as int;
    assert forall|k: nat| k <= n implies {
        let a = #[trigger] stepped(m, k, now);
        &&& a.ifaces == m.ifaces
        &&& a.iface_idx == (i0 + k) % n
        &&& a.iface == m.ifaces[a.iface_idx as int]
    } by {
        lemma_stepped(m, k, now);
    }
    assert forall|i: int| 0 <= i < n implies #[trigger] visited(m, i, now) by {
        let k = if i >= i0 {
            (i - i0) as nat
        } else {
            (i - i0 + n) as nat
        };
        if i >= i0 {
            lemma_small_mod(i as nat, n as nat);
        } else {
            lemma_mod_add_multiples_vanish(i, n);
            lemma_small_mod(i as nat, n as nat);
        }
        assert(stepped(m, k, now).iface_idx == i);
    }
    assert forall|j: nat, k: nat| j < k < n implies (#[trigger] stepped(m, j, now)).iface_idx != (
    #[trigger] stepped(m, k, now)).iface_idx by {
        lemma_turn(i0, j as int, n);
        lemma_turn(i0, k as int, n);
    }
    lemma_mod_add_multiples_vanish(i0, n);
    lemma_small_mod(i0 as nat, n as nat);
}

/// Less than one turn from `i`.
proof fn lemma_turn(i: int, k: int, n: int)
    requires
        0 <= i < n,
        0 <= k < n,
    ensures
        (i + k) % n == if i + k < n {
            i + k
        } else {
            i + k - n
        },
{
    if i + k < n {
        lemma_small_mod((i + k) as nat, n as nat);
    } else {
        lemma_mod_add_multiples_vanish(i + k - n, n);
        lemma_small_mod((i + k - n) as nat, n as nat);
    }
}

proof fn lemma_stepped(m: AppModel, k: nat, now: u64)
    requires
        sound(m),
    ensures
        ({
            let a = stepped(m, k, now);
            &&& a.ifaces == m.ifaces
            &&& a.iface_idx == (m.iface_idx + k) % m.ifaces.len() as int
            &&& a.iface == m.ifaces[a.iface_idx as int]
        }),
    decreases k,
{
    reveal_with_fuel(stepped, 2);
    let n = m.ifaces.len() as int;
    if k == 0 {
        lemma_small_mod(m.iface_idx as nat, n as nat);
    } else {
        lemma_stepped(m, (k - 1) as nat, now);
        let i = stepped(m, (k - 1) as nat, now).iface_idx as int;
        lemma_mod_bound(m.iface_idx + k - 1, n);
        lemma_small_mod((i + 1) as nat, (usize::MAX + 1) as nat);
        lemma_mod_bound(i + 1, n);
        lemma_add_mod_noop(m.iface_idx + k - 1, 1, n);
        lemma_add_mod_noop(i, 1, n);
        lemma_small_mod(i as nat, n as nat);
    }
}

/// Switching by hand turns automatic switching off; every switch forgets the
/// histories, the speeds and the session peak.
pub proof fn law_switch_forgets(m: AppModel, c: Command, idx: int, now: u64)
    requires
        m.ifaces.len() > 0,
    ensures
        c == Command::Next || c == Command::Previous ==> !keys::commanded(m, c, now).auto_iface
            && is_blank(keys::commanded(m, c, now)),
        is_blank(state::switched(m, idx, now)),
{
}

/// Whether nothing has been recorded yet.
pub open spec fn is_blank(m: AppModel) -> bool {
    &&& m.rx_history.len() == 0
    &&& m.tx_history.len() == 0
    &&& m.sys_cpu_history.len() == 0
    &&& m.sys_mem_history.len() == 0
    &&& m.sys_disk_read_history.len() == 0
    &&& m.sys_disk_write_history.len() == 0
    &&& m.current_rx == 0
    &&& m.current_tx == 0
    &&& m.peak_speed == 1
}

/// An automatic switch happens only if it is wanted, more than a second after
/// the last one, and to another interface that has more traffic than any other
/// and more than the margin ahead of the active one.
pub proof fn law_auto_switch_is_earned(m: AppModel, now: u64)
    requires
        state::bytes_of(m.auto_window_bytes, m.iface) + SWITCH_MARGIN <= u64::MAX,
    ensures
        state::switch_target(m, now) matches Some(i) ==> {
            let b = state::bytes_of(m.auto_window_bytes, m.ifaces[i]);
            &&& 0 <= i < m.ifaces.len()
            &&& m.auto_iface
            &&& now - m.last_auto_switch > NANOS
            &&& m.ifaces[i] != m.iface
            &&& b > state::bytes_of(m.auto_window_bytes, m.iface) + SWITCH_MARGIN
            &&& forall|j: int|
                0 <= j < m.ifaces.len() ==> state::bytes_of(m.auto_window_bytes, #[trigger] m.ifaces[j])
                    <= b
        },
{
    state::law_busiest(m);
    if let Some(b) = state::busiest(m) {
        state::lemma_name_pos(m.ifaces, b, 0);
    }
}

/// An interface that is clearly ahead is switched to: if automatic switching is
/// on, the last switch is more than a second ago, and some interface has more
/// traffic than the active one by more than the margin.
pub proof fn law_auto_switch_happens(m: AppModel, now: u64, j: int)
    requires
        m.auto_iface,
        now - m.last_auto_switch > NANOS,
        0 <= j < m.ifaces.len(),
        state::bytes_of(m.auto_window_bytes, m.ifaces[j]) > state::bytes_of(m.auto_window_bytes, m.iface)
            + SWITCH_MARGIN,
    ensures
        state::switch_target(m, now) is Some,
{
    state::law_busiest(m);
    let b = state::busiest(m)->0;
    state::lemma_name_pos(m.ifaces, b, 0);
    if state::name_pos(m.ifaces, b, 0) == m.ifaces.len() {
        let k = choose|k: int| 0 <= k < m.ifaces.len() && m.ifaces[k] == b;
        assert(m.ifaces[k] != b);
    }
}

/// After an automatic switch there is no other one for a second, whatever the
/// traffic.
pub proof fn law_no_thrashing(m: AppModel, now: u64, later: AppModel, t: u64)
    requires
        state::switch_target(m, now) is Some,
        later.last_auto_switch == state::auto_switched(m, now).last_auto_switch,
        t <= now + NANOS,
    ensures
        state::switch_target(later, t) is None,
{
}

/// With automatic switching off, or without traffic, nothing is ever switched.
pub proof fn law_auto_switch_off(m: AppModel, now: u64)
    requires
        !m.auto_iface || state::busiest(m) is None,
    ensures
        state::auto_switched(m, now) == m,
{
}

// ── Speed ────────────────────────────────────────────────────────────────────

/// The speed of a counter that has moved from `prev` to `cur`, in whole bytes per
/// second.
pub open spec fn whole_speed(prev: u64, cur: u64, ns: u64) -> u64 {
    double::num_floor(rate::per_second(procfs::sat_sub(cur, prev), ns)) as u64
}

/// The speed is what the counters of the active interface have gained since the
/// previous sample, divided by the time since then, cut to whole bytes, even where
/// they were zero then. Where no counters are known from before, or
/// no time has passed, it stays as it was.
pub proof fn law_speed(m: AppModel, counters: Map<Seq<char>, (u64, u64)>, now: u64)
    requires
        m.ifaces.no_duplicates(),
        m.ifaces.contains(m.iface),
        counters.dom().contains(m.iface),
    ensures
        ({
            let a = state::with_counters(m, counters, now);
            let c = counters[m.iface];
            match state::measured_from(m, m.iface) {
                Some(prev) if now > m.last_sample => {
                    let ns = (now - m.last_sample) as u64;
                    &&& a.current_rx == whole_speed(prev.0, c.0, ns)
                    &&& a.current_tx == whole_speed(prev.1, c.1, ns)
                },
                _ => a.current_rx == m.current_rx && a.current_tx == m.current_tx,
            }
        }),
{
    let k = choose|k: int| 0 <= k < m.ifaces.len() && m.ifaces[k] == m.iface;
    let e = procfs::sat_sub(now, m.last_sample);
    lemma_untouched(m, counters, e, k);
    state::lemma_counted(m, counters, e, k);
    lemma_after_own(m, counters, e, k, m.ifaces.len() as int);
}

/// Counting other interfaces changes neither the speed nor the counters of the
/// active one.
proof fn lemma_untouched(m: AppModel, counters: Map<Seq<char>, (u64, u64)>, e: u64, n: int)
    requires
        0 <= n <= m.ifaces.len(),
        forall|i: int| 0 <= i < n ==> #[trigger] m.ifaces[i] != m.iface,
    ensures
        ({
            let a = state::counted(m, counters, e, n);
            &&& a.current_rx == m.current_rx && a.current_tx == m.current_tx
            &&& state::measured_from(a, m.iface) == state::measured_from(m, m.iface)
        }),
    decreases n,
{
    if n > 0 {
        lemma_untouched(m, counters, e, n - 1);
        state::lemma_counted(m, counters, e, n - 1);
        assert(m.ifaces[n - 1] != m.iface);
    }
}

proof fn lemma_after_own(m: AppModel, counters: Map<Seq<char>, (u64, u64)>, e: u64, k: int, n: int)
    requires
        0 <= k < n <= m.ifaces.len(),
        m.ifaces.no_duplicates(),
        m.ifaces[k] == m.iface,
    ensures
        state::counted(m, counters, e, n).current_rx == state::counted(m, counters, e, k + 1).current_rx,
        state::counted(m, counters, e, n).current_tx == state::counted(m, counters, e, k + 1).current_tx,
    decreases n,
{
    if n > k + 1 {
        lemma_after_own(m, counters, e, k, n - 1);
        state::lemma_counted(m, counters, e, n - 1);
        assert(m.ifaces[n - 1] != m.ifaces[k]);
    }
}

/// The first sample on a new interface is measured from the counters read at the
/// switch, not from those of the interface before. Where they could not be read
/// the speed is zero.
pub proof fn law_first_sample_after_switch(
    m: AppModel,
    idx: int,
    at: u64,
    p: Option<(u64, u64)>,
    counters: Map<Seq<char>, (u64, u64)>,
    now: u64,
)
    requires
        m.ifaces.len() > 0,
        m.ifaces.no_duplicates(),
        counters.dom().contains(state::switched(m, idx, at).iface),
    ensures
        ({
            let b = state::rebaselined(state::switched(m, idx, at), p);
            let a = state::with_counters(b, counters, now);
            let c = counters[b.iface];
            match p {
                Some((rx, tx)) if now > at => {
                    &&& a.current_rx == whole_speed(rx, c.0, (now - at) as u64)
                    &&& a.current_tx == whole_speed(tx, c.1, (now - at) as u64)
                },
                _ => a.current_rx == 0 && a.current_tx == 0,
            }
        }),
{
    let b = state::rebaselined(state::switched(m, idx, at), p);
    lemma_mod_bound(idx, m.ifaces.len() as int);
    assert(b.ifaces.contains(b.iface)) by {
        assert(b.ifaces[idx % m.ifaces.len() as int] == b.iface);
    }
    law_speed(b, counters, now);
}

/// What a sample adds to the window of an interface is what its counters have
/// gained since the sample before, received and sent together; and those counters
/// are what the next sample is measured from.
pub proof fn law_window_adds_up(
    m: AppModel,
    counters: Map<Seq<char>, (u64, u64)>,
    now: u64,
    name: Seq<char>,
)
    requires
        m.ifaces.no_duplicates(),
        m.ifaces.contains(name),
        counters.dom().contains(name),
    ensures
        ({
            let a = state::with_counters(m, counters, now);
            let c = counters[name];
            let gain = state::gained(state::measured_from(m, name), c);
            &&& state::bytes_of(a.auto_window_bytes, name) == procfs::wrap_add(
                state::bytes_of(m.auto_window_bytes, name),
                procfs::wrap_add(gain.0, gain.1),
            )
            &&& state::measured_from(a, name) == Some(c)
        }),
{
    let k = choose|k: int| 0 <= k < m.ifaces.len() && m.ifaces[k] == name;
    let e = procfs::sat_sub(now, m.last_sample);
    lemma_others(m, counters, e, k, 0, k);
    state::lemma_counted(m, counters, e, k);
    lemma_others(m, counters, e, k, k + 1, m.ifaces.len() as int);
}

/// Counting the interfaces from `i` up to `n`, that at `k` not among them, leaves
/// its window and counters alone.
proof fn lemma_others(
    m: AppModel,
    counters: Map<Seq<char>, (u64, u64)>,
    e: u64,
    k: int,
    i: int,
    n: int,
)
    requires
        m.ifaces.no_duplicates(),
        0 <= k < m.ifaces.len(),
        0 <= i <= n <= m.ifaces.len(),
        n <= k || k < i,
    ensures
        ({
            let a = state::counted(m, counters, e, i);
            let b = state::counted(m, counters, e, n);
            &&& state::bytes_of(b.auto_window_bytes, m.ifaces[k]) == state::bytes_of(
                a.auto_window_bytes,
                m.ifaces[k],
            )
            &&& state::measured_from(b, m.ifaces[k]) == state::measured_from(a, m.ifaces[k])
        }),
    decreases n,
{
    if n > i {
        lemma_others(m, counters, e, k, i, n - 1);
        assert(m.ifaces[n - 1] != m.ifaces[k]);
    }
}

/// A new window begins without traffic.
pub proof fn law_window_restarts(
    m: AppModel,
    counters: Map<Seq<char>, (u64, u64)>,
    now: u64,
    name: Seq<char>,
)
    requires
        state::window_over(m, now),
    ensures
        state::bytes_of(state::sampled_traffic(m, counters, now).auto_window_bytes, name) == 0,
        state::sampled_traffic(m, counters, now).auto_window_start == now,
{
}

// ── Keys ─────────────────────────────────────────────────────────────────────

/// Whatever is typed and then erased leaves the filter as it was.
pub proof fn law_backspace_undoes_typing(m: AppModel, c: char)
    ensures
        keys::typed(keys::typed(m, Key::Char(c)), Key::Backspace) == m,
{
    assert(m.filter.push(c).drop_last() =~= m.filter);
}

/// Focus, order and automatic switching are what they were after the same key
/// has been pressed twice. Grouping is, too, and the rows are back in the order
/// by throughput.
pub proof fn law_toggles(m: AppModel, t1: u64, t2: u64)
    ensures
        keys::commanded(keys::commanded(m, Command::Focus, t1), Command::Focus, t2) == m,
        keys::commanded(keys::commanded(m, Command::Flip, t1), Command::Flip, t2) == m,
        keys::commanded(keys::commanded(m, Command::Auto, t1), Command::Auto, t2) == (AppModel {
            last_auto_switch: t2,
            ..m
        }),
        keys::commanded(keys::commanded(m, Command::Group, t1), Command::Group, t2) == (AppModel {
            sort_key: SortKey::Throughput,
            sort_asc: false,
            ..m
        }),
{
}

/// After a reset nothing is filtered and nothing recorded.
pub proof fn law_reset(m: AppModel, now: u64)
    ensures
        ({
            let a = keys::commanded(m, Command::Reset, now);
            &&& a.filter.len() == 0 && !a.filter_mode
            &&& a.rx_history.len() == 0 && a.tx_history.len() == 0
            &&& a.sys_cpu_history.len() == 0 && a.sys_mem_history.len() == 0
            &&& a.sys_disk_read_history.len() == 0 && a.sys_disk_write_history.len() == 0
            &&& a.peak_speed == 1
            &&& a.iface == m.iface && a.iface_idx == m.iface_idx
        }),
{
}

/// While a filter is being typed, no key leaves the program or changes anything
/// but the filter.
pub proof fn law_typing_is_safe(m: AppModel, key: Key)
    ensures
        keys::typed(m, key) == (AppModel {
            filter: keys::typed(m, key).filter,
            filter_mode: keys::typed(m, key).filter_mode,
            ..m
        }),
{
}

/// The first click on a title sorts by that column in descending order; every
/// further click reverses the order.
pub proof fn law_clicks(m: AppModel, key: SortKey)
    ensures
        m.sort_key != key ==> keys::sorted_by(m, key).sort_key == key && !keys::sorted_by(m, key).sort_asc,
        keys::sorted_by(keys::sorted_by(m, key), key).sort_key == key,
        keys::sorted_by(keys::sorted_by(m, key), key).sort_asc == !keys::sorted_by(m, key).sort_asc,
{
}

/// Rotating through the columns comes back to where it began.
pub proof fn law_rotation_cycles(m: AppModel, now: u64)
    requires
        rows::columns(m.aggregate).contains(m.sort_key),
    ensures
        rotated(m, rows::columns(m.aggregate).len(), now).sort_key == m.sort_key,
{
    let order = rows::columns(m.aggregate);
    let i = choose|i: int| 0 <= i < order.len() && order[i] == m.sort_key;
    rows::lemma_columns_distinct(m.aggregate);
    lemma_rotated(m, i, order.len(), now);
    lemma_mod_add_multiples_vanish(i, order.len() as int);
    lemma_small_mod(i as nat, order.len());
}

/// The state after the column has been rotated `n` times.
pub open spec fn rotated(m: AppModel, n: nat, now: u64) -> AppModel
    decreases n,
{
    if n == 0 {
        m
    } else {
        keys::commanded(rotated(m, (n - 1) as nat, now), Command::Rotate, now)
    }
}

proof fn lemma_rotated(m: AppModel, i: int, n: nat, now: u64)
    requires
        0 <= i < rows::columns(m.aggregate).len(),
        rows::columns(m.aggregate)[i] == m.sort_key,
    ensures
        rotated(m, n, now).aggregate == m.aggregate,
        rotated(m, n, now).sort_key == rows::columns(m.aggregate)[(i + n) % (rows::columns(
            m.aggregate,
        ).len() as int)],
    decreases n,
{
    let order = rows::columns(m.aggregate);
    let len = order.len() as int;
    rows::lemma_columns_distinct(m.aggregate);
    if n == 0 {
        lemma_small_mod(i as nat, len as nat);
    } else {
        lemma_rotated(m, i, (n - 1) as nat, now);
        let k = (i + n - 1) % len;
        lemma_mod_bound(i + n - 1, len);
        rows::law_columns_cycle(m.aggregate, k);
        lemma_add_mod_noop_right(1, i + n - 1, len);
    }
}

// ── The order of the rows ────────────────────────────────────────────────────

/// Whether connections stand in the order of their throughput, the busiest first
/// and those without any rate last.
pub open spec fn busiest_first(cs: Seq<ConnModel>) -> bool {
    forall|i: int, j: int|
        0 <= i < j < cs.len() ==> !rank::before(
            conns::throughput(#[trigger] cs[i]),
            conns::throughput(#[trigger] cs[j]),
        )
}

/// Whether processes stand in the order of their throughput.
pub open spec fn busiest_procs_first(rows: Seq<AggModel>) -> bool {
    forall|i: int, j: int|
        0 <= i < j < rows.len() ==> !rank::before(
            conns::agg_throughput(#[trigger] rows[i]),
            conns::agg_throughput(#[trigger] rows[j]),
        )
}

/// A sample lists the busiest connections first.
pub proof fn law_sample_lists_busiest_first(found: Seq<ConnModel>, listed: Seq<ConnModel>)
    requires
        found.len() <= usize::MAX,
        rank::sorts(found, conns::throughputs(found), false, listed),
    ensures
        busiest_first(listed),
        listed.len() == found.len(),
{
    rank::law_sorted_rows(found, conns::throughputs(found), false, listed);
    let from = rank::order_for(conns::throughputs(found), false);
    assert forall|i: int, j: int| 0 <= i < j < listed.len() implies !rank::before(
        conns::throughput(#[trigger] listed[i]),
        conns::throughput(#[trigger] listed[j]),
    ) by {
        assert(listed[i] == found[from[i] as int]);
        assert(listed[j] == found[from[j] as int]);
    }
}

/// Grouping lists the busiest processes first.
pub proof fn law_groups_list_busiest_first(groups: Seq<AggModel>, listed: Seq<AggModel>)
    requires
        groups.len() <= usize::MAX,
        rank::sorts(groups, conns::agg_throughputs(groups), false, listed),
    ensures
        busiest_procs_first(listed),
{
    rank::law_sorted_rows(groups, conns::agg_throughputs(groups), false, listed);
    let from = rank::order_for(conns::agg_throughputs(groups), false);
    assert forall|i: int, j: int| 0 <= i < j < listed.len() implies !rank::before(
        conns::agg_throughput(#[trigger] listed[i]),
        conns::agg_throughput(#[trigger] listed[j]),
    ) by {
        assert(listed[i] == groups[from[i] as int]);
        assert(listed[j] == groups[from[j] as int]);
    }
}

/// The view by process groups what the view by connection shows: one row for every
/// process that occurs there, with the number of its connections and the sums of
/// their rates, the highest sum first. The counts add up to the connections shown.
pub proof fn law_view_by_process(
    cs: Seq<ConnModel>,
    filter: Seq<char>,
    procs: Map<u32, ProcModel>,
    listed: Seq<AggModel>,
)
    requires
        cs.len() <= usize::MAX,
        ({
            let groups = conns::grouped(cs, filter, procs, cs.len() as int);
            rank::sorts(groups, conns::agg_throughputs(groups), false, listed)
        }),
    ensures
        ({
            let shown = conns::passing(cs, filter);
            &&& conns::are_groups(listed, shown, procs)
            &&& conns::total_count(listed) == shown.len()
            &&& forall|i: int, j: int|
                0 <= i < j < listed.len() ==> both_ways(#[trigger] listed[i]) >= both_ways(
                    #[trigger] listed[j],
                )
        }),
{
    let groups = conns::grouped(cs, filter, procs, cs.len() as int);
    let shown = conns::passing(cs, filter);
    conns::law_grouping(cs, filter, procs, cs.len() as int);
    assert(cs.take(cs.len() as int) =~= cs);
    conns::lemma_groups_bounded(cs, filter, procs, cs.len() as int);
    lemma_groups_listed(groups, listed, shown, procs);
    law_groups_list_busiest_first(groups, listed);
    conns::lemma_counts_add_up(listed, shown, procs);
    lemma_highest_first(listed);
}

/// Processes in the order of their throughput have the highest sum of rates first.
proof fn lemma_highest_first(listed: Seq<AggModel>)
    requires
        busiest_procs_first(listed),
    ensures
        forall|i: int, j: int|
            0 <= i < j < listed.len() ==> both_ways(#[trigger] listed[i]) >= both_ways(
                #[trigger] listed[j],
            ),
{
    assert forall|i: int, j: int| 0 <= i < j < listed.len() implies both_ways(#[trigger] listed[i])
        >= both_ways(#[trigger] listed[j]) by {
        assert(!rank::before(
            conns::agg_throughput(listed[i]),
            conns::agg_throughput(listed[j]),
        ));
        double::lemma_nearest_zero(1);
    }
}

/// Groups remain groups when they are sorted.
proof fn lemma_groups_listed(
    groups: Seq<AggModel>,
    listed: Seq<AggModel>,
    shown: Seq<ConnModel>,
    procs: Map<u32, ProcModel>,
)
    requires
        groups.len() <= usize::MAX,
        conns::are_groups(groups, shown, procs),
        rank::sorts(groups, conns::agg_throughputs(groups), false, listed),
    ensures
        conns::are_groups(listed, shown, procs),
{
    let keys = conns::agg_throughputs(groups);
    rank::law_sorted_rows(groups, keys, false, listed);
    let from = rank::order_for(keys, false);
    assert forall|i: int| 0 <= i < listed.len() implies 0 <= #[trigger] from[i] < groups.len()
        && listed[i] == groups[from[i] as int] by {}
    lemma_groups_in_order(groups, from, listed, shown, procs);
}

/// Groups remain groups in any other order.
proof fn lemma_groups_in_order(
    groups: Seq<AggModel>,
    from: Seq<usize>,
    listed: Seq<AggModel>,
    shown: Seq<ConnModel>,
    procs: Map<u32, ProcModel>,
)
    requires
        conns::are_groups(groups, shown, procs),
        from.len() == listed.len(),
        from.no_duplicates(),
        forall|i: int|
            0 <= i < listed.len() ==> 0 <= #[trigger] from[i] < groups.len() && listed[i]
                == groups[from[i] as int],
        forall|k: int| 0 <= k < groups.len() ==> listed.contains(#[trigger] groups[k]),
    ensures
        conns::are_groups(listed, shown, procs),
{
    assert forall|i: int| 0 <= i < listed.len() implies conns::sums_up(
        #[trigger] listed[i],
        conns::owned(shown, listed[i].comm, listed[i].pid),
        procs,
    ) by {
        assert(listed[i] == groups[from[i] as int]);
    }
    assert forall|i: int, j: int| 0 <= i < j < listed.len() implies !((
    #[trigger] listed[i]).comm == (#[trigger] listed[j]).comm && listed[i].pid == listed[j].pid) by {
        assert(listed[i] == groups[from[i] as int]);
        assert(listed[j] == groups[from[j] as int]);
        assert(from[i] != from[j]);
        let a = from[i] as int;
        let b = from[j] as int;
        if a < b {
            assert(!(groups[a].comm == groups[b].comm && groups[a].pid == groups[b].pid));
        } else {
            assert(!(groups[b].comm == groups[a].comm && groups[b].pid == groups[a].pid));
        }
    }
    assert forall|k: int| 0 <= k < shown.len() implies #[trigger] conns::has_row(
        listed,
        shown[k],
    ) by {
        assert(conns::has_row(groups, shown[k]));
        let g = choose|g: int|
            0 <= g < groups.len() && conns::is_owner(#[trigger] groups[g], shown[k]);
        assert(listed.contains(groups[g]));
        let i = choose|i: int| 0 <= i < listed.len() && listed[i] == groups[g];
        assert(conns::is_owner(listed[i], shown[k]));
    }
    assert forall|i: int| 0 <= i < listed.len() implies #[trigger] conns::has_conn(
        listed[i],
        shown,
    ) by {
        assert(conns::has_conn(groups[from[i] as int], shown));
        assert(listed[i] == groups[from[i] as int]);
    }
}

/// Bytes per second of a process in both directions.
pub open spec fn both_ways(a: AggModel) -> nat {
    double::num_add(a.rx_rate, a.tx_rate)
}

/// A filter does not change the order.
pub proof fn law_filter_keeps_order(cs: Seq<ConnModel>, filter: Seq<char>)
    requires
        busiest_first(cs),
    ensures
        busiest_first(conns::passing(cs, filter)),
    decreases cs.len(),
{
    let pred = |c: ConnModel| conns::passes(c, filter);
    reveal(Seq::filter);
    if cs.len() > 0 {
        let front = cs.drop_last();
        law_filter_keeps_order(front, filter);
        let kept = front.filter(pred);
        assert forall|i: int| 0 <= i < kept.len() implies !rank::before(
            conns::throughput(#[trigger] kept[i]),
            conns::throughput(cs.last()),
        ) by {
            assert(kept.contains(kept[i]));
            front.lemma_filter_contains_rev(pred, kept[i]);
            let k = choose|k: int| 0 <= k < front.len() && front[k] == kept[i];
            assert(cs[k] == kept[i]);
        }
    }
}

/// Sorting by throughput in descending order, as at the start, leaves connections
/// where they are once the busiest come first.
pub proof fn law_default_order(cs: Seq<ConnModel>)
    requires
        busiest_first(cs),
        cs.len() <= usize::MAX,
    ensures
        ({
            let rows = cs.map_values(|c: ConnModel| RowModel::Detail(c));
            rank::sorted(rows, rows::row_values(rows, SortKey::Throughput), false) == rows
        }),
{
    let rows = cs.map_values(|c: ConnModel| RowModel::Detail(c));
    let keys = rows::row_values(rows, SortKey::Throughput);
    assert forall|i: int, j: int| 0 <= i < j < keys.len() implies !rank::before(
        #[trigger] keys[i],
        #[trigger] keys[j],
    ) by {
        assert(!rank::before(conns::throughput(cs[i]), conns::throughput(cs[j])));
        double::lemma_nearest_zero(1);
    }
    lemma_stays(rows, keys);
}

/// The same holds of processes.
pub proof fn law_default_order_of_processes(rows: Seq<AggModel>)
    requires
        busiest_procs_first(rows),
        rows.len() <= usize::MAX,
    ensures
        ({
            let all = rows.map_values(|a: AggModel| RowModel::Agg(a));
            rank::sorted(all, rows::row_values(all, SortKey::Throughput), false) == all
        }),
{
    let all = rows.map_values(|a: AggModel| RowModel::Agg(a));
    let keys = rows::row_values(all, SortKey::Throughput);
    assert forall|i: int, j: int| 0 <= i < j < keys.len() implies !rank::before(
        #[trigger] keys[i],
        #[trigger] keys[j],
    ) by {
        assert(!rank::before(conns::agg_throughput(rows[i]), conns::agg_throughput(rows[j])));
        double::lemma_nearest_zero(1);
    }
    lemma_stays(all, keys);
}

/// Rows that already stand in descending order stay where they are.
proof fn lemma_stays(rows: Seq<RowModel>, keys: Seq<SortModel>)
    requires
        rows.len() == keys.len() <= usize::MAX,
        forall|i: int, j: int|
            0 <= i < j < keys.len() ==> !rank::before(#[trigger] keys[i], #[trigger] keys[j]),
    ensures
        rank::sorted(rows, keys, false) == rows,
{
    let stay = Seq::new(keys.len(), |i: int| i as usize);
    assert forall|x: usize| 0 <= x < keys.len() implies stay.contains(x) by {
        assert(stay[x as int] == x);
    }
    assert forall|i: int, j: int| 0 <= i < j < stay.len() implies rank::precedes(
        keys,
        false,
        #[trigger] stay[i] as int,
        #[trigger] stay[j] as int,
    ) by {
        assert(!rank::before(keys[i], keys[j]));
    }
    rank::law_order_exists(keys, false);
    rank::law_order_unique(keys, false, stay, rank::order_for(keys, false));
    assert(rank::sorted(rows, keys, false) =~= rows);
}

} // verus!
