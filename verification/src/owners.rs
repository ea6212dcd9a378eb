//! What is known of the processes behind connections, and of their peers.

use vstd::arithmetic::power2::*;
use vstd::prelude::*;

use crate::conns;
use crate::conns::{AggModel, ConnModel, ConnMonitor, IpAddress, ProcModel, ReadingModel};
use crate::double;
use crate::double::SIG;
use crate::measuring;
use crate::procfs;
use crate::rank;
use crate::rate;
use crate::rounding;
use crate::text;

verus! {

// ── Processes ────────────────────────────────────────────────────────────────

proof fn lemma_unread(
    m: ConnMonitor,
    rs: Seq<ReadingModel>,
    clk: u64,
    now: u64,
    pid: u32,
    i: int,
    n: int,
)
    requires
        0 <= i <= n <= rs.len(),
        forall|j: int| i <= j < n ==> (#[trigger] rs[j]).pid != pid,
    ensures
        conns::at(conns::ticks_after(m.proc_prev@, rs, now, n), pid) == conns::at(
            conns::ticks_after(m.proc_prev@, rs, now, i),
            pid,
        ),
        conns::at(conns::disk_after(m.proc_io_prev@, rs, now, n), pid) == conns::at(
            conns::disk_after(m.proc_io_prev@, rs, now, i),
            pid,
        ),
        conns::at(conns::procs_after(m, rs, clk, now, n), pid) == conns::at(
            conns::procs_after(m, rs, clk, now, i),
            pid,
        ),
    decreases n - i,
{
    if i < n {
        lemma_unread(m, rs, clk, now, pid, i, n - 1);
        assert(rs[n - 1].pid != pid);
    }
}

/// The only reading of a process in a refresh makes all that is shown of it. Its
/// processor share is the ticks that it used since the refresh before over those
/// that passed, as a hundred for each processor; its disk rates are the bytes since
/// then over the time since then; its memory is a share of all; its time is all
/// ticks in seconds. What is not known is zero, and an unknown account is a dash.
pub proof fn law_process_figures(
    m: ConnMonitor,
    rs: Seq<ReadingModel>,
    clk: u64,
    now: u64,
    i: int,
)
    requires
        0 <= i < rs.len(),
        forall|j: int| 0 <= j < rs.len() && j != i ==> (#[trigger] rs[j]).pid != rs[i].pid,
        clk > 0,
        rs[i].ticks is Some ==> (rs[i].ticks->0).0 + (rs[i].ticks->0).1 <= u64::MAX,
    ensures
        ({
            let r = rs[i];
            let all = conns::procs_after(m, rs, clk, now, rs.len() as int);
            let p = all[r.pid];
            let used = (r.ticks->0).0 + (r.ticks->0).1;
            let before = m.proc_prev@[r.pid];
            let seen = r.ticks is Some && m.proc_prev@.dom().contains(r.pid) && now > before.1;
            let io = m.proc_io_prev@[r.pid];
            let wrote = r.io is Some && m.proc_io_prev@.dom().contains(r.pid) && now > io.2;
            &&& all.dom().contains(r.pid)
            &&& r.status is None ==> p.user == seq!['-'] && p.mem_pct == 0
            &&& r.status is Some ==> p.user == (r.status->0).0
            &&& r.status is Some && m.mem_total_kb == 0 ==> p.mem_pct == 0
            &&& r.status is Some && m.mem_total_kb > 0 ==> p.mem_pct == double::num_mul(
                double::num_div(
                    double::num_of((r.status->0).1 as nat),
                    double::num_of(m.mem_total_kb as nat),
                ),
                double::num_of(100),
            )
            &&& r.ticks is None ==> p.time_secs == 0
            &&& r.ticks is Some ==> p.time_secs == double::num_div(
                double::num_of(used as nat),
                double::num_of(clk as nat),
            )
            &&& !seen ==> p.cpu_pct == 0
            &&& seen && used >= before.0 ==> p.cpu_pct == double::num_mul(
                double::num_div(
                    double::num_of((used - before.0) as nat),
                    double::num_mul(
                        double::num_of(clk as nat),
                        rate::secs((now - before.1) as u64),
                    ),
                ),
                double::num_of(100),
            )
            &&& !wrote ==> p.disk_read_rate == 0 && p.disk_write_rate == 0
            &&& wrote && (r.io->0).0 >= io.0 ==> p.disk_read_rate == double::num_div(
                double::num_of(((r.io->0).0 - io.0) as nat),
                rate::secs((now - io.2) as u64),
            )
            &&& wrote && (r.io->0).1 >= io.1 ==> p.disk_write_rate == double::num_div(
                double::num_of(((r.io->0).1 - io.1) as nat),
                rate::secs((now - io.2) as u64),
            )
            &&& wrote && (r.io->0).0 <= io.0 ==> p.disk_read_rate == 0
            &&& wrote && (r.io->0).1 <= io.1 ==> p.disk_write_rate == 0
        }),
{
    let r = rs[i];
    let n = rs.len() as int;
    lemma_unread(m, rs, clk, now, r.pid, 0, i);
    lemma_unread(m, rs, clk, now, r.pid, i + 1, n);
    let all = conns::procs_after(m, rs, clk, now, n);
    assert(conns::at(all, r.pid) == conns::at(
        conns::procs_after(m, rs, clk, now, i + 1),
        r.pid,
    ));
    if r.io is Some && m.proc_io_prev@.dom().contains(r.pid) && now > m.proc_io_prev@[r.pid].2 {
        rate::lemma_nothing((now - m.proc_io_prev@[r.pid].2) as u64);
    }
}

/// What a refresh leaves to be measured against: the ticks and bytes of each process
/// that was read, with its time; of bytes that could not be read nothing is kept, and
/// of a process that was not read no ticks.
pub proof fn law_process_baselines(
    m: ConnMonitor,
    rs: Seq<ReadingModel>,
    clk: u64,
    now: u64,
    i: int,
    other: u32,
)
    requires
        0 <= i < rs.len(),
        forall|j: int| i < j < rs.len() ==> (#[trigger] rs[j]).pid != rs[i].pid,
    ensures
        ({
            let r = rs[i];
            let n = rs.len() as int;
            let all = conns::procs_after(m, rs, clk, now, n);
            let ticks = conns::ticks_after(m.proc_prev@, rs, now, n).restrict(all.dom());
            let disk = conns::disk_after(m.proc_io_prev@, rs, now, n);
            &&& r.ticks is Some && (r.ticks->0).0 + (r.ticks->0).1 <= u64::MAX
                ==> ticks.dom().contains(r.pid) && ticks[r.pid].0 == (r.ticks->0).0 + (
            r.ticks->0).1 && ticks[r.pid].1 == now
            &&& r.io is Some ==> disk.dom().contains(r.pid) && disk[r.pid] == (
                (r.io->0).0,
                (r.io->0).1,
                now,
            )
            &&& r.io is None ==> !disk.dom().contains(r.pid)
            &&& (forall|j: int| 0 <= j < n ==> (#[trigger] rs[j]).pid != other) ==> {
                &&& !all.dom().contains(other)
                &&& !ticks.dom().contains(other)
                &&& disk.dom().contains(other) <==> m.proc_io_prev@.dom().contains(other)
                &&& disk.dom().contains(other) ==> disk[other] == m.proc_io_prev@[other]
            }
        }),
{
    let r = rs[i];
    let n = rs.len() as int;
    lemma_unread(m, rs, clk, now, r.pid, i + 1, n);
    let all = conns::procs_after(m, rs, clk, now, n);
    let ticks = conns::ticks_after(m.proc_prev@, rs, now, n);
    let disk = conns::disk_after(m.proc_io_prev@, rs, now, n);
    assert(conns::at(all, r.pid) is Some);
    assert(conns::at(ticks, r.pid) == conns::at(
        conns::ticks_after(m.proc_prev@, rs, now, i + 1),
        r.pid,
    ));
    assert(conns::at(disk, r.pid) == conns::at(
        conns::disk_after(m.proc_io_prev@, rs, now, i + 1),
        r.pid,
    ));
    if forall|j: int| 0 <= j < n ==> (#[trigger] rs[j]).pid != other {
        lemma_unread(m, rs, clk, now, other, 0, n);
        assert(conns::at(all, other) is None);
        assert(conns::at(disk, other) == conns::at(m.proc_io_prev@, other));
    }
}

/// A process that uses all ticks of one processor has a share of a hundred, whatever
/// a tick is and however long it is watched.
pub proof fn law_busy_processor(clk: u64, seconds: nat)
    requires
        clk > 0,
        seconds > 0,
        clk * seconds < SIG,
        seconds * 1_000_000_000 <= u64::MAX,
    ensures
        rate::cpu_share((clk * seconds) as u64, clk, (seconds * 1_000_000_000) as u64)
            == measuring::whole(100),
{
    let o = double::one();
    let c = clk as nat;
    let n = c * seconds;
    let ns = (seconds * 1_000_000_000) as u64;
    lemma_pow2_pos(1074);
    assert(ns / 1_000_000_000 == seconds && ns % 1_000_000_000 == 0);
    measuring::law_seconds(ns);
    assert(c <= n && seconds <= n && n > 0) by (nonlinear_arith)
        requires
            n == c * seconds,
            c >= 1,
            seconds >= 1,
    ;
    rounding::lemma_whole_exact(c, 1);
    rounding::lemma_whole_exact(seconds, 1);
    rounding::lemma_whole_exact(n, 1);
    rounding::lemma_whole_exact(n, o);
    assert((c * o) * (seconds * o) == (n * o) * o) by (nonlinear_arith)
        requires
            n == c * seconds,
    ;
    assert(double::num_mul(double::num_of(c), rate::secs(ns)) == n * o);
    let den = n * o;
    assert(den > 0) by (nonlinear_arith)
        requires
            den == n * o,
            n > 0,
            o > 0,
    ;
    rounding::lemma_whole_exact(1, den);
    assert((1 * o) * den == (n * o) * o) by (nonlinear_arith)
        requires
            den == n * o,
    ;
    assert(1 * o == o) by (nonlinear_arith);
    rounding::lemma_whole_exact(100, 1);
    rounding::lemma_whole_exact(100, o);
    assert((100 * o) * o == o * (100 * o)) by (nonlinear_arith);
}

/// Ticks for so many seconds are so many seconds.
pub proof fn law_tick_seconds(clk: u64, seconds: nat)
    requires
        clk > 0,
        clk * seconds < SIG,
    ensures
        rate::tick_secs((clk * seconds) as u64, clk) == measuring::whole(seconds),
{
    let o = double::one();
    let c = clk as nat;
    let n = c * seconds;
    lemma_pow2_pos(1074);
    assert(seconds <= n) by (nonlinear_arith)
        requires
            n == c * seconds,
            c >= 1,
    ;
    rounding::lemma_whole_exact(n, 1);
    double::lemma_num_of_range(clk);
    if seconds == 0 {
        assert(n == 0) by (nonlinear_arith)
            requires
                n == c * seconds,
                seconds == 0,
        ;
        assert((0 * o) * o == 0) by (nonlinear_arith);
        assert(0 * o == 0) by (nonlinear_arith);
        double::lemma_nearest_zero(double::num_of(c));
    } else {
        assert(c <= n) by (nonlinear_arith)
            requires
                n == c * seconds,
                seconds >= 1,
        ;
        rounding::lemma_whole_exact(c, 1);
        let den = c * o;
        assert(den > 0) by (nonlinear_arith)
            requires
                den == c * o,
                c > 0,
                o > 0,
        ;
        rounding::lemma_whole_exact(seconds, den);
        assert((seconds * o) * den == (n * o) * o) by (nonlinear_arith)
            requires
                den == c * o,
                n == c * seconds,
        ;
    }
}

/// The account name of a process: what the password database says, but for a bare
/// number what another source says, where it does.
pub proof fn law_account_name(local: Seq<char>, other: Option<Seq<char>>)
    ensures
        other is None ==> conns::user_name(local, other) == local,
        other is Some && text::as_u32(local) is None ==> conns::user_name(local, other) == local,
        other is Some && text::as_u32(local) is Some ==> conns::user_name(local, other)
            == other->0,
{
}

/// A row for a process shows what is known of it, dashes and zeros where that is
/// nothing, and counts as rated once any of its connections is.
pub proof fn law_process_row(row: AggModel, c: ConnModel, procs: Map<u32, ProcModel>)
    ensures
        ({
            let n = conns::with_conn(row, c);
            &&& n.count == row.count + 1
            &&& c.rx_rate is Some ==> n.rx_rate == double::num_add(row.rx_rate, c.rx_rate->0)
            &&& c.tx_rate is Some ==> n.tx_rate == double::num_add(row.tx_rate, c.tx_rate->0)
            &&& c.rx_rate is None ==> n.rx_rate == double::num_add(row.rx_rate, 0)
            &&& c.tx_rate is None ==> n.tx_rate == double::num_add(row.tx_rate, 0)
            &&& n.rated <==> row.rated || c.rx_rate is Some || c.tx_rate is Some
            &&& n.comm == row.comm && n.pid == row.pid && n.info == row.info
        }),
        c.pid is Some && procs.dom().contains(c.pid->0) ==> conns::info_at(procs, c.pid)
            == procs[c.pid->0],
        c.pid is None || !procs.dom().contains(c.pid->0) ==> {
            let p = conns::info_at(procs, c.pid);
            &&& p.user == seq!['-']
            &&& p.cpu_pct == 0 && p.mem_pct == 0 && p.time_secs == 0
            &&& p.disk_read_rate == 0 && p.disk_write_rate == 0
        },
{
}

// ── Order of a sample ────────────────────────────────────────────────────────

/// Whether a connection has a rate.
pub open spec fn has_rate(c: ConnModel) -> bool {
    c.rx_rate is Some || c.tx_rate is Some
}

/// Received and sent together, zero for what is not known.
pub open spec fn both_ways(c: ConnModel) -> nat {
    double::num_add(
        if c.rx_rate is Some {
            c.rx_rate->0
        } else {
            0
        },
        if c.tx_rate is Some {
            c.tx_rate->0
        } else {
            0
        },
    )
}

/// A sample lists the connections with the most traffic first, and those without
/// rates last.
pub proof fn law_busiest_first(
    found: Seq<ConnModel>,
    listed: Seq<ConnModel>,
    i: int,
    j: int,
)
    requires
        rank::sorts(found, conns::throughputs(found), false, listed),
        0 <= i < j < listed.len(),
    ensures
        listed.len() == found.len(),
        has_rate(listed[j]) ==> has_rate(listed[i]) && both_ways(listed[i]) >= both_ways(listed[j]),
{
    let keys = conns::throughputs(found);
    let order = rank::order_for(keys, false);
    let a = order[i] as int;
    let b = order[j] as int;
    assert(rank::precedes(keys, false, a, b));
    assert(listed[i] == found[a] && listed[j] == found[b]);
    assert(keys[a] == conns::throughput(listed[i]));
    assert(keys[b] == conns::throughput(listed[j]));
}

/// Processes are listed with the most traffic first, and those without any last.
pub proof fn law_busiest_processes_first(
    groups: Seq<AggModel>,
    listed: Seq<AggModel>,
    i: int,
    j: int,
)
    requires
        rank::sorts(groups, conns::agg_throughputs(groups), false, listed),
        0 <= i < j < listed.len(),
    ensures
        listed.len() == groups.len(),
        listed[j].rx_rate > 0 || listed[j].tx_rate > 0 ==> (listed[i].rx_rate > 0
            || listed[i].tx_rate > 0) && double::num_add(listed[i].rx_rate, listed[i].tx_rate)
            >= double::num_add(listed[j].rx_rate, listed[j].tx_rate),
{
    let keys = conns::agg_throughputs(groups);
    let order = rank::order_for(keys, false);
    let a = order[i] as int;
    let b = order[j] as int;
    assert(rank::precedes(keys, false, a, b));
    assert(listed[i] == groups[a] && listed[j] == groups[b]);
    assert(keys[a] == conns::agg_throughput(listed[i]));
    assert(keys[b] == conns::agg_throughput(listed[j]));
}

/// A new monitor knows the services and the memory that it was given, and nothing of
/// connections, hosts, accounts or processes.
pub proof fn law_new_monitor(
    m: ConnMonitor,
    services: Option<Seq<char>>,
    meminfo: Option<Seq<char>>,
)
    requires
        conns::is_fresh(m, services, meminfo),
    ensures
        m.available && m.scroll == 0 && m.last@.len() == 0 && m.last_max_rows == 10,
        forall|k: (Seq<char>, Seq<char>, Seq<char>)| !#[trigger] m.prev@.dom().contains(k),
        forall|ip: IpAddress| !#[trigger] m.host_cache@.dom().contains(ip),
        forall|ip: IpAddress| !#[trigger] m.pending@.dom().contains(ip),
        forall|p: u32| !#[trigger] m.procs@.dom().contains(p),
        forall|p: u32| !#[trigger] m.proc_prev@.dom().contains(p),
        forall|p: u32| !#[trigger] m.proc_io_prev@.dom().contains(p),
        forall|u: u32| !#[trigger] m.uid_cache@.dom().contains(u),
        services is Some ==> conns::named(m.services@) == conns::services_in(
            text::lines(services->0),
            text::lines(services->0).len() as int,
        ),
        services is None ==> conns::named(m.services@).dom() == Set::<(u16, Seq<char>)>::empty(),
        meminfo is Some ==> m.mem_total_kb == procfs::total_from(text::lines(meminfo->0), 0),
        meminfo is None ==> m.mem_total_kb == 0,
{
}

// ── Peers ────────────────────────────────────────────────────────────────────

/// One more peer is looked up just where its address is neither known, nor asked for
/// already, nor on the list.
pub proof fn law_one_more_lookup(
    known: Set<IpAddress>,
    asked: Set<IpAddress>,
    peers: Seq<Option<(IpAddress, u16)>>,
    n: int,
)
    requires
        0 <= n < peers.len(),
    ensures
        ({
            let s = conns::to_look_up(known, asked, peers, n);
            let r = conns::to_look_up(known, asked, peers, n + 1);
            let ip = (peers[n]->0).0;
            &&& n == 0 ==> s.len() == 0
            &&& peers[n] is None ==> r == s
            &&& peers[n] is Some && (known.contains(ip) || asked.contains(ip) || s.contains(ip))
                ==> r == s
            &&& peers[n] is Some && !known.contains(ip) && !asked.contains(ip) && !s.contains(ip)
                ==> r.len() == s.len() + 1 && r.last() == ip && r.drop_last() == s
        }),
{
    let s = conns::to_look_up(known, asked, peers, n);
    if peers[n] is Some {
        let ip = (peers[n]->0).0;
        assert(s.to_set().contains(ip) <==> s.contains(ip));
        assert(asked.union(s.to_set()).contains(ip) <==> asked.contains(ip) || s.contains(ip));
        assert(s.push(ip).drop_last() =~= s);
    }
}

// ── Scrolling ────────────────────────────────────────────────────────────────

/// A position from which the rows fill the page is kept; one beyond the last full
/// page goes back to that, or to the top where all rows fit.
pub proof fn law_page(m: ConnMonitor, view_len: usize, max_rows: usize)
    ensures
        ({
            let c = conns::clamped(m, view_len, max_rows);
            &&& m.scroll + max_rows <= view_len ==> c.scroll == m.scroll
            &&& m.scroll + max_rows > view_len && view_len >= max_rows ==> c.scroll == view_len
                - max_rows
            &&& view_len < max_rows ==> c.scroll == 0
            &&& c.last_max_rows == max_rows
            &&& c == (ConnMonitor { scroll: c.scroll, last_max_rows: max_rows, ..m })
        }),
{
}

} // verus!
