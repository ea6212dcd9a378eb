//! Per-connection and per-process throughput.
//!
//! For TCP sockets the kernel keeps cumulative byte counters, so a rate follows
//! from two samples. UDP sockets have no such counters, and their rates are
//! never known.

use vstd::prelude::*;
use vstd::slice::slice_subrange;

use crate::double;
use crate::double::Double;
use crate::matching;
use crate::measuring;
use crate::procfs;
use crate::procfs::{minus_or_zero, percent_of, plus_wrapping, total_mem_kb};
use crate::rank;
use crate::rank::{order_of, rearrange, SortModel, SortVal};
use crate::rate;
use crate::rate::{each_second, share_of_cpu, tick_seconds};
use crate::ss;
use crate::ss::{parse_endpoint, Socket, SocketModel};
use crate::table::{MapKey, Table};
use crate::text;
use crate::text::{
    chars_of, decimal_text, find_char, find_text, lowered, read_u16, read_u32, same_text,
    spells, split_lines, split_words, text_of, trimmed,
};

verus! {

/// An internet address.
#[derive(Clone, Copy, Debug, PartialEq, Eq, Structural)]
pub enum IpAddress {
    /// Version 4.
    V4(u32),
    /// Version 6.
    V6(u128),
}

impl MapKey for IpAddress {
    type Model = IpAddress;

    open spec fn model(&self) -> IpAddress {
        *self
    }

    fn same_key(&self, other: &Self) -> (r: bool) {
        *self == *other
    }
}

/// What a connection is told apart by.
pub struct ConnKey {
    /// Protocol.
    pub proto: String,
    /// Local endpoint.
    pub local: String,
    /// Remote endpoint.
    pub remote: String,
}

impl MapKey for ConnKey {
    type Model = (Seq<char>, Seq<char>, Seq<char>);

    open spec fn model(&self) -> (Seq<char>, Seq<char>, Seq<char>) {
        (self.proto@, self.local@, self.remote@)
    }

    fn same_key(&self, other: &Self) -> (r: bool) {
        self.proto == other.proto && self.local == other.local && self.remote == other.remote
    }
}

/// A port of a protocol.
pub struct ServiceKey {
    /// Port number.
    pub port: u16,
    /// Protocol, in lower case.
    pub proto: String,
}

impl MapKey for ServiceKey {
    type Model = (u16, Seq<char>);

    open spec fn model(&self) -> (u16, Seq<char>) {
        (self.port, self.proto@)
    }

    fn same_key(&self, other: &Self) -> (r: bool) {
        self.port == other.port && self.proto == other.proto
    }
}

/// One sampled connection, or UDP socket.
pub struct ConnStat {
    /// `tcp` or `udp`.
    pub proto: String,
    /// Local endpoint.
    pub local: String,
    /// Remote endpoint.
    pub remote: String,
    /// Name of the owning process.
    pub comm: String,
    /// Number of the owning process.
    pub pid: Option<u32>,
    /// Received bytes per second. Never known for UDP.
    pub rx_rate: Option<Double>,
    /// Sent bytes per second. Never known for UDP.
    pub tx_rate: Option<Double>,
    /// Host name of the remote address, while it is known.
    pub host: Option<String>,
    /// Service name of the remote port.
    pub service: Option<String>,
}

/// What a [`ConnStat`] says.
#[verifier::ext_equal]
pub struct ConnModel {
    /// Protocol.
    pub proto: Seq<char>,
    /// Local endpoint.
    pub local: Seq<char>,
    /// Remote endpoint.
    pub remote: Seq<char>,
    /// Name of the owning process.
    pub comm: Seq<char>,
    /// Number of the owning process.
    pub pid: Option<u32>,
    /// Received bytes per second.
    pub rx_rate: Option<nat>,
    /// Sent bytes per second.
    pub tx_rate: Option<nat>,
    /// Host name.
    pub host: Option<Seq<char>>,
    /// Service name.
    pub service: Option<Seq<char>>,
}

/// The number of an optional rate.
pub open spec fn opt_num(o: Option<Double>) -> Option<nat> {
    match o {
        Some(d) => Some(d@),
        None => None,
    }
}

impl View for ConnStat {
    type V = ConnModel;

    open spec fn view(&self) -> ConnModel {
        ConnModel {
            proto: self.proto@,
            local: self.local@,
            remote: self.remote@,
            comm: self.comm@,
            pid: self.pid,
            rx_rate: opt_num(self.rx_rate),
            tx_rate: opt_num(self.tx_rate),
            host: text::opt_text(self.host),
            service: text::opt_text(self.service),
        }
    }
}

/// The models of a vector of connections.
pub open spec fn conns(v: Seq<ConnStat>) -> Seq<ConnModel> {
    v.map_values(|x: ConnStat| x@)
}

fn copy_opt(o: &Option<String>) -> (r: Option<String>)
    ensures
        r == *o,
{
    match o {
        Some(s) => Some(s.clone()),
        None => None,
    }
}

impl Clone for ConnStat {
    fn clone(&self) -> (r: Self)
        ensures
            r == *self,
    {
        ConnStat {
            proto: self.proto.clone(),
            local: self.local.clone(),
            remote: self.remote.clone(),
            comm: self.comm.clone(),
            pid: self.pid,
            rx_rate: self.rx_rate,
            tx_rate: self.tx_rate,
            host: copy_opt(&self.host),
            service: copy_opt(&self.service),
        }
    }
}

/// A process with all of its connections.
pub struct AggRow {
    /// Name of the process.
    pub comm: String,
    /// Number of the process.
    pub pid: Option<u32>,
    /// How many connections it has.
    pub count: usize,
    /// Received bytes per second, over all connections.
    pub rx_rate: Double,
    /// Sent bytes per second, over all connections.
    pub tx_rate: Double,
    /// Whether a rate is known of any connection.
    pub rated: bool,
    /// Owner of the process.
    pub user: String,
    /// Processor time so far, in seconds.
    pub time_secs: Double,
    /// Recent processor usage, in percent of one processor.
    pub cpu_pct: Double,
    /// Resident memory, in percent of the total.
    pub mem_pct: Double,
    /// Bytes read from disk per second.
    pub disk_read_rate: Double,
    /// Bytes written to disk per second.
    pub disk_write_rate: Double,
}

/// What an [`AggRow`] says.
#[verifier::ext_equal]
pub struct AggModel {
    /// Name of the process.
    pub comm: Seq<char>,
    /// Number of the process.
    pub pid: Option<u32>,
    /// How many connections it has.
    pub count: nat,
    /// Received bytes per second.
    pub rx_rate: nat,
    /// Sent bytes per second.
    pub tx_rate: nat,
    /// Whether a rate is known of any connection.
    pub rated: bool,
    /// Resources of the process.
    pub info: ProcModel,
}

impl View for AggRow {
    type V = AggModel;

    open spec fn view(&self) -> AggModel {
        AggModel {
            comm: self.comm@,
            pid: self.pid,
            count: self.count as nat,
            rx_rate: self.rx_rate@,
            tx_rate: self.tx_rate@,
            rated: self.rated,
            info: ProcModel {
                user: self.user@,
                cpu_pct: self.cpu_pct@,
                mem_pct: self.mem_pct@,
                time_secs: self.time_secs@,
                disk_read_rate: self.disk_read_rate@,
                disk_write_rate: self.disk_write_rate@,
            },
        }
    }
}

/// The models of a vector of processes.
pub open spec fn aggs(v: Seq<AggRow>) -> Seq<AggModel> {
    v.map_values(|x: AggRow| x@)
}

/// Resources of a process.
pub struct ProcInfo {
    /// Owner.
    pub user: String,
    /// Recent processor usage, in percent of one processor.
    pub cpu_pct: Double,
    /// Resident memory, in percent of the total.
    pub mem_pct: Double,
    /// Processor time so far, in seconds.
    pub time_secs: Double,
    /// Bytes read from disk per second.
    pub disk_read_rate: Double,
    /// Bytes written to disk per second.
    pub disk_write_rate: Double,
}

/// What a [`ProcInfo`] says.
#[verifier::ext_equal]
pub struct ProcModel {
    /// Owner.
    pub user: Seq<char>,
    /// Recent processor usage.
    pub cpu_pct: nat,
    /// Resident memory.
    pub mem_pct: nat,
    /// Processor time so far.
    pub time_secs: nat,
    /// Bytes read from disk per second.
    pub disk_read_rate: nat,
    /// Bytes written to disk per second.
    pub disk_write_rate: nat,
}

impl View for ProcInfo {
    type V = ProcModel;

    open spec fn view(&self) -> ProcModel {
        ProcModel {
            user: self.user@,
            cpu_pct: self.cpu_pct@,
            mem_pct: self.mem_pct@,
            time_secs: self.time_secs@,
            disk_read_rate: self.disk_read_rate@,
            disk_write_rate: self.disk_write_rate@,
        }
    }
}

impl Clone for ProcInfo {
    fn clone(&self) -> (r: Self)
        ensures
            r == *self,
    {
        ProcInfo {
            user: self.user.clone(),
            cpu_pct: self.cpu_pct,
            mem_pct: self.mem_pct,
            time_secs: self.time_secs,
            disk_read_rate: self.disk_read_rate,
            disk_write_rate: self.disk_write_rate,
        }
    }
}

impl Clone for AggRow {
    fn clone(&self) -> (r: Self)
        ensures
            r == *self,
    {
        AggRow {
            comm: self.comm.clone(),
            pid: self.pid,
            count: self.count,
            rx_rate: self.rx_rate,
            tx_rate: self.tx_rate,
            rated: self.rated,
            user: self.user.clone(),
            time_secs: self.time_secs,
            cpu_pct: self.cpu_pct,
            mem_pct: self.mem_pct,
            disk_read_rate: self.disk_read_rate,
            disk_write_rate: self.disk_write_rate,
        }
    }
}

/// What the kernel says of a process.
pub struct ProcReading {
    /// Number of the process.
    pub pid: u32,
    /// User and system ticks.
    pub ticks: Option<(u64, u64)>,
    /// Owner and resident memory in KiB.
    pub status: Option<(String, u64)>,
    /// Bytes read from and written to disk.
    pub io: Option<(u64, u64)>,
}

/// What a [`ProcReading`] says.
#[verifier::ext_equal]
pub struct ReadingModel {
    /// Number of the process.
    pub pid: u32,
    /// User and system ticks.
    pub ticks: Option<(u64, u64)>,
    /// Owner and resident memory.
    pub status: Option<(Seq<char>, u64)>,
    /// Bytes read and written.
    pub io: Option<(u64, u64)>,
}

impl View for ProcReading {
    type V = ReadingModel;

    open spec fn view(&self) -> ReadingModel {
        ReadingModel {
            pid: self.pid,
            ticks: self.ticks,
            status: match self.status {
                Some(p) => Some((p.0@, p.1)),
                None => None,
            },
            io: self.io,
        }
    }
}

/// The models of a vector of readings.
pub open spec fn readings(v: Seq<ProcReading>) -> Seq<ReadingModel> {
    v.map_values(|x: ProcReading| x@)
}

/// Tracks the previous sample of every connection and holds the current
/// connections, the busiest first.
pub struct ConnMonitor {
    /// Counters and time of the previous sample of every connection.
    pub prev: Table<ConnKey, (u64, u64, u64)>,
    /// First row shown.
    pub scroll: usize,
    /// The connections of the last sample.
    pub last: Vec<ConnStat>,
    /// Whether the last run of `ss` succeeded.
    pub available: bool,
    /// Host names by address; an address without a name has none.
    pub host_cache: Table<IpAddress, Option<String>>,
    /// Addresses whose host name is being looked up.
    pub pending: Table<IpAddress, ()>,
    /// Service names by port and protocol.
    pub services: Table<ServiceKey, String>,
    /// How many rows were visible last.
    pub last_max_rows: usize,
    /// Resources by process.
    pub procs: Table<u32, ProcInfo>,
    /// Ticks and time of the previous reading of every process.
    pub proc_prev: Table<u32, (u64, u64)>,
    /// Disk counters and time of the previous reading of every process.
    pub proc_io_prev: Table<u32, (u64, u64, u64)>,
    /// Total memory in KiB.
    pub mem_total_kb: u64,
    /// Account names by number.
    pub uid_cache: Table<u32, String>,
}

// ── Models ───────────────────────────────────────────────────────────────────

/// Whether `m` is a monitor without connections, made from the contents of
/// `/etc/services` and `/proc/meminfo` as far as they could be read.
pub open spec fn is_fresh(
    m: ConnMonitor,
    services: Option<Seq<char>>,
    meminfo: Option<Seq<char>>,
) -> bool {
    &&& m.prev@ == Map::<(Seq<char>, Seq<char>, Seq<char>), (u64, u64, u64)>::empty()
    &&& m.scroll == 0
    &&& m.last@.len() == 0
    &&& m.available
    &&& m.host_cache@ == Map::<IpAddress, Option<String>>::empty()
    &&& m.pending@ == Map::<IpAddress, ()>::empty()
    &&& named(m.services@) == (match services {
        Some(c) => services_in(text::lines(c), text::lines(c).len() as int),
        None => Map::empty(),
    })
    &&& m.last_max_rows == 10
    &&& m.procs@ == Map::<u32, ProcInfo>::empty()
    &&& m.proc_prev@ == Map::<u32, (u64, u64)>::empty()
    &&& m.proc_io_prev@ == Map::<u32, (u64, u64, u64)>::empty()
    &&& m.mem_total_kb == (match meminfo {
        Some(c) => procfs::total_from(text::lines(c), 0),
        None => 0,
    })
    &&& m.uid_cache@ == Map::<u32, String>::empty()
}

/// Whether `b` is `a` without connections, baselines and scroll position.
pub open spec fn is_reset(a: ConnMonitor, b: ConnMonitor) -> bool {
    &&& b.prev@ == Map::<(Seq<char>, Seq<char>, Seq<char>), (u64, u64, u64)>::empty()
    &&& b.procs@ == Map::<u32, ProcInfo>::empty()
    &&& b.proc_prev@ == Map::<u32, (u64, u64)>::empty()
    &&& b.proc_io_prev@ == Map::<u32, (u64, u64, u64)>::empty()
    &&& b.last@.len() == 0
    &&& b == (ConnMonitor {
        prev: b.prev,
        procs: b.procs,
        proc_prev: b.proc_prev,
        proc_io_prev: b.proc_io_prev,
        last: b.last,
        scroll: 0,
        ..a
    })
}

/// How far a page reaches: the rows visible last, at least one.
pub open spec fn page(m: ConnMonitor) -> int {
    if m.last_max_rows >= 1 {
        m.last_max_rows as int
    } else {
        1
    }
}

/// The scroll position one row up.
pub open spec fn row_up(m: ConnMonitor) -> int {
    if m.scroll > 0 {
        m.scroll - 1
    } else {
        0
    }
}

/// The scroll position one row down, zero after the largest number.
pub open spec fn row_down(m: ConnMonitor) -> int {
    if m.scroll < usize::MAX {
        m.scroll + 1
    } else {
        0
    }
}

/// The scroll position one page up.
pub open spec fn page_up(m: ConnMonitor) -> int {
    if m.scroll >= page(m) {
        m.scroll - page(m)
    } else {
        0
    }
}

/// The scroll position one page down, at most the largest number.
pub open spec fn page_down(m: ConnMonitor) -> int {
    if m.scroll + page(m) <= usize::MAX {
        m.scroll + page(m)
    } else {
        usize::MAX as int
    }
}

/// The last scroll position for `view_len` rows of which `max_rows` are visible.
pub open spec fn last_top(view_len: usize, max_rows: usize) -> usize {
    if view_len >= max_rows {
        (view_len - max_rows) as usize
    } else {
        0
    }
}

/// The monitor with its scroll position within the rows.
pub open spec fn clamped(m: ConnMonitor, view_len: usize, max_rows: usize) -> ConnMonitor {
    ConnMonitor {
        last_max_rows: max_rows,
        scroll: if m.scroll > last_top(view_len, max_rows) {
            last_top(view_len, max_rows)
        } else {
            m.scroll
        },
        ..m
    }
}

/// The texts of a map of strings.
pub open spec fn named<K>(m: Map<K, String>) -> Map<K, Seq<char>> {
    m.map_values(|s: String| s@)
}

/// The models of a map of processes.
pub open spec fn procs_model(m: Map<u32, ProcInfo>) -> Map<u32, ProcModel> {
    m.map_values(|p: ProcInfo| p@)
}

/// The services in the first `n` lines of `/etc/services`: name and
/// `port/protocol`, for TCP and UDP. Comments and malformed lines say nothing.
pub open spec fn services_in(ls: Seq<Seq<char>>, n: int) -> Map<(u16, Seq<char>), Seq<char>>
    decreases n,
{
    if n <= 0 {
        Map::empty()
    } else {
        let m = services_in(ls, n - 1);
        match service_of(text::trim(ls[n - 1])) {
            Some((k, name)) => m.insert(k, name),
            None => m,
        }
    }
}

/// The service that a line of `/etc/services` describes.
pub open spec fn service_of(line: Seq<char>) -> Option<((u16, Seq<char>), Seq<char>)> {
    let w = text::words(line);
    if line.len() == 0 || line[0] == '#' || w.len() < 2 {
        None
    } else {
        let slash = text::char_pos(w[1], '/', 0);
        let proto = text::lower(w[1].skip(slash + 1));
        if slash >= w[1].len() || !(proto == "tcp"@ || proto == "udp"@) {
            None
        } else {
            match text::as_u16(w[1].take(slash)) {
                Some(port) => Some(((port, proto), w[0])),
                None => None,
            }
        }
    }
}

/// What a socket is told apart by.
pub open spec fn key_of(s: SocketModel) -> (Seq<char>, Seq<char>, Seq<char>) {
    (s.proto, s.local, s.remote)
}

/// The value at a key, if there is one.
pub open spec fn at<K, V>(m: Map<K, V>, k: K) -> Option<V> {
    if m.dom().contains(k) {
        Some(m[k])
    } else {
        None
    }
}

/// Rates of a socket from its previous counters. There are none for UDP, none
/// without both counters, none on first sight, and none when no time has passed.
pub open spec fn rates(s: SocketModel, prev: Option<(u64, u64, u64)>, now: u64) -> (
    Option<nat>,
    Option<nat>,
) {
    match (s.rx_bytes, s.tx_bytes, prev) {
        (Some(r), Some(t), Some((pr, pt, t0))) => if s.proto != "udp"@ && now > t0 {
            (
                Some(rate::per_second(procfs::sat_sub(r, pr), (now - t0) as u64)),
                Some(rate::per_second(procfs::sat_sub(t, pt), (now - t0) as u64)),
            )
        } else {
            (None, None)
        },
        _ => (None, None),
    }
}

/// The counters known after the first `n` sockets.
pub open spec fn prev_after(
    prev: Map<(Seq<char>, Seq<char>, Seq<char>), (u64, u64, u64)>,
    socks: Seq<SocketModel>,
    now: u64,
    n: int,
) -> Map<(Seq<char>, Seq<char>, Seq<char>), (u64, u64, u64)>
    decreases n,
{
    if n <= 0 {
        prev
    } else {
        let m = prev_after(prev, socks, now, n - 1);
        let s = socks[n - 1];
        match (s.rx_bytes, s.tx_bytes) {
            (Some(r), Some(t)) => m.insert(key_of(s), (r, t, now)),
            _ => m,
        }
    }
}

/// The keys of the sockets.
pub open spec fn keys_of(socks: Seq<SocketModel>) -> Set<(Seq<char>, Seq<char>, Seq<char>)> {
    socks.map_values(|s: SocketModel| key_of(s)).to_set()
}

/// The host name shown for a peer.
pub open spec fn host_of(
    cache: Map<IpAddress, Option<String>>,
    peer: Option<(IpAddress, u16)>,
) -> Option<Seq<char>> {
    match peer {
        Some((ip, _)) => if cache.dom().contains(ip) {
            text::opt_text(cache[ip])
        } else {
            None
        },
        None => None,
    }
}

/// The service name shown for a peer.
pub open spec fn service_at(
    services: Map<(u16, Seq<char>), Seq<char>>,
    peer: Option<(IpAddress, u16)>,
    proto: Seq<char>,
) -> Option<Seq<char>> {
    match peer {
        Some((_, port)) => at(services, (port, text::lower(proto))),
        None => None,
    }
}

/// The connection with number `i` of a sample.
pub open spec fn conn_at(
    m: ConnMonitor,
    socks: Seq<SocketModel>,
    peers: Seq<Option<(IpAddress, u16)>>,
    now: u64,
    i: int,
) -> ConnModel {
    let s = socks[i];
    let r = rates(s, at(prev_after(m.prev@, socks, now, i), key_of(s)), now);
    ConnModel {
        proto: s.proto,
        local: s.local,
        remote: s.remote,
        comm: s.comm,
        pid: s.pid,
        rx_rate: r.0,
        tx_rate: r.1,
        host: host_of(m.host_cache@, peers[i]),
        service: service_at(named(m.services@), peers[i], s.proto),
    }
}

/// The connections of a sample, in the order of the sockets.
pub open spec fn sampled(
    m: ConnMonitor,
    socks: Seq<SocketModel>,
    peers: Seq<Option<(IpAddress, u16)>>,
    now: u64,
) -> Seq<ConnModel> {
    Seq::new(socks.len(), |i: int| conn_at(m, socks, peers, now, i))
}

/// The peer of a socket: the address of its remote endpoint, where that is one, and
/// the port behind it.
pub open spec fn peer_of(s: SocketModel, address: Option<IpAddress>) -> Option<(IpAddress, u16)> {
    match (ss::endpoint(s.remote), address) {
        (Some((_, port)), Some(ip)) => Some((ip, port)),
        _ => None,
    }
}

/// The peers of sockets.
pub open spec fn peers_of(socks: Seq<SocketModel>, addresses: Seq<Option<IpAddress>>) -> Seq<
    Option<(IpAddress, u16)>,
> {
    Seq::new(socks.len(), |i: int| peer_of(socks[i], addresses[i]))
}

/// Whether the name of a peer has to be looked up: it is neither known nor
/// asked for.
pub open spec fn is_new_peer(
    known: Set<IpAddress>,
    asked: Set<IpAddress>,
    peer: Option<(IpAddress, u16)>,
) -> bool {
    match peer {
        Some((ip, _)) => !known.contains(ip) && !asked.contains(ip),
        None => false,
    }
}

/// The addresses to look up because of the first `n` peers, each once.
pub open spec fn to_look_up(
    known: Set<IpAddress>,
    asked: Set<IpAddress>,
    peers: Seq<Option<(IpAddress, u16)>>,
    n: int,
) -> Seq<IpAddress>
    decreases n,
{
    if n <= 0 {
        Seq::empty()
    } else {
        let s = to_look_up(known, asked, peers, n - 1);
        if is_new_peer(known, asked.union(s.to_set()), peers[n - 1]) {
            s.push((peers[n - 1]->0).0)
        } else {
            s
        }
    }
}

/// The value of an optional rate, zero where there is none.
pub open spec fn num_or_zero(o: Option<nat>) -> nat {
    match o {
        Some(d) => d,
        None => 0,
    }
}

/// What connections are ranked by: those without any rate come after all others,
/// the others by their total throughput.
pub open spec fn throughput(c: ConnModel) -> SortModel {
    if c.rx_rate is None && c.tx_rate is None {
        SortModel::Nothing
    } else {
        SortModel::Num(double::num_add(num_or_zero(c.rx_rate), num_or_zero(c.tx_rate)))
    }
}

/// The ranks of connections.
pub open spec fn throughputs(cs: Seq<ConnModel>) -> Seq<SortModel> {
    cs.map_values(|c: ConnModel| throughput(c))
}

/// Whether text `s` contains `f`, letter case aside.
pub open spec fn mentions(s: Seq<char>, f: Seq<char>) -> bool {
    text::find(text::lower(s), text::lower(f)) is Some
}

/// The text of an optional text, empty where there is none.
pub open spec fn or_empty(o: Option<Seq<char>>) -> Seq<char> {
    match o {
        Some(s) => s,
        None => Seq::empty(),
    }
}

/// A process number as text.
pub open spec fn pid_text(pid: Option<u32>) -> Seq<char> {
    match pid {
        Some(p) => text::decimal(p as nat),
        None => Seq::empty(),
    }
}

/// Whether a connection passes the filter: the filter is empty, or occurs in the
/// process name, the process number, an endpoint, the host or the service.
pub open spec fn passes(c: ConnModel, filter: Seq<char>) -> bool {
    ||| filter.len() == 0
    ||| mentions(c.comm, filter)
    ||| mentions(pid_text(c.pid), filter)
    ||| mentions(c.local, filter)
    ||| mentions(c.remote, filter)
    ||| mentions(or_empty(c.host), filter)
    ||| mentions(or_empty(c.service), filter)
}

/// The connections that pass the filter, in their order.
pub open spec fn passing(cs: Seq<ConnModel>, filter: Seq<char>) -> Seq<ConnModel> {
    cs.filter(|c: ConnModel| passes(c, filter))
}

/// A process of which nothing is known.
pub open spec fn unknown_proc() -> ProcModel {
    ProcModel {
        user: seq!['-'],
        cpu_pct: 0,
        mem_pct: 0,
        time_secs: 0,
        disk_read_rate: 0,
        disk_write_rate: 0,
    }
}

/// The resources shown for a process.
pub open spec fn info_at(procs: Map<u32, ProcModel>, pid: Option<u32>) -> ProcModel {
    match pid {
        Some(p) => if procs.dom().contains(p) {
            procs[p]
        } else {
            unknown_proc()
        },
        None => unknown_proc(),
    }
}

/// The first row at or after `i` for the process `comm`, `pid`.
pub open spec fn row_from(rows: Seq<AggModel>, comm: Seq<char>, pid: Option<u32>, i: int) -> int
    decreases rows.len() - i,
{
    if 0 <= i < rows.len() && !(rows[i].comm == comm && rows[i].pid == pid) {
        row_from(rows, comm, pid, i + 1)
    } else {
        i
    }
}

/// Whether a rate of a connection is known.
pub open spec fn is_rated(c: ConnModel) -> bool {
    c.rx_rate is Some || c.tx_rate is Some
}

/// A row with one more connection.
pub open spec fn with_conn(row: AggModel, c: ConnModel) -> AggModel {
    AggModel {
        count: row.count + 1,
        rx_rate: double::num_add(row.rx_rate, num_or_zero(c.rx_rate)),
        tx_rate: double::num_add(row.tx_rate, num_or_zero(c.tx_rate)),
        rated: row.rated || is_rated(c),
        ..row
    }
}

/// The rows after one more connection: its process gains a connection, or gets
/// a row at the end.
pub open spec fn grouped_with(
    rows: Seq<AggModel>,
    procs: Map<u32, ProcModel>,
    c: ConnModel,
) -> Seq<AggModel> {
    let k = row_from(rows, c.comm, c.pid, 0);
    if k < rows.len() {
        rows.update(k, with_conn(rows[k], c))
    } else {
        rows.push(
            with_conn(
                AggModel {
                    comm: c.comm,
                    pid: c.pid,
                    count: 0,
                    rx_rate: 0,
                    tx_rate: 0,
                    rated: false,
                    info: info_at(procs, c.pid),
                },
                c,
            ),
        )
    }
}

/// The connections that pass the filter, by process, in the order in which the
/// processes first occur.
pub open spec fn grouped(
    cs: Seq<ConnModel>,
    filter: Seq<char>,
    procs: Map<u32, ProcModel>,
    n: int,
) -> Seq<AggModel>
    decreases n,
{
    if n <= 0 {
        Seq::empty()
    } else {
        let rows = grouped(cs, filter, procs, n - 1);
        if passes(cs[n - 1], filter) {
            grouped_with(rows, procs, cs[n - 1])
        } else {
            rows
        }
    }
}

/// What processes are ranked by: those without traffic come after all others,
/// the others by their total throughput.
pub open spec fn agg_throughput(a: AggModel) -> SortModel {
    if a.rx_rate == 0 && a.tx_rate == 0 {
        SortModel::Nothing
    } else {
        SortModel::Num(double::num_add(a.rx_rate, a.tx_rate))
    }
}

/// The ranks of processes.
pub open spec fn agg_throughputs(rows: Seq<AggModel>) -> Seq<SortModel> {
    rows.map_values(|a: AggModel| agg_throughput(a))
}

/// Whether a process owns one of the connections.
pub open spec fn owns_conn(cs: Seq<ConnStat>, pid: u32) -> bool {
    exists|i: int| 0 <= i < cs.len() && (#[trigger] cs[i]).pid == Some(pid)
}

/// Ticks per second, at least one.
pub open spec fn clock(clk: u64) -> u64 {
    if clk == 0 {
        1
    } else {
        clk
    }
}

/// Resources of a process from a reading and the previous counters.
pub open spec fn info_of(
    r: ReadingModel,
    prev: Option<(u64, u64)>,
    io_prev: Option<(u64, u64, u64)>,
    mem_total: u64,
    clk: u64,
    now: u64,
) -> ProcModel {
    ProcModel {
        user: match r.status {
            Some((user, _)) => user,
            None => seq!['-'],
        },
        mem_pct: match r.status {
            Some((_, rss)) => if mem_total > 0 {
                procfs::percent(rss as nat, mem_total as nat)
            } else {
                0
            },
            None => 0,
        },
        time_secs: match r.ticks {
            Some((u, s)) => rate::tick_secs(procfs::wrap_add(u, s), clk),
            None => 0,
        },
        cpu_pct: match (r.ticks, prev) {
            (Some((u, s)), Some((before, t0))) => if now > t0 {
                rate::cpu_share(procfs::sat_sub(procfs::wrap_add(u, s), before), clk, (now - t0) as u64)
            } else {
                0
            },
            _ => 0,
        },
        disk_read_rate: match (r.io, io_prev) {
            (Some((rb, _)), Some((before, _, t0))) => if now > t0 {
                rate::per_second(procfs::sat_sub(rb, before), (now - t0) as u64)
            } else {
                0
            },
            _ => 0,
        },
        disk_write_rate: match (r.io, io_prev) {
            (Some((_, wb)), Some((_, before, t0))) => if now > t0 {
                rate::per_second(procfs::sat_sub(wb, before), (now - t0) as u64)
            } else {
                0
            },
            _ => 0,
        },
    }
}

/// Ticks known after the first `n` readings.
pub open spec fn ticks_after(
    m: Map<u32, (u64, u64)>,
    rs: Seq<ReadingModel>,
    now: u64,
    n: int,
) -> Map<u32, (u64, u64)>
    decreases n,
{
    if n <= 0 {
        m
    } else {
        let before = ticks_after(m, rs, now, n - 1);
        match rs[n - 1].ticks {
            Some((u, s)) => before.insert(rs[n - 1].pid, (procfs::wrap_add(u, s), now)),
            None => before,
        }
    }
}

/// Disk counters known after the first `n` readings. A process whose counters
/// cannot be read loses those known before.
pub open spec fn disk_after(
    m: Map<u32, (u64, u64, u64)>,
    rs: Seq<ReadingModel>,
    now: u64,
    n: int,
) -> Map<u32, (u64, u64, u64)>
    decreases n,
{
    if n <= 0 {
        m
    } else {
        let before = disk_after(m, rs, now, n - 1);
        match rs[n - 1].io {
            Some((rb, wb)) => before.insert(rs[n - 1].pid, (rb, wb, now)),
            None => before.remove(rs[n - 1].pid),
        }
    }
}

/// Resources known after the first `n` readings.
pub open spec fn procs_after(
    m: ConnMonitor,
    rs: Seq<ReadingModel>,
    clk: u64,
    now: u64,
    n: int,
) -> Map<u32, ProcModel>
    decreases n,
{
    if n <= 0 {
        Map::empty()
    } else {
        let r = rs[n - 1];
        procs_after(m, rs, clk, now, n - 1).insert(
            r.pid,
            info_of(
                r,
                at(ticks_after(m.proc_prev@, rs, now, n - 1), r.pid),
                at(disk_after(m.proc_io_prev@, rs, now, n - 1), r.pid),
                m.mem_total_kb,
                clock(clk),
                now,
            ),
        )
    }
}

/// The account name for a number: what the password database says, unless that
/// is a bare number and another source knows a name.
pub open spec fn user_name(local: Seq<char>, other: Option<Seq<char>>) -> Seq<char> {
    if text::as_u32(local) is Some && other is Some {
        other->0
    } else {
        local
    }
}

// ── Reading ──────────────────────────────────────────────────────────────────

fn service_in(line: &[char]) -> (r: Option<(ServiceKey, String)>)
    ensures
        match r {
            Some((k, name)) => service_of(line@) == Some((k.model(), name@)),
            None => service_of(line@) is None,
        },
{
    let w = split_words(line);
    assert(text::texts(w@).len() == w@.len());
    if line.len() == 0 || line[0] == '#' || w.len() < 2 {
        return None;
    }
    assert(text::texts(w@)[0] == w@[0]@ && text::texts(w@)[1] == w@[1]@);
    let pp = w[1].as_slice();
    let n: usize = pp.len();
    let slash: usize = find_char(pp, '/', 0);
    if slash >= n {
        return None;
    }
    let front = slice_subrange(pp, 0, slash);
    let back = slice_subrange(pp, slash + 1, n);
    assert(front@ =~= pp@.take(slash as int));
    assert(back@ =~= pp@.skip(slash + 1));
    let proto = lowered(back);
    if !(spells(proto.as_slice(), "tcp") || spells(proto.as_slice(), "udp")) {
        return None;
    }
    match read_u16(front) {
        Some(port) => Some(
            (ServiceKey { port, proto: text_of(proto.as_slice()) }, text_of(w[0].as_slice())),
        ),
        None => None,
    }
}

/// Service names by port and protocol, from `/etc/services`.
pub fn load_services(content: &str) -> (r: Table<ServiceKey, String>)
    ensures
        named(r@) == services_in(text::lines(content@), text::lines(content@).len() as int),
{
    let cs = chars_of(content);
    let ls = split_lines(cs.as_slice());
    assert(text::texts(ls@).len() == ls@.len());
    let mut m: Table<ServiceKey, String> = Table::new();
    let mut i: usize = 0;
    assert(named(m@) =~= services_in(text::lines(content@), 0));
    while i < ls.len()
        invariant
            i <= ls@.len(),
            text::texts(ls@) == text::lines(content@),
            named(m@) == services_in(text::lines(content@), i as int),
        decreases ls@.len() - i,
    {
        assert(text::texts(ls@)[i as int] == ls@[i as int]@);
        let line = trimmed(ls[i].as_slice());
        let ghost before = m@;
        if let Some((k, name)) = service_in(line) {
            let ghost km = k.model();
            let ghost nm = name@;
            m.insert(k, name);
            assert(named(m@) =~= named(before).insert(km, nm));
        }
        i += 1;
    }
    m
}

fn text_mentions(s: &str, f: &[char]) -> (r: bool)
    ensures
        r == (text::find(text::lower(s@), f@) is Some),
{
    let cs = chars_of(s);
    let l = lowered(cs.as_slice());
    find_text(l.as_slice(), f).is_some()
}

fn opt_mentions(o: &Option<String>, f: &[char]) -> (r: bool)
    ensures
        r == (text::find(text::lower(or_empty(text::opt_text(*o))), f@) is Some),
{
    match o {
        Some(s) => text_mentions(s.as_str(), f),
        None => {
            let e = String::new();
            assert(e@ =~= Seq::<char>::empty());
            text_mentions(e.as_str(), f)
        },
    }
}

/// Whether a connection passes the filter, letter case aside. An empty filter
/// lets everything pass.
pub fn conn_matches(c: &ConnStat, filter: &str) -> (r: bool)
    ensures
        r == passes(c@, filter@),
        r <==> filter@.len() == 0 || exists|j: int|
            0 <= j < matching::searched(c@).len() && matching::found_in(
                #[trigger] matching::searched(c@)[j],
                filter@,
            ),
{
    proof {
        matching::law_filter(c@, filter@);
    }
    if filter.is_empty() {
        return true;
    }
    let cs = chars_of(filter);
    let f = lowered(cs.as_slice());
    let pid_s: String = match c.pid {
        Some(p) => decimal_text(p as u64),
        None => String::new(),
    };
    assert(pid_s@ =~= pid_text(c.pid));
    text_mentions(c.comm.as_str(), f.as_slice()) || text_mentions(pid_s.as_str(), f.as_slice())
        || text_mentions(c.local.as_str(), f.as_slice()) || text_mentions(
        c.remote.as_str(),
        f.as_slice(),
    ) || opt_mentions(&c.host, f.as_slice()) || opt_mentions(&c.service, f.as_slice())
}

/// Whether an account name is a bare number, so that another source should be
/// asked for it.
pub fn is_bare_number(name: &str) -> (r: bool)
    ensures
        r == (text::as_u32(name@) is Some),
{
    let cs = chars_of(name);
    read_u32(cs.as_slice()).is_some()
}

fn dash() -> (r: String)
    ensures
        r@ == seq!['-'],
{
    let mut s = String::new();
    s.push('-');
    assert(s@ =~= seq!['-']);
    s
}

pub(crate) fn rate_or_zero(o: Option<Double>) -> (r: Double)
    ensures
        r@ == num_or_zero(opt_num(o)),
{
    match o {
        Some(d) => d,
        None => Double::zero(),
    }
}

impl ConnStat {
    /// What the connection is ranked by.
    fn rank(&self) -> (r: SortVal)
        ensures
            r@ == throughput(self@),
    {
        if self.rx_rate.is_none() && self.tx_rate.is_none() {
            SortVal::Nothing
        } else {
            SortVal::Num(rate_or_zero(self.rx_rate).plus(rate_or_zero(self.tx_rate)))
        }
    }
}

/// The peer of a socket, from the address of its remote endpoint.
pub fn remote_peer(s: &Socket, address: Option<IpAddress>) -> (r: Option<(IpAddress, u16)>)
    ensures
        r == peer_of(s@, address),
{
    match (parse_endpoint(s.remote.as_str()), address) {
        (Some((_text, port)), Some(ip)) => Some((ip, port)),
        _ => None,
    }
}

/// The rates of a socket.
fn socket_rates(s: &Socket, prev: Option<&(u64, u64, u64)>, now: u64) -> (r: (
    Option<Double>,
    Option<Double>,
))
    ensures
        (opt_num(r.0), opt_num(r.1)) == rates(
            s@,
            match prev {
                Some(p) => Some(*p),
                None => None,
            },
            now,
        ),
{
    match (s.rx_bytes, s.tx_bytes, prev) {
        (Some(rx), Some(tx), Some(p)) => {
            if !same_text(s.proto.as_str(), "udp") && now > p.2 {
                let ns: u64 = now - p.2;
                (
                    Some(each_second(minus_or_zero(rx, p.0), ns)),
                    Some(each_second(minus_or_zero(tx, p.1), ns)),
                )
            } else {
                (None, None)
            }
        },
        _ => (None, None),
    }
}

// ── The monitor ──────────────────────────────────────────────────────────────

impl ConnMonitor {
    /// A monitor without connections, from the contents of `/etc/services` and
    /// `/proc/meminfo` as far as they could be read.
    pub fn new(services: Option<&str>, meminfo: Option<&str>) -> (r: ConnMonitor)
        ensures
            is_fresh(
                r,
                match services {
                    Some(c) => Some(c@),
                    None => None,
                },
                match meminfo {
                    Some(c) => Some(c@),
                    None => None,
                },
            ),
    {
        let table: Table<ServiceKey, String> = match services {
            Some(c) => load_services(c),
            None => {
                let t: Table<ServiceKey, String> = Table::new();
                assert(named(t@) =~= Map::empty());
                t
            },
        };
        let total: u64 = match meminfo {
            Some(c) => total_mem_kb(c),
            None => 0,
        };
        ConnMonitor {
            prev: Table::new(),
            scroll: 0,
            last: Vec::new(),
            available: true,
            host_cache: Table::new(),
            pending: Table::new(),
            services: table,
            last_max_rows: 10,
            procs: Table::new(),
            proc_prev: Table::new(),
            proc_io_prev: Table::new(),
            mem_total_kb: total,
            uid_cache: Table::new(),
        }
    }

    /// Forgets connections, baselines and the scroll position.
    pub fn reset(&mut self)
        ensures
            is_reset(*old(self), *final(self)),
    {
        self.prev.clear();
        self.procs.clear();
        self.proc_prev.clear();
        self.proc_io_prev.clear();
        self.scroll = 0;
        self.last.clear();
    }

    /// One row up.
    pub fn scroll_up(&mut self)
        ensures
            *final(self) == (ConnMonitor { scroll: row_up(*old(self)) as usize, ..*old(self) }),
    {
        if self.scroll > 0 {
            self.scroll -= 1;
        }
    }

    /// One row down. The position wraps around at the largest number.
    pub fn scroll_down(&mut self)
        ensures
            *final(self) == (ConnMonitor { scroll: row_down(*old(self)) as usize, ..*old(self) }),
    {
        if self.scroll < usize::MAX {
            self.scroll += 1;
        } else {
            self.scroll = 0;
        }
    }

    /// One page up.
    pub fn scroll_page_up(&mut self)
        ensures
            *final(self) == (ConnMonitor { scroll: page_up(*old(self)) as usize, ..*old(self) }),
    {
        let step: usize = if self.last_max_rows >= 1 {
            self.last_max_rows
        } else {
            1
        };
        if self.scroll >= step {
            self.scroll -= step;
        } else {
            self.scroll = 0;
        }
    }

    /// One page down, but not beyond the largest number.
    pub fn scroll_page_down(&mut self)
        ensures
            *final(self) == (ConnMonitor { scroll: page_down(*old(self)) as usize, ..*old(self) }),
    {
        let step: usize = if self.last_max_rows >= 1 {
            self.last_max_rows
        } else {
            1
        };
        if self.scroll <= usize::MAX - step {
            self.scroll += step;
        } else {
            self.scroll = usize::MAX;
        }
    }

    /// To the first row.
    pub fn scroll_top(&mut self)
        ensures
            *final(self) == (ConnMonitor { scroll: 0, ..*old(self) }),
    {
        self.scroll = 0;
    }

    /// To the last row; the next clamp finds it.
    pub fn scroll_bottom(&mut self)
        ensures
            *final(self) == (ConnMonitor { scroll: usize::MAX, ..*old(self) }),
    {
        self.scroll = usize::MAX;
    }

    /// Keeps the scroll position within a view of `view_len` rows of which
    /// `max_rows` are visible.
    pub fn clamp_scroll(&mut self, view_len: usize, max_rows: usize)
        ensures
            *final(self) == clamped(*old(self), view_len, max_rows),
    {
        self.last_max_rows = max_rows;
        let max_scroll: usize = if view_len >= max_rows {
            view_len - max_rows
        } else {
            0
        };
        if self.scroll > max_scroll {
            self.scroll = max_scroll;
        }
    }

    /// The run of `ss` failed: there is nothing to show.
    pub fn ss_failed(&mut self)
        ensures
            !final(self).available,
            final(self).last@.len() == 0,
            *final(self) == (ConnMonitor {
                available: false,
                last: final(self).last,
                ..*old(self)
            }),
    {
        self.available = false;
        self.last.clear();
    }

    /// The lookup of a host name has ended.
    pub fn host_resolved(&mut self, ip: IpAddress, host: Option<String>)
        ensures
            final(self).host_cache@ == old(self).host_cache@.insert(ip, host),
            final(self).pending@ == old(self).pending@.remove(ip),
            *final(self) == (ConnMonitor {
                host_cache: final(self).host_cache,
                pending: final(self).pending,
                ..*old(self)
            }),
    {
        self.host_cache.insert(ip, host);
        self.pending.remove(&ip);
    }

    /// The service name of a port.
    pub fn lookup_service(&self, port: u16, proto: &str) -> (r: Option<String>)
        ensures
            text::opt_text(r) == at(named(self.services@), (port, text::lower(proto@))),
    {
        let cs = chars_of(proto);
        let l = lowered(cs.as_slice());
        let key = ServiceKey { port, proto: text_of(l.as_slice()) };
        match self.services.get(&key) {
            Some(name) => Some(name.clone()),
            None => None,
        }
    }

    fn host_for(&self, peer: Option<(IpAddress, u16)>) -> (r: Option<String>)
        ensures
            text::opt_text(r) == host_of(self.host_cache@, peer),
    {
        match peer {
            Some((ip, _port)) => match self.host_cache.get(&ip) {
                Some(h) => copy_opt(h),
                None => None,
            },
            None => None,
        }
    }
}

/// The connections, the busiest first.
fn ranked(list: Vec<ConnStat>) -> (r: Vec<ConnStat>)
    ensures
        rank::sorts(conns(list@), throughputs(conns(list@)), false, conns(r@)),
{
    let mut keys: Vec<SortVal> = Vec::new();
    let mut i: usize = 0;
    while i < list.len()
        invariant
            i <= list@.len(),
            rank::models(keys@) == throughputs(conns(list@)).take(i as int),
        decreases list@.len() - i,
    {
        let ghost before = rank::models(keys@);
        let k = list[i].rank();
        let ghost km = k@;
        keys.push(k);
        assert(rank::models(keys@) =~= before.push(km));
        assert(throughputs(conns(list@)).take(i + 1) =~= before.push(km));
        i += 1;
    }
    assert(throughputs(conns(list@)).take(i as int) =~= throughputs(conns(list@)));
    let order = order_of(&keys, false);
    let ghost all = list@;
    let r = rearrange(list, &order, Ghost(rank::models(keys@)), Ghost(false));
    proof {
        assert forall|j: int| 0 <= j < order@.len() implies order@[j] < all.len() by {}
        assert(conns(r@) =~= rank::permuted(conns(all), order@));
    }
    r
}

impl ConnMonitor {
    /// Takes in the sockets of a run of `ss`, with the addresses of their remote
    /// endpoints as far as these are addresses, and returns the addresses whose host
    /// names are to be looked up.
    pub fn sample(
        &mut self,
        socks: &Vec<Socket>,
        addresses: &Vec<Option<IpAddress>>,
        now: u64,
    ) -> (r: Vec<IpAddress>)
        requires
            socks@.len() == addresses@.len(),
        ensures
            final(self).available,
            ({
                let found = sampled(
                    *old(self),
                    ss::sockets(socks@),
                    peers_of(ss::sockets(socks@), addresses@),
                    now,
                );
                rank::sorts(found, throughputs(found), false, conns(final(self).last@))
            }),
            final(self).prev@ == prev_after(
                old(self).prev@,
                ss::sockets(socks@),
                now,
                socks@.len() as int,
            ).restrict(keys_of(ss::sockets(socks@))),
            measuring::are_baselines(final(self).prev@, ss::sockets(socks@), now),
            r@ == to_look_up(
                old(self).host_cache@.dom(),
                old(self).pending@.dom(),
                peers_of(ss::sockets(socks@), addresses@),
                socks@.len() as int,
            ),
            final(self).pending@.dom() == old(self).pending@.dom().union(r@.to_set()),
            *final(self) == (ConnMonitor {
                available: true,
                last: final(self).last,
                prev: final(self).prev,
                pending: final(self).pending,
                ..*old(self)
            }),
    {
        let ghost m0 = *self;
        let ghost ss = ss::sockets(socks@);
        let ghost peers = peers_of(ss, addresses@);
        let ghost known = m0.host_cache@.dom();
        let ghost asked = m0.pending@.dom();
        self.available = true;
        let mut list: Vec<ConnStat> = Vec::new();
        let mut lookups: Vec<IpAddress> = Vec::new();
        let mut seen: Table<ConnKey, ()> = Table::new();
        let mut i: usize = 0;
        assert(self.pending@.dom() =~= asked.union(lookups@.to_set()));
        assert(conns(list@) =~= sampled(m0, ss, peers, now).take(0));
        assert(seen@.dom() =~= keys_of(ss.take(0)));
        assert(ss.len() == socks@.len());
        while i < socks.len()
            invariant
                i <= socks@.len(),
                socks@.len() == addresses@.len(),
                peers == peers_of(ss, addresses@),
                ss == ss::sockets(socks@),
                ss.len() == socks@.len(),
                known == m0.host_cache@.dom(),
                asked == m0.pending@.dom(),
                conns(list@) == sampled(m0, ss, peers, now).take(i as int),
                self.prev@ == prev_after(m0.prev@, ss, now, i as int),
                seen@.dom() == keys_of(ss.take(i as int)),
                lookups@ == to_look_up(known, asked, peers, i as int),
                self.pending@.dom() == asked.union(lookups@.to_set()),
                *self == (ConnMonitor {
                    available: true,
                    prev: self.prev,
                    pending: self.pending,
                    ..m0
                }),
            decreases socks@.len() - i,
        {
            let sock = &socks[i];
            assert(ss[i as int] == sock@);
            let peer = remote_peer(sock, addresses[i]);
            let ghost listed = conns(list@);
            let key = ConnKey {
                proto: sock.proto.clone(),
                local: sock.local.clone(),
                remote: sock.remote.clone(),
            };
            let (rx_rate, tx_rate) = socket_rates(sock, self.prev.get(&key), now);
            let service: Option<String> = match peer {
                Some((_ip, port)) => self.lookup_service(port, sock.proto.as_str()),
                None => None,
            };
            let host = self.host_for(peer);
            let ghost found = lookups@;
            if let Some((ip, _port)) = peer {
                if !self.host_cache.has(&ip) && !self.pending.has(&ip) {
                    let ghost before = self.pending@.dom();
                    self.pending.insert(ip, ());
                    lookups.push(ip);
                    proof {
                        found.lemma_push_to_set_commute(ip);
                        assert(self.pending@.dom() =~= before.insert(ip));
                        assert(self.pending@.dom() =~= asked.union(lookups@.to_set()));
                    }
                }
            }
            let seen_key = ConnKey {
                proto: sock.proto.clone(),
                local: sock.local.clone(),
                remote: sock.remote.clone(),
            };
            let ghost had = seen@.dom();
            seen.insert(seen_key, ());
            proof {
                let f = |s: SocketModel| key_of(s);
                let t = ss.take(i as int);
                assert(ss.take(i + 1) =~= t.push(sock@));
                assert(ss.take(i + 1).map_values(f) =~= t.map_values(f).push(key_of(sock@)));
                t.map_values(f).lemma_push_to_set_commute(key_of(sock@));
                assert(seen@.dom() =~= had.insert(key_of(sock@)));
            }
            if let (Some(rx), Some(tx)) = (sock.rx_bytes, sock.tx_bytes) {
                self.prev.insert(key, (rx, tx, now));
            }
            let c = ConnStat {
                proto: sock.proto.clone(),
                local: sock.local.clone(),
                remote: sock.remote.clone(),
                comm: sock.comm.clone(),
                pid: sock.pid,
                rx_rate,
                tx_rate,
                host,
                service,
            };
            let ghost cm = c@;
            list.push(c);
            proof {
                assert(cm == conn_at(m0, ss, peers, now, i as int));
                assert(conns(list@) =~= listed.push(cm));
                assert(conns(list@) =~= sampled(m0, ss, peers, now).take(i + 1));
            }
            i += 1;
        }
        proof {
            assert(ss.take(i as int) =~= ss);
            assert(sampled(m0, ss, peers, now).take(i as int) =~= sampled(m0, ss, peers, now));
        }
        self.prev.retain_in(&seen);
        self.last = ranked(list);
        proof {
            measuring::law_baselines(m0.prev@, ss, now);
        }
        lookups
    }

    /// The connections that pass the filter, in order.
    pub fn detail_view(&self, filter: &str) -> (r: Vec<ConnStat>)
        ensures
            conns(r@) == passing(conns(self.last@), filter@),
    {
        let ghost all = conns(self.last@);
        let mut r: Vec<ConnStat> = Vec::new();
        let mut i: usize = 0;
        proof {
            reveal(Seq::filter);
            assert(all.take(0) =~= Seq::<ConnModel>::empty());
            assert(conns(r@) =~= passing(all.take(0), filter@));
        }
        while i < self.last.len()
            invariant
                i <= self.last@.len(),
                all == conns(self.last@),
                conns(r@) == passing(all.take(i as int), filter@),
            decreases self.last@.len() - i,
        {
            let ghost before = conns(r@);
            proof {
                reveal(Seq::filter);
                assert(all.take(i + 1).drop_last() =~= all.take(i as int));
                assert(all.take(i + 1).last() == self.last@[i as int]@);
            }
            if conn_matches(&self.last[i], filter) {
                r.push(self.last[i].clone());
                assert(conns(r@) =~= before.push(self.last@[i as int]@));
            }
            i += 1;
        }
        assert(all.take(i as int) =~= all);
        r
    }
}

fn row_position(rows: &Vec<AggRow>, c: &ConnStat) -> (r: usize)
    ensures
        r == row_from(aggs(rows@), c.comm@, c.pid, 0),
        r <= rows@.len(),
{
    let mut i: usize = 0;
    while i < rows.len()
        invariant
            i <= rows@.len(),
            row_from(aggs(rows@), c.comm@, c.pid, i as int) == row_from(
                aggs(rows@),
                c.comm@,
                c.pid,
                0,
            ),
        decreases rows@.len() - i,
    {
        assert(aggs(rows@)[i as int] == rows@[i as int]@);
        if rows[i].comm == c.comm && rows[i].pid == c.pid {
            return i;
        }
        i += 1;
    }
    assert(aggs(rows@).len() == rows@.len());
    i
}

fn unknown_info() -> (r: ProcInfo)
    ensures
        r@ == unknown_proc(),
{
    ProcInfo {
        user: dash(),
        cpu_pct: Double::zero(),
        mem_pct: Double::zero(),
        time_secs: Double::zero(),
        disk_read_rate: Double::zero(),
        disk_write_rate: Double::zero(),
    }
}

impl AggRow {
    /// What the process is ranked by.
    fn rank(&self) -> (r: SortVal)
        ensures
            r@ == agg_throughput(self@),
    {
        if self.rx_rate.is_zero() && self.tx_rate.is_zero() {
            SortVal::Nothing
        } else {
            SortVal::Num(self.rx_rate.plus(self.tx_rate))
        }
    }
}

/// The processes, the busiest first.
fn agg_ranked(list: Vec<AggRow>) -> (r: Vec<AggRow>)
    ensures
        rank::sorts(aggs(list@), agg_throughputs(aggs(list@)), false, aggs(r@)),
{
    let mut keys: Vec<SortVal> = Vec::new();
    let mut i: usize = 0;
    while i < list.len()
        invariant
            i <= list@.len(),
            rank::models(keys@) == agg_throughputs(aggs(list@)).take(i as int),
        decreases list@.len() - i,
    {
        let ghost before = rank::models(keys@);
        let k = list[i].rank();
        let ghost km = k@;
        keys.push(k);
        assert(rank::models(keys@) =~= before.push(km));
        assert(agg_throughputs(aggs(list@)).take(i + 1) =~= before.push(km));
        i += 1;
    }
    assert(agg_throughputs(aggs(list@)).take(i as int) =~= agg_throughputs(aggs(list@)));
    let order = order_of(&keys, false);
    let ghost all = list@;
    let r = rearrange(list, &order, Ghost(rank::models(keys@)), Ghost(false));
    proof {
        assert forall|j: int| 0 <= j < order@.len() implies order@[j] < all.len() by {}
        assert(aggs(r@) =~= rank::permuted(aggs(all), order@));
    }
    r
}

impl ConnMonitor {
    fn info_for(&self, pid: Option<u32>) -> (r: ProcInfo)
        ensures
            r@ == info_at(procs_model(self.procs@), pid),
    {
        match pid {
            Some(p) => match self.procs.get(&p) {
                Some(i) => i.clone(),
                None => unknown_info(),
            },
            None => unknown_info(),
        }
    }

    /// The processes with connections that pass the filter, with summed rates
    /// and a connection count, the busiest first.
    pub fn aggregate_view(&self, filter: &str) -> (r: Vec<AggRow>)
        ensures
            ({
                let rows = grouped(
                    conns(self.last@),
                    filter@,
                    procs_model(self.procs@),
                    self.last@.len() as int,
                );
                rank::sorts(rows, agg_throughputs(rows), false, aggs(r@))
            }),
    {
        let ghost all = conns(self.last@);
        let ghost procs = procs_model(self.procs@);
        let mut rows: Vec<AggRow> = Vec::new();
        let mut i: usize = 0;
        assert(aggs(rows@) =~= grouped(all, filter@, procs, 0));
        while i < self.last.len()
            invariant
                i <= self.last@.len(),
                all == conns(self.last@),
                procs == procs_model(self.procs@),
                aggs(rows@) == grouped(all, filter@, procs, i as int),
                forall|j: int| 0 <= j < rows@.len() ==> (#[trigger] rows@[j]).count <= i,
            decreases self.last@.len() - i,
        {
            let c = &self.last[i];
            assert(all[i as int] == c@);
            if conn_matches(c, filter) {
                let ghost before = aggs(rows@);
                let ghost old_rows = rows@;
                let k: usize = row_position(&rows, c);
                assert(before.len() == rows@.len());
                if k < rows.len() {
                    assert(before[k as int] == rows@[k as int]@);
                    let rx = rows[k].rx_rate.plus(rate_or_zero(c.rx_rate));
                    let tx = rows[k].tx_rate.plus(rate_or_zero(c.tx_rate));
                    let count: usize = rows[k].count + 1;
                    rows[k].count = count;
                    rows[k].rx_rate = rx;
                    rows[k].tx_rate = tx;
                    if c.rx_rate.is_some() || c.tx_rate.is_some() {
                        rows[k].rated = true;
                    }
                    proof {
                        assert(rows@[k as int]@ =~= with_conn(before[k as int], c@));
                        assert(aggs(rows@) =~= before.update(
                            k as int,
                            with_conn(before[k as int], c@),
                        ));
                    }
                } else {
                    let info = self.info_for(c.pid);
                    let zero = Double::zero();
                    let row = AggRow {
                        comm: c.comm.clone(),
                        pid: c.pid,
                        count: 1,
                        rx_rate: zero.plus(rate_or_zero(c.rx_rate)),
                        tx_rate: zero.plus(rate_or_zero(c.tx_rate)),
                        rated: c.rx_rate.is_some() || c.tx_rate.is_some(),
                        user: info.user,
                        time_secs: info.time_secs,
                        cpu_pct: info.cpu_pct,
                        mem_pct: info.mem_pct,
                        disk_read_rate: info.disk_read_rate,
                        disk_write_rate: info.disk_write_rate,
                    };
                    let ghost rm = row@;
                    rows.push(row);
                    assert(aggs(rows@) =~= before.push(rm));
                }
            }
            i += 1;
        }
        agg_ranked(rows)
    }

    /// The processes that own a connection, each once, in ascending order.
    pub fn visible_pids(&self) -> (r: Vec<u32>)
        ensures
            forall|i: int, j: int| 0 <= i < j < r@.len() ==> r@[i] < r@[j],
            forall|p: u32| #[trigger] r@.contains(p) <==> owns_conn(self.last@, p),
    {
        let mut r: Vec<u32> = Vec::new();
        let mut i: usize = 0;
        while i < self.last.len()
            invariant
                i <= self.last@.len(),
                forall|a: int, b: int| 0 <= a < b < r@.len() ==> r@[a] < r@[b],
                forall|p: u32| #[trigger] r@.contains(p) <==> exists|j: int|
                    0 <= j < i && (#[trigger] self.last@[j]).pid == Some(p),
            decreases self.last@.len() - i,
        {
            let ghost had = r@;
            if let Some(p) = self.last[i].pid {
                let mut k: usize = 0;
                while k < r.len() && r[k] < p
                    invariant
                        k <= r@.len(),
                        r@ == had,
                        forall|a: int| 0 <= a < k ==> r@[a] < p,
                    decreases r@.len() - k,
                {
                    k += 1;
                }
                if k < r.len() && r[k] == p {
                    assert(r@.contains(p));
                } else {
                    r.insert(k, p);
                    proof {
                        assert(r@[k as int] == p);
                        assert forall|q: u32| #[trigger] r@.contains(q) <==> had.contains(q) || q
                            == p by {
                            if r@.contains(q) {
                                let a = choose|a: int| 0 <= a < r@.len() && r@[a] == q;
                                if a < k {
                                    assert(had[a] == q);
                                } else if a > k {
                                    assert(had[a - 1] == q);
                                }
                            }
                            if had.contains(q) {
                                let a = choose|a: int| 0 <= a < had.len() && had[a] == q;
                                if a < k {
                                    assert(r@[a] == q);
                                } else {
                                    assert(r@[a + 1] == q);
                                }
                            }
                        }
                    }
                }
            }
            proof {
                assert forall|q: u32| #[trigger] r@.contains(q) <==> exists|j: int|
                    0 <= j < i + 1 && (#[trigger] self.last@[j]).pid == Some(q) by {
                    if r@.contains(q) {
                        if had.contains(q) {
                            let j = choose|j: int|
                                0 <= j < i && (#[trigger] self.last@[j]).pid == Some(q);
                            assert(self.last@[j].pid == Some(q));
                        } else {
                            assert(self.last@[i as int].pid == Some(q));
                        }
                    }
                    if exists|j: int|
                        0 <= j < i + 1 && (#[trigger] self.last@[j]).pid == Some(q) {
                        let j = choose|j: int|
                            0 <= j < i + 1 && (#[trigger] self.last@[j]).pid == Some(q);
                        if j < i {
                            assert(had.contains(q));
                        }
                    }
                }
            }
            i += 1;
        }
        r
    }

    /// Takes in readings of processes. Where something could not be read, the
    /// process keeps its row with `-` and zeros.
    pub fn refresh_procs(&mut self, rs: &Vec<ProcReading>, clk: u64, now: u64)
        ensures
            procs_model(final(self).procs@) == procs_after(
                *old(self),
                readings(rs@),
                clk,
                now,
                rs@.len() as int,
            ),
            final(self).proc_prev@ == ticks_after(
                old(self).proc_prev@,
                readings(rs@),
                now,
                rs@.len() as int,
            ).restrict(final(self).procs@.dom()),
            final(self).proc_io_prev@ == disk_after(
                old(self).proc_io_prev@,
                readings(rs@),
                now,
                rs@.len() as int,
            ),
            *final(self) == (ConnMonitor {
                procs: final(self).procs,
                proc_prev: final(self).proc_prev,
                proc_io_prev: final(self).proc_io_prev,
                ..*old(self)
            }),
    {
        let ghost m0 = *self;
        let ghost ms = readings(rs@);
        let ticks_per_sec: u64 = if clk == 0 {
            1
        } else {
            clk
        };
        let mut procs: Table<u32, ProcInfo> = Table::new();
        let mut i: usize = 0;
        assert(procs_model(procs@) =~= procs_after(m0, ms, clk, now, 0));
        while i < rs.len()
            invariant
                i <= rs@.len(),
                ms == readings(rs@),
                ticks_per_sec == clock(clk),
                procs_model(procs@) == procs_after(m0, ms, clk, now, i as int),
                self.proc_prev@ == ticks_after(m0.proc_prev@, ms, now, i as int),
                self.proc_io_prev@ == disk_after(m0.proc_io_prev@, ms, now, i as int),
                *self == (ConnMonitor {
                    proc_prev: self.proc_prev,
                    proc_io_prev: self.proc_io_prev,
                    ..m0
                }),
            decreases rs@.len() - i,
        {
            let r = &rs[i];
            assert(ms[i as int] == r@);
            let pid: u32 = r.pid;
            let mut info = unknown_info();
            if let Some((utime, stime)) = r.ticks {
                let total: u64 = plus_wrapping(utime, stime);
                info.time_secs = tick_seconds(total, ticks_per_sec);
                if let Some(p) = self.proc_prev.get(&pid) {
                    if now > p.1 {
                        info.cpu_pct = share_of_cpu(
                            minus_or_zero(total, p.0),
                            ticks_per_sec,
                            now - p.1,
                        );
                    }
                }
                self.proc_prev.insert(pid, (total, now));
            }
            if let Some(st) = &r.status {
                if self.mem_total_kb > 0 {
                    info.mem_pct = percent_of(st.1, self.mem_total_kb);
                }
                info.user = st.0.clone();
            }
            if let Some((rb, wb)) = r.io {
                if let Some(p) = self.proc_io_prev.get(&pid) {
                    if now > p.2 {
                        let ns: u64 = now - p.2;
                        info.disk_read_rate = each_second(minus_or_zero(rb, p.0), ns);
                        info.disk_write_rate = each_second(minus_or_zero(wb, p.1), ns);
                    }
                }
                self.proc_io_prev.insert(pid, (rb, wb, now));
            } else {
                self.proc_io_prev.remove(&pid);
            }
            let ghost before = procs@;
            let ghost im = info@;
            procs.insert(pid, info);
            proof {
                assert(procs_model(procs@) =~= procs_model(before).insert(pid, im));
                assert(im =~= info_of(
                    r@,
                    at(ticks_after(m0.proc_prev@, ms, now, i as int), pid),
                    at(disk_after(m0.proc_io_prev@, ms, now, i as int), pid),
                    m0.mem_total_kb,
                    clock(clk),
                    now,
                ));
            }
            i += 1;
        }
        self.proc_prev.retain_in(&procs);
        self.procs = procs;
    }

    /// The account name known for a number.
    pub fn cached_user(&self, uid: u32) -> (r: Option<String>)
        ensures
            text::opt_text(r) == at(named(self.uid_cache@), uid),
    {
        match self.uid_cache.get(&uid) {
            Some(name) => Some(name.clone()),
            None => None,
        }
    }

    /// Settles the account name for a number: `local` is what the password
    /// database says, `other` what another source says.
    pub fn resolve_user(&mut self, uid: u32, local: String, other: Option<String>) -> (r: String)
        ensures
            r@ == (match at(named(old(self).uid_cache@), uid) {
                Some(name) => name,
                None => user_name(local@, text::opt_text(other)),
            }),
            named(final(self).uid_cache@) == named(old(self).uid_cache@).insert(uid, r@),
            *final(self) == (ConnMonitor { uid_cache: final(self).uid_cache, ..*old(self) }),
    {
        let ghost before = self.uid_cache@;
        if let Some(name) = self.uid_cache.get(&uid) {
            let found = name.clone();
            assert(named(before).insert(uid, found@) =~= named(before));
            return found;
        }
        let name: String = match other {
            Some(o) => if is_bare_number(local.as_str()) {
                o
            } else {
                local
            },
            None => local,
        };
        self.uid_cache.insert(uid, name.clone());
        assert(named(self.uid_cache@) =~= named(before).insert(uid, name@));
        name
    }
}

// ── Laws ─────────────────────────────────────────────────────────────────────

/// The scroll position is always within the rows: the last page is full unless
/// all rows are visible. Clamping again changes nothing.
pub proof fn law_clamp(m: ConnMonitor, view_len: usize, max_rows: usize)
    requires
        max_rows >= 1,
    ensures
        ({
            let c = clamped(m, view_len, max_rows);
            &&& c.scroll <= m.scroll
            &&& c.scroll == 0 || c.scroll + max_rows <= view_len
            &&& view_len > 0 ==> c.scroll < view_len
            &&& clamped(c, view_len, max_rows) == c
        }),
{
}

/// One page down and one page up, or one row, ends where it began. `End` shows
/// the last page and `Home` the first.
pub proof fn law_scrolling(m: ConnMonitor, view_len: usize, max_rows: usize)
    ensures
        m.scroll + page(m) <= usize::MAX ==> page_up(
            ConnMonitor { scroll: page_down(m) as usize, ..m },
        ) == m.scroll,
        m.scroll < usize::MAX ==> row_up(ConnMonitor { scroll: row_down(m) as usize, ..m })
            == m.scroll,
        clamped(ConnMonitor { scroll: usize::MAX, ..m }, view_len, max_rows).scroll == last_top(
            view_len,
            max_rows,
        ),
        clamped(ConnMonitor { scroll: 0, ..m }, view_len, max_rows).scroll == 0,
{
}

/// An empty filter lets everything pass.
pub proof fn law_empty_filter(c: ConnModel)
    ensures
        passes(c, Seq::empty()),
{
}

/// Letter case does not matter to a filter.
pub proof fn law_filter_ignores_case(c: ConnModel, a: Seq<char>, b: Seq<char>)
    requires
        text::lower(a) == text::lower(b),
    ensures
        passes(c, a) == passes(c, b),
{
    assert(text::lower(a).len() == a.len());
    assert(text::lower(b).len() == b.len());
}

/// A filter finds the connection whose process name or number, endpoint, host or
/// service it spells.
pub proof fn law_filter_finds(c: ConnModel, filter: Seq<char>)
    requires
        c.comm == filter || pid_text(c.pid) == filter || c.local == filter || c.remote == filter
            || c.host == Some(filter) || c.service == Some(filter),
    ensures
        passes(c, filter),
{
    lemma_mentions_itself(filter);
}

proof fn lemma_mentions_itself(s: Seq<char>)
    ensures
        mentions(s, s),
{
    let l = text::lower(s);
    assert(l.subrange(0, l.len() as int) =~= l);
}

/// The rates of a UDP socket are never known, and no rate is known at first sight
/// or without counters.
pub proof fn law_unknown_rates(s: SocketModel, prev: Option<(u64, u64, u64)>, now: u64)
    ensures
        s.proto == "udp"@ ==> rates(s, prev, now) == (None::<nat>, None::<nat>),
        prev is None ==> rates(s, prev, now) == (None::<nat>, None::<nat>),
        s.rx_bytes is None || s.tx_bytes is None ==> rates(s, prev, now) == (
            None::<nat>,
            None::<nat>,
        ),
{
}

/// Before there is any earlier sample no connection has a rate, even where one is
/// listed twice.
pub proof fn law_first_sample_has_no_rates(
    m: ConnMonitor,
    socks: Seq<SocketModel>,
    peers: Seq<Option<(IpAddress, u16)>>,
    now: u64,
    i: int,
)
    requires
        m.prev@ == Map::<(Seq<char>, Seq<char>, Seq<char>), (u64, u64, u64)>::empty(),
        0 <= i < socks.len(),
    ensures
        sampled(m, socks, peers, now)[i].rx_rate is None,
        sampled(m, socks, peers, now)[i].tx_rate is None,
{
    lemma_seen_now(m.prev@, socks, now, i);
}

proof fn lemma_seen_now(
    prev: Map<(Seq<char>, Seq<char>, Seq<char>), (u64, u64, u64)>,
    socks: Seq<SocketModel>,
    now: u64,
    n: int,
)
    requires
        prev == Map::<(Seq<char>, Seq<char>, Seq<char>), (u64, u64, u64)>::empty(),
    ensures
        ({
            let m = prev_after(prev, socks, now, n);
            forall|k: (Seq<char>, Seq<char>, Seq<char>)| #[trigger]
                m.dom().contains(k) ==> m[k].2 == now
        }),
    decreases n,
{
    if n > 0 {
        lemma_seen_now(prev, socks, now, n - 1);
        let before = prev_after(prev, socks, now, n - 1);
        let m = prev_after(prev, socks, now, n);
        assert forall|k: (Seq<char>, Seq<char>, Seq<char>)| #[trigger]
            m.dom().contains(k) implies m[k].2 == now by {
            if before.dom().contains(k) {
                assert(before[k].2 == now);
            }
        }
    }
}

/// A counter that stands still, or falls, gives a rate of zero.
pub proof fn law_idle_rate(s: SocketModel, prev: (u64, u64, u64), now: u64)
    requires
        s.proto != "udp"@,
        s.rx_bytes matches Some(r) && r <= prev.0,
        s.tx_bytes matches Some(t) && t <= prev.1,
        now > prev.2,
    ensures
        rates(s, Some(prev), now) == (Some(0nat), Some(0nat)),
{
    rate::lemma_nothing((now - prev.2) as u64);
}

/// How many connections the rows stand for.
pub open spec fn total_count(rows: Seq<AggModel>) -> nat
    decreases rows.len(),
{
    if rows.len() == 0 {
        0
    } else {
        total_count(rows.drop_last()) + rows.last().count
    }
}

/// The connections of one process.
pub open spec fn owned(cs: Seq<ConnModel>, comm: Seq<char>, pid: Option<u32>) -> Seq<ConnModel> {
    cs.filter(|c: ConnModel| c.comm == comm && c.pid == pid)
}

/// Received bytes per second over all connections, added up in their order.
pub open spec fn rx_total(cs: Seq<ConnModel>) -> nat
    decreases cs.len(),
{
    if cs.len() == 0 {
        0
    } else {
        double::num_add(rx_total(cs.drop_last()), num_or_zero(cs.last().rx_rate))
    }
}

/// Sent bytes per second over all connections, added up in their order.
pub open spec fn tx_total(cs: Seq<ConnModel>) -> nat
    decreases cs.len(),
{
    if cs.len() == 0 {
        0
    } else {
        double::num_add(tx_total(cs.drop_last()), num_or_zero(cs.last().tx_rate))
    }
}

/// Whether a rate is known of any connection.
pub open spec fn any_rated(cs: Seq<ConnModel>) -> bool {
    exists|i: int| 0 <= i < cs.len() && is_rated(#[trigger] cs[i])
}

/// Whether a row sums up its connections: it counts them and adds up their rates,
/// and there is at least one.
pub open spec fn sums_up(row: AggModel, cs: Seq<ConnModel>, procs: Map<u32, ProcModel>) -> bool {
    &&& cs.len() >= 1
    &&& row.count == cs.len()
    &&& row.rx_rate == rx_total(cs)
    &&& row.tx_rate == tx_total(cs)
    &&& row.rated == any_rated(cs)
    &&& row.info == info_at(procs, row.pid)
}

/// Whether `row` is that of the process that owns `c`.
pub open spec fn is_owner(row: AggModel, c: ConnModel) -> bool {
    row.comm == c.comm && row.pid == c.pid
}

/// Whether the process that owns `c` has a row.
pub open spec fn has_row(rows: Seq<AggModel>, c: ConnModel) -> bool {
    exists|i: int| 0 <= i < rows.len() && is_owner(#[trigger] rows[i], c)
}

/// Whether the process of `row` has a connection.
pub open spec fn has_conn(row: AggModel, cs: Seq<ConnModel>) -> bool {
    exists|k: int| 0 <= k < cs.len() && is_owner(row, #[trigger] cs[k])
}

/// Whether rows group the connections `cs` by process: every process has one row,
/// which sums up its connections, every connection belongs to a row and every row
/// has a connection.
pub open spec fn are_groups(
    rows: Seq<AggModel>,
    cs: Seq<ConnModel>,
    procs: Map<u32, ProcModel>,
) -> bool {
    &&& forall|i: int|
        0 <= i < rows.len() ==> sums_up(
            #[trigger] rows[i],
            owned(cs, rows[i].comm, rows[i].pid),
            procs,
        )
    &&& forall|i: int, j: int|
        0 <= i < j < rows.len() ==> !((#[trigger] rows[i]).comm == (#[trigger] rows[j]).comm
            && rows[i].pid == rows[j].pid)
    &&& forall|k: int| 0 <= k < cs.len() ==> #[trigger] has_row(rows, cs[k])
    &&& forall|i: int| 0 <= i < rows.len() ==> #[trigger] has_conn(rows[i], cs)
}

/// Grouping loses no connection: the processes of the connections that pass the
/// filter have one row each, with the number of their connections and the sums of
/// their rates, and the counts add up to the connections that pass.
pub proof fn law_grouping(
    cs: Seq<ConnModel>,
    filter: Seq<char>,
    procs: Map<u32, ProcModel>,
    n: int,
)
    requires
        0 <= n <= cs.len(),
    ensures
        ({
            let rows = grouped(cs, filter, procs, n);
            let seen = passing(cs.take(n), filter);
            &&& are_groups(rows, seen, procs)
            &&& total_count(rows) == seen.len()
        }),
    decreases n,
{
    reveal(Seq::filter);
    let rows = grouped(cs, filter, procs, n);
    let seen = passing(cs.take(n), filter);
    if n == 0 {
        assert(seen =~= Seq::<ConnModel>::empty());
    } else {
        law_grouping(cs, filter, procs, n - 1);
        let before = grouped(cs, filter, procs, n - 1);
        let c = cs[n - 1];
        assert(cs.take(n).drop_last() =~= cs.take(n - 1));
        if passes(c, filter) {
            let had = passing(cs.take(n - 1), filter);
            assert(seen == had.push(c));
            lemma_grouped_with(before, procs, had, c);
        }
    }
    lemma_counts_add_up(rows, seen, procs);
}

/// There are no more groups than connections.
pub proof fn lemma_groups_bounded(
    cs: Seq<ConnModel>,
    filter: Seq<char>,
    procs: Map<u32, ProcModel>,
    n: int,
)
    requires
        0 <= n <= cs.len(),
    ensures
        grouped(cs, filter, procs, n).len() <= n,
    decreases n,
{
    if n > 0 {
        lemma_groups_bounded(cs, filter, procs, n - 1);
        lemma_row_from(grouped(cs, filter, procs, n - 1), cs[n - 1].comm, cs[n - 1].pid, 0);
    }
}

/// One more connection keeps the rows groups of the connections.
proof fn lemma_grouped_with(
    before: Seq<AggModel>,
    procs: Map<u32, ProcModel>,
    had: Seq<ConnModel>,
    c: ConnModel,
)
    requires
        are_groups(before, had, procs),
    ensures
        are_groups(grouped_with(before, procs, c), had.push(c), procs),
{
    let rows = grouped_with(before, procs, c);
    let seen = had.push(c);
    let k = row_from(before, c.comm, c.pid, 0);
    lemma_row_from(before, c.comm, c.pid, 0);
    assert(seen[had.len() as int] == c);
    assert(is_owner(rows[k], c));
    let own = owned(had, c.comm, c.pid);
    lemma_owned_push(had, c, c.comm, c.pid);
    if k >= before.len() && own.len() > 0 {
        lemma_owned_occurs(had, c.comm, c.pid);
        let j = choose|j: int|
            0 <= j < had.len() && (#[trigger] had[j]).comm == c.comm && had[j].pid == c.pid;
        assert(has_row(before, had[j]));
        let i = choose|i: int| 0 <= i < before.len() && is_owner(#[trigger] before[i], had[j]);
        assert(false);
    }
    assert(sums_up(rows[k], own.push(c), procs)) by {
        lemma_any_rated_push(own, c);
        assert(own.push(c).drop_last() =~= own);
        if k < before.len() {
            assert(sums_up(before[k], own, procs));
            assert(rows[k] == with_conn(before[k], c));
        } else {
            assert(own.len() == 0);
            let fresh = AggModel {
                comm: c.comm,
                pid: c.pid,
                count: 0,
                rx_rate: 0,
                tx_rate: 0,
                rated: false,
                info: info_at(procs, c.pid),
            };
            assert(rows[k] == with_conn(fresh, c));
            assert(rx_total(own) == 0 && tx_total(own) == 0);
        }
        assert(rx_total(own.push(c)) == double::num_add(rx_total(own), num_or_zero(c.rx_rate)));
        assert(tx_total(own.push(c)) == double::num_add(tx_total(own), num_or_zero(c.tx_rate)));
    }
    assert forall|i: int| 0 <= i < rows.len() implies sums_up(
        #[trigger] rows[i],
        owned(seen, rows[i].comm, rows[i].pid),
        procs,
    ) by {
        if i != k {
            assert(rows[i] == before[i]);
            if i < k && k < before.len() {
                assert(!(before[i].comm == before[k].comm && before[i].pid == before[k].pid));
            }
            if k < i {
                assert(!(before[k].comm == before[i].comm && before[k].pid == before[i].pid));
            }
            lemma_owned_push(had, c, rows[i].comm, rows[i].pid);
        }
    }
    assert forall|q: int| 0 <= q < seen.len() implies #[trigger] has_row(rows, seen[q]) by {
        if q < had.len() {
            assert(seen[q] == had[q]);
            assert(has_row(before, had[q]));
            let i = choose|i: int| 0 <= i < before.len() && is_owner(#[trigger] before[i], had[q]);
            assert(is_owner(rows[i], seen[q]));
        } else {
            assert(is_owner(rows[k], seen[q]));
        }
    }
    assert forall|i: int| 0 <= i < rows.len() implies #[trigger] has_conn(rows[i], seen) by {
        if i == k {
            assert(is_owner(rows[i], seen[had.len() as int]));
        } else {
            assert(rows[i] == before[i]);
            assert(has_conn(before[i], had));
            let q = choose|q: int| 0 <= q < had.len() && is_owner(before[i], #[trigger] had[q]);
            assert(seen[q] == had[q]);
        }
    }
}

proof fn lemma_any_rated_push(cs: Seq<ConnModel>, c: ConnModel)
    ensures
        any_rated(cs.push(c)) == (any_rated(cs) || is_rated(c)),
{
    let more = cs.push(c);
    assert(more[cs.len() as int] == c);
    if any_rated(cs) {
        let r = choose|r: int| 0 <= r < cs.len() && is_rated(#[trigger] cs[r]);
        assert(more[r] == cs[r]);
    }
    if any_rated(more) {
        let r = choose|r: int| 0 <= r < more.len() && is_rated(#[trigger] more[r]);
        if r < cs.len() {
            assert(cs[r] == more[r]);
        }
    }
}

proof fn lemma_owned_push(
    cs: Seq<ConnModel>,
    c: ConnModel,
    comm: Seq<char>,
    pid: Option<u32>,
)
    ensures
        owned(cs.push(c), comm, pid) == if c.comm == comm && c.pid == pid {
            owned(cs, comm, pid).push(c)
        } else {
            owned(cs, comm, pid)
        },
{
    reveal(Seq::filter);
    assert(cs.push(c).drop_last() =~= cs);
}

proof fn lemma_owned_occurs(cs: Seq<ConnModel>, comm: Seq<char>, pid: Option<u32>)
    requires
        owned(cs, comm, pid).len() > 0,
    ensures
        exists|j: int| 0 <= j < cs.len() && (#[trigger] cs[j]).comm == comm && cs[j].pid == pid,
    decreases cs.len(),
{
    reveal(Seq::filter);
    if cs.len() > 0 {
        let c = cs.last();
        if c.comm == comm && c.pid == pid {
            assert(cs[cs.len() - 1] == c);
        } else {
            lemma_owned_occurs(cs.drop_last(), comm, pid);
            let j = choose|j: int|
                0 <= j < cs.drop_last().len() && (#[trigger] cs.drop_last()[j]).comm == comm
                    && cs.drop_last()[j].pid == pid;
            assert(cs[j] == cs.drop_last()[j]);
        }
    }
}

proof fn lemma_row_from(rows: Seq<AggModel>, comm: Seq<char>, pid: Option<u32>, i: int)
    requires
        0 <= i <= rows.len(),
    ensures
        i <= row_from(rows, comm, pid, i) <= rows.len(),
        row_from(rows, comm, pid, i) < rows.len() ==> rows[row_from(rows, comm, pid, i)].comm == comm
            && rows[row_from(rows, comm, pid, i)].pid == pid,
        forall|j: int|
            i <= j < row_from(rows, comm, pid, i) ==> !((#[trigger] rows[j]).comm == comm
                && rows[j].pid == pid),
    decreases rows.len() - i,
{
    if i < rows.len() && !(rows[i].comm == comm && rows[i].pid == pid) {
        lemma_row_from(rows, comm, pid, i + 1);
    }
}

/// How many connections the first `n` rows own together.
spec fn owned_total(rows: Seq<AggModel>, cs: Seq<ConnModel>, n: int) -> nat
    decreases n,
{
    if n <= 0 {
        0
    } else {
        owned_total(rows, cs, n - 1) + owned(cs, rows[n - 1].comm, rows[n - 1].pid).len()
    }
}

/// The counts of groups add up to the connections.
pub proof fn lemma_counts_add_up(
    rows: Seq<AggModel>,
    cs: Seq<ConnModel>,
    procs: Map<u32, ProcModel>,
)
    requires
        are_groups(rows, cs, procs),
    ensures
        total_count(rows) == cs.len(),
{
    lemma_counted_rows(rows, cs, procs, rows.len() as int);
    assert(rows.take(rows.len() as int) =~= rows);
    lemma_all_owned(rows, cs);
}

proof fn lemma_counted_rows(
    rows: Seq<AggModel>,
    cs: Seq<ConnModel>,
    procs: Map<u32, ProcModel>,
    n: int,
)
    requires
        are_groups(rows, cs, procs),
        0 <= n <= rows.len(),
    ensures
        total_count(rows.take(n)) == owned_total(rows, cs, n),
    decreases n,
{
    if n > 0 {
        lemma_counted_rows(rows, cs, procs, n - 1);
        assert(rows.take(n).drop_last() =~= rows.take(n - 1));
        assert(rows.take(n).last() == rows[n - 1]);
    }
}

proof fn lemma_all_owned(rows: Seq<AggModel>, cs: Seq<ConnModel>)
    requires
        forall|i: int, j: int|
            0 <= i < j < rows.len() ==> !((#[trigger] rows[i]).comm == (#[trigger] rows[j]).comm
                && rows[i].pid == rows[j].pid),
        forall|k: int| 0 <= k < cs.len() ==> #[trigger] has_row(rows, cs[k]),
    ensures
        owned_total(rows, cs, rows.len() as int) == cs.len(),
    decreases cs.len(),
{
    if cs.len() == 0 {
        lemma_none_owned(rows, cs, rows.len() as int);
    } else {
        let front = cs.drop_last();
        let c = cs.last();
        assert forall|k: int| 0 <= k < front.len() implies #[trigger] has_row(rows, front[k]) by {
            assert(has_row(rows, cs[k]));
        }
        lemma_all_owned(rows, front);
        assert(has_row(rows, cs[cs.len() - 1]));
        let k = choose|i: int| 0 <= i < rows.len() && is_owner(#[trigger] rows[i], c);
        lemma_one_more_owned(rows, front, c, k, rows.len() as int);
        assert(front.push(c) =~= cs);
    }
}

proof fn lemma_none_owned(rows: Seq<AggModel>, cs: Seq<ConnModel>, n: int)
    requires
        cs.len() == 0,
    ensures
        owned_total(rows, cs, n) == 0,
    decreases n,
{
    reveal(Seq::filter);
    if n > 0 {
        lemma_none_owned(rows, cs, n - 1);
    }
}

proof fn lemma_one_more_owned(
    rows: Seq<AggModel>,
    cs: Seq<ConnModel>,
    c: ConnModel,
    k: int,
    n: int,
)
    requires
        0 <= k < rows.len(),
        0 <= n <= rows.len(),
        is_owner(rows[k], c),
        forall|i: int, j: int|
            0 <= i < j < rows.len() ==> !((#[trigger] rows[i]).comm == (#[trigger] rows[j]).comm
                && rows[i].pid == rows[j].pid),
    ensures
        owned_total(rows, cs.push(c), n) == owned_total(rows, cs, n) + (if k < n {
            1nat
        } else {
            0nat
        }),
    decreases n,
{
    if n > 0 {
        lemma_one_more_owned(rows, cs, c, k, n - 1);
        lemma_owned_push(cs, c, rows[n - 1].comm, rows[n - 1].pid);
        if n - 1 < k {
            assert(!(rows[n - 1].comm == rows[k].comm && rows[n - 1].pid == rows[k].pid));
        } else if k < n - 1 {
            assert(!(rows[k].comm == rows[n - 1].comm && rows[k].pid == rows[n - 1].pid));
        }
    }
}

/// The host and the service shown for a connection are those of its remote
/// endpoint: the name known for its address, and the service of its port.
pub proof fn law_remote_names(
    m: ConnMonitor,
    socks: Seq<SocketModel>,
    addresses: Seq<Option<IpAddress>>,
    now: u64,
    i: int,
)
    requires
        0 <= i < socks.len(),
        socks.len() == addresses.len(),
    ensures
        ({
            let c = sampled(m, socks, peers_of(socks, addresses), now)[i];
            match (ss::endpoint(c.remote), addresses[i]) {
                (Some((_, port)), Some(ip)) => {
                    &&& c.service == at(named(m.services@), (port, text::lower(c.proto)))
                    &&& c.host == (if m.host_cache@.dom().contains(ip) {
                        text::opt_text(m.host_cache@[ip])
                    } else {
                        None
                    })
                },
                _ => c.service is None && c.host is None,
            }
        }),
{
}

/// With one reading for every process that owns a connection, the processes known
/// are exactly these, and nothing is measured from later but what was read of them.
pub proof fn law_known_processes(
    m: ConnMonitor,
    cs: Seq<ConnStat>,
    pids: Seq<u32>,
    rs: Seq<ReadingModel>,
    clk: u64,
    now: u64,
)
    requires
        forall|p: u32| #[trigger] pids.contains(p) <==> owns_conn(cs, p),
        rs.len() == pids.len(),
        forall|i: int| 0 <= i < rs.len() ==> (#[trigger] rs[i]).pid == pids[i],
    ensures
        ({
            let n = rs.len() as int;
            let known = procs_after(m, rs, clk, now, n).dom();
            &&& forall|p: u32| #[trigger] known.contains(p) <==> owns_conn(cs, p)
            &&& forall|p: u32| #[trigger]
                ticks_after(m.proc_prev@, rs, now, n).restrict(known).dom().contains(p)
                    ==> owns_conn(cs, p)
        }),
{
    lemma_known(m, rs, clk, now, rs.len() as int);
    assert forall|p: u32| #[trigger]
        procs_after(m, rs, clk, now, rs.len() as int).dom().contains(p) <==> owns_conn(cs, p) by {
        if pids.contains(p) {
            let i = choose|i: int| 0 <= i < pids.len() && pids[i] == p;
            assert(rs[i].pid == p);
        }
        if procs_after(m, rs, clk, now, rs.len() as int).dom().contains(p) {
            let i = choose|i: int| 0 <= i < rs.len() && (#[trigger] rs[i]).pid == p;
            assert(pids[i] == p);
        }
    }
}

proof fn lemma_known(m: ConnMonitor, rs: Seq<ReadingModel>, clk: u64, now: u64, n: int)
    requires
        0 <= n <= rs.len(),
    ensures
        forall|p: u32| #[trigger]
            procs_after(m, rs, clk, now, n).dom().contains(p) <==> exists|i: int|
                0 <= i < n && (#[trigger] rs[i]).pid == p,
    decreases n,
{
    if n > 0 {
        lemma_known(m, rs, clk, now, n - 1);
        assert forall|p: u32| #[trigger]
            procs_after(m, rs, clk, now, n).dom().contains(p) <==> exists|i: int|
                0 <= i < n && (#[trigger] rs[i]).pid == p by {
            let before = procs_after(m, rs, clk, now, n - 1).dom();
            if before.contains(p) {
                let i = choose|i: int| 0 <= i < n - 1 && (#[trigger] rs[i]).pid == p;
                assert(rs[i].pid == p);
            }
            if rs[n - 1].pid == p {
                assert(rs[n - 1].pid == p);
            } else if exists|i: int| 0 <= i < n && (#[trigger] rs[i]).pid == p {
                let i = choose|i: int| 0 <= i < n && (#[trigger] rs[i]).pid == p;
                assert(0 <= i < n - 1 && rs[i].pid == p);
                assert(before.contains(p));
            }
        }
    }
}

/// A host name is looked up at most once: never while a lookup is under way and
/// never again once it has ended. No unknown peer is passed over.
pub proof fn law_lookups(
    known: Set<IpAddress>,
    asked: Set<IpAddress>,
    peers: Seq<Option<(IpAddress, u16)>>,
    n: int,
)
    requires
        0 <= n <= peers.len(),
    ensures
        ({
            let r = to_look_up(known, asked, peers, n);
            &&& r.no_duplicates()
            &&& forall|i: int|
                0 <= i < r.len() ==> !known.contains(#[trigger] r[i]) && !asked.contains(r[i])
            &&& forall|k: int|
                0 <= k < n && is_new_peer(known, asked, #[trigger] peers[k]) ==> r.contains(
                    (peers[k]->0).0,
                )
        }),
    decreases n,
{
    if n > 0 {
        law_lookups(known, asked, peers, n - 1);
        let s = to_look_up(known, asked, peers, n - 1);
        let r = to_look_up(known, asked, peers, n);
        assert forall|k: int| 0 <= k < n && is_new_peer(
            known,
            asked,
            #[trigger] peers[k],
        ) implies r.contains((peers[k]->0).0) by {
            let ip = (peers[k]->0).0;
            if k < n - 1 {
                let p = choose|p: int| 0 <= p < s.len() && s[p] == ip;
                assert(r[p] == ip);
            } else if r.len() > s.len() {
                assert(r[s.len() as int] == ip);
            }
        }
    }
}

} // verus!
