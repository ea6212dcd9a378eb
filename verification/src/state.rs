//! The state of the program: the active interface, the histories, and when to
//! move to another interface.
//!
//! Times are nanoseconds of one monotonic clock.

use std::collections::VecDeque;

use vstd::arithmetic::div_mod::*;
use vstd::arithmetic::power2::*;
use vstd::prelude::*;

use crate::conns;
use crate::conns::ConnMonitor;
use crate::double;
use crate::double::Double;
use crate::history;
use crate::history::{cap, remember};
use crate::procfs;
use crate::procfs::{minus_or_zero, percent_of, plus_wrapping, read_counters};
use crate::rate;
use crate::rate::{each_second, seconds, NANOS};
use crate::rounding;
use crate::rows::SortKey;
use crate::table::Table;
use crate::text;
use crate::text::same_text;

verus! {

/// Time between two samples, in milliseconds.
pub const TICK_MS: u64 = 500;

/// Nanoseconds between two samples of the connections.
pub const CONNS_PERIOD: u64 = 500_000_000;

/// How many bytes another interface must be ahead by before it is moved to.
pub const SWITCH_MARGIN: u64 = 4096;

/// Bytes in a disk sector.
pub const SECTOR: u64 = 512;

/// The state of the program.
pub struct App {
    /// Name of the active interface.
    pub iface: String,
    /// All interfaces that can be switched to.
    pub ifaces: Vec<String>,
    /// Where the active interface stands among them.
    pub iface_idx: usize,
    /// Received bytes per second.
    pub rx_history: VecDeque<u64>,
    /// Sent bytes per second.
    pub tx_history: VecDeque<u64>,
    /// Processor usage in percent.
    pub sys_cpu_history: VecDeque<Double>,
    /// Memory usage in percent.
    pub sys_mem_history: VecDeque<Double>,
    /// Bytes read from disk per second.
    pub sys_disk_read_history: VecDeque<Double>,
    /// Bytes written to disk per second.
    pub sys_disk_write_history: VecDeque<Double>,
    /// Sectors read up to the previous sample.
    pub prev_disk_read_sectors: u64,
    /// Sectors written up to the previous sample.
    pub prev_disk_write_sectors: u64,
    /// Time of that sample.
    pub prev_disk_time: u64,
    /// Busy ticks up to the previous sample.
    pub prev_cpu_busy: u64,
    /// All ticks up to the previous sample.
    pub prev_cpu_total: u64,
    /// Time of that sample.
    pub prev_cpu_time: u64,
    /// Bytes per second received now.
    pub current_rx: u64,
    /// Bytes per second sent now.
    pub current_tx: u64,
    /// The highest speed of the session.
    pub peak_speed: u64,
    /// Received bytes of the active interface up to the previous sample.
    pub prev_rx_bytes: u64,
    /// Sent bytes of the active interface up to the previous sample.
    pub prev_tx_bytes: u64,
    /// Time of the previous sample.
    pub last_sample: u64,
    /// Counters of every interface at the previous sample.
    pub prev_counters: Table<String, (u64, u64)>,
    /// Bytes of every interface within the current window.
    pub auto_window_bytes: Table<String, u64>,
    /// When the current window began.
    pub auto_window_start: u64,
    /// Whether to move to the busiest interface.
    pub auto_iface: bool,
    /// Time of the last such move, or of the last change of this setting.
    pub last_auto_switch: u64,
    /// When the connections were sampled last.
    pub last_conns_sample: u64,
    /// The connections.
    pub conns: ConnMonitor,
    /// Whether the connections fill the screen.
    pub focus_conns: bool,
    /// Whether connections are grouped by process.
    pub aggregate: bool,
    /// Whether a filter is being typed.
    pub filter_mode: bool,
    /// The filter.
    pub filter: String,
    /// What the connections are sorted by.
    pub sort_key: SortKey,
    /// Whether they are sorted in ascending order.
    pub sort_asc: bool,
    /// Screen row of the column titles.
    pub header_y: u16,
    /// First column, end column and meaning of every title.
    pub col_hit: Vec<(u16, u16, SortKey)>,
}

/// What an [`App`] holds, the connections aside.
#[verifier::ext_equal]
pub struct AppModel {
    /// Name of the active interface.
    pub iface: Seq<char>,
    /// All interfaces.
    pub ifaces: Seq<Seq<char>>,
    /// Where the active interface stands among them.
    pub iface_idx: usize,
    /// Received bytes per second.
    pub rx_history: Seq<u64>,
    /// Sent bytes per second.
    pub tx_history: Seq<u64>,
    /// Processor usage.
    pub sys_cpu_history: Seq<nat>,
    /// Memory usage.
    pub sys_mem_history: Seq<nat>,
    /// Bytes read from disk per second.
    pub sys_disk_read_history: Seq<nat>,
    /// Bytes written to disk per second.
    pub sys_disk_write_history: Seq<nat>,
    /// Sectors read.
    pub prev_disk_read_sectors: u64,
    /// Sectors written.
    pub prev_disk_write_sectors: u64,
    /// Time of the previous sample of the disks.
    pub prev_disk_time: u64,
    /// Busy ticks.
    pub prev_cpu_busy: u64,
    /// All ticks.
    pub prev_cpu_total: u64,
    /// Time of the previous sample of the processors.
    pub prev_cpu_time: u64,
    /// Bytes per second received now.
    pub current_rx: u64,
    /// Bytes per second sent now.
    pub current_tx: u64,
    /// The highest speed of the session.
    pub peak_speed: u64,
    /// Received bytes.
    pub prev_rx_bytes: u64,
    /// Sent bytes.
    pub prev_tx_bytes: u64,
    /// Time of the previous sample.
    pub last_sample: u64,
    /// Counters of every interface.
    pub prev_counters: Map<Seq<char>, (u64, u64)>,
    /// Bytes of every interface within the current window.
    pub auto_window_bytes: Map<Seq<char>, u64>,
    /// When the current window began.
    pub auto_window_start: u64,
    /// Whether to move to the busiest interface.
    pub auto_iface: bool,
    /// Time of the last such move.
    pub last_auto_switch: u64,
    /// When the connections were sampled last.
    pub last_conns_sample: u64,
    /// Whether the connections fill the screen.
    pub focus_conns: bool,
    /// Whether connections are grouped by process.
    pub aggregate: bool,
    /// Whether a filter is being typed.
    pub filter_mode: bool,
    /// The filter.
    pub filter: Seq<char>,
    /// What the connections are sorted by.
    pub sort_key: SortKey,
    /// Whether they are sorted in ascending order.
    pub sort_asc: bool,
    /// Screen row of the column titles.
    pub header_y: u16,
    /// First column, end column and meaning of every title.
    pub col_hit: Seq<(u16, u16, SortKey)>,
}

impl View for App {
    type V = AppModel;

    open spec fn view(&self) -> AppModel {
        AppModel {
            iface: self.iface@,
            ifaces: text::strings(self.ifaces@),
            iface_idx: self.iface_idx,
            rx_history: self.rx_history@,
            tx_history: self.tx_history@,
            sys_cpu_history: history::nums(self.sys_cpu_history@),
            sys_mem_history: history::nums(self.sys_mem_history@),
            sys_disk_read_history: history::nums(self.sys_disk_read_history@),
            sys_disk_write_history: history::nums(self.sys_disk_write_history@),
            prev_disk_read_sectors: self.prev_disk_read_sectors,
            prev_disk_write_sectors: self.prev_disk_write_sectors,
            prev_disk_time: self.prev_disk_time,
            prev_cpu_busy: self.prev_cpu_busy,
            prev_cpu_total: self.prev_cpu_total,
            prev_cpu_time: self.prev_cpu_time,
            current_rx: self.current_rx,
            current_tx: self.current_tx,
            peak_speed: self.peak_speed,
            prev_rx_bytes: self.prev_rx_bytes,
            prev_tx_bytes: self.prev_tx_bytes,
            last_sample: self.last_sample,
            prev_counters: self.prev_counters@,
            auto_window_bytes: self.auto_window_bytes@,
            auto_window_start: self.auto_window_start,
            auto_iface: self.auto_iface,
            last_auto_switch: self.last_auto_switch,
            last_conns_sample: self.last_conns_sample,
            focus_conns: self.focus_conns,
            aggregate: self.aggregate,
            filter_mode: self.filter_mode,
            filter: self.filter@,
            sort_key: self.sort_key,
            sort_asc: self.sort_asc,
            header_y: self.header_y,
            col_hit: self.col_hit@,
        }
    }
}

// ── The start ────────────────────────────────────────────────────────────────

/// The first position at or after `i` at which `name` stands, or the end.
pub open spec fn name_pos(names: Seq<Seq<char>>, name: Seq<char>, i: int) -> int
    decreases names.len() - i,
{
    if 0 <= i < names.len() && names[i] != name {
        name_pos(names, name, i + 1)
    } else {
        i
    }
}

/// The interfaces to switch between and the position of the wanted one among
/// them: it is put in front where it is not listed.
pub open spec fn choices(listed: Option<Seq<Seq<char>>>, wanted: Seq<char>) -> (
    Seq<Seq<char>>,
    int,
) {
    let names = match listed {
        Some(names) => names,
        None => seq![wanted],
    };
    let i = name_pos(names, wanted, 0);
    if i < names.len() {
        (names, i)
    } else {
        (seq![wanted] + names, 0)
    }
}

pub proof fn lemma_name_pos(names: Seq<Seq<char>>, name: Seq<char>, i: int)
    requires
        0 <= i <= names.len(),
    ensures
        i <= name_pos(names, name, i) <= names.len(),
        name_pos(names, name, i) < names.len() ==> names[name_pos(names, name, i)] == name,
        forall|j: int| i <= j < name_pos(names, name, i) ==> #[trigger] names[j] != name,
    decreases names.len() - i,
{
    if i < names.len() && names[i] != name {
        lemma_name_pos(names, name, i + 1);
    }
}

fn find_name(names: &Vec<String>, name: &String) -> (r: usize)
    ensures
        r == name_pos(text::strings(names@), name@, 0),
        r <= names@.len(),
{
    let mut i: usize = 0;
    assert(text::strings(names@).len() == names@.len());
    while i < names.len()
        invariant
            i <= names@.len(),
            text::strings(names@).len() == names@.len(),
            name_pos(text::strings(names@), name@, 0) == name_pos(text::strings(names@), name@, i as int),
        decreases names@.len() - i,
    {
        assert(text::strings(names@)[i as int] == names@[i as int]@);
        if names[i] == *name {
            return i;
        }
        i += 1;
    }
    i
}

/// The interfaces to switch between and the position of the wanted one among
/// them. The wanted interface is put in front where it is not listed.
pub fn interface_choices(listed: Option<Vec<String>>, wanted: &String) -> (r: (Vec<String>, usize))
    ensures
        (text::strings(r.0@), r.1 as int) == choices(
            match listed {
                Some(v) => Some(text::strings(v@)),
                None => None,
            },
            wanted@,
        ),
{
    let names = match listed {
        Some(v) => v,
        None => {
            let mut v: Vec<String> = Vec::new();
            v.push(wanted.clone());
            assert(text::strings(v@) =~= seq![wanted@]);
            v
        },
    };
    let i: usize = find_name(&names, wanted);
    assert(text::strings(names@).len() == names@.len());
    if i < names.len() {
        (names, i)
    } else {
        let mut all: Vec<String> = Vec::new();
        all.push(wanted.clone());
        let mut rest = names;
        all.append(&mut rest);
        assert(text::strings(all@) =~= seq![wanted@] + text::strings(names@));
        (all, 0)
    }
}

/// Whatever interfaces there are, the wanted one is among the choices, and every
/// listed one remains a choice.
pub proof fn law_wanted_is_chosen(listed: Option<Seq<Seq<char>>>, wanted: Seq<char>)
    ensures
        ({
            let (names, i) = choices(listed, wanted);
            &&& 0 <= i < names.len()
            &&& names[i] == wanted
            &&& listed matches Some(l) ==> forall|j: int|
                0 <= j < l.len() ==> names.contains(#[trigger] l[j])
            &&& listed matches Some(l) ==> (!l.contains(wanted) ==> names == seq![wanted] + l && i
                == 0)
        }),
{
    let names = match listed {
        Some(names) => names,
        None => seq![wanted],
    };
    lemma_name_pos(names, wanted, 0);
    let (all, i) = choices(listed, wanted);
    if let Some(l) = listed {
        assert forall|j: int| 0 <= j < l.len() implies all.contains(#[trigger] l[j]) by {
            if all.len() > l.len() {
                assert(all[j + 1] == l[j]);
            }
        }
    }
}

/// The state at the start.
pub open spec fn fresh_app(
    iface: Seq<char>,
    ifaces: Seq<Seq<char>>,
    iface_idx: usize,
    now: u64,
) -> AppModel {
    AppModel {
        iface,
        ifaces,
        iface_idx,
        rx_history: Seq::empty(),
        tx_history: Seq::empty(),
        sys_cpu_history: Seq::empty(),
        sys_mem_history: Seq::empty(),
        sys_disk_read_history: Seq::empty(),
        sys_disk_write_history: Seq::empty(),
        prev_disk_read_sectors: 0,
        prev_disk_write_sectors: 0,
        prev_disk_time: now,
        prev_cpu_busy: 0,
        prev_cpu_total: 0,
        prev_cpu_time: now,
        current_rx: 0,
        current_tx: 0,
        peak_speed: 1,
        prev_rx_bytes: 0,
        prev_tx_bytes: 0,
        last_sample: now,
        prev_counters: Map::empty(),
        auto_window_bytes: Map::empty(),
        auto_window_start: now,
        auto_iface: true,
        last_auto_switch: now,
        last_conns_sample: now,
        focus_conns: false,
        aggregate: false,
        filter_mode: false,
        filter: Seq::empty(),
        sort_key: SortKey::Throughput,
        sort_asc: false,
        header_y: 0,
        col_hit: Seq::empty(),
    }
}

impl App {
    /// The state at the start.
    pub fn new(
        iface: String,
        ifaces: Vec<String>,
        iface_idx: usize,
        conns: ConnMonitor,
        now: u64,
    ) -> (r: App)
        ensures
            r@ == fresh_app(iface@, text::strings(ifaces@), iface_idx, now),
            r.conns == conns,
    {
        let r = App {
            iface,
            ifaces,
            iface_idx,
            rx_history: VecDeque::new(),
            tx_history: VecDeque::new(),
            sys_cpu_history: VecDeque::new(),
            sys_mem_history: VecDeque::new(),
            sys_disk_read_history: VecDeque::new(),
            sys_disk_write_history: VecDeque::new(),
            prev_disk_read_sectors: 0,
            prev_disk_write_sectors: 0,
            prev_disk_time: now,
            prev_cpu_busy: 0,
            prev_cpu_total: 0,
            prev_cpu_time: now,
            current_rx: 0,
            current_tx: 0,
            peak_speed: 1,
            prev_rx_bytes: 0,
            prev_tx_bytes: 0,
            last_sample: now,
            prev_counters: Table::new(),
            auto_window_bytes: Table::new(),
            auto_window_start: now,
            auto_iface: true,
            last_auto_switch: now,
            last_conns_sample: now,
            conns,
            focus_conns: false,
            aggregate: false,
            filter_mode: false,
            filter: String::new(),
            sort_key: SortKey::Throughput,
            sort_asc: false,
            header_y: 0,
            col_hit: Vec::new(),
        };
        assert(r@ =~= fresh_app(iface@, text::strings(ifaces@), iface_idx, now));
        r
    }

    /// The counters of the active interface at the start.
    pub fn prime(&mut self, rx: u64, tx: u64, now: u64)
        ensures
            final(self)@ == (AppModel {
                prev_rx_bytes: rx,
                prev_tx_bytes: tx,
                last_sample: now,
                ..old(self)@
            }),
            final(self).conns == old(self).conns,
    {
        self.prev_rx_bytes = rx;
        self.prev_tx_bytes = tx;
        self.last_sample = now;
    }
}

// ── The busiest interface ────────────────────────────────────────────────────

/// The bytes of an interface within the window.
pub open spec fn bytes_of(w: Map<Seq<char>, u64>, name: Seq<char>) -> u64 {
    if w.dom().contains(name) {
        w[name]
    } else {
        0
    }
}

/// The most bytes that the active interface or one of the first `n` has.
pub open spec fn most_bytes(m: AppModel, n: int) -> u64
    decreases n,
{
    if n <= 0 {
        bytes_of(m.auto_window_bytes, m.iface)
    } else {
        let most = most_bytes(m, n - 1);
        let b = bytes_of(m.auto_window_bytes, m.ifaces[n - 1]);
        if b > most {
            b
        } else {
            most
        }
    }
}

/// The first interface at or after `i` that has `most` bytes.
pub open spec fn first_with(m: AppModel, most: u64, i: int) -> int
    decreases m.ifaces.len() - i,
{
    if 0 <= i < m.ifaces.len() && bytes_of(m.auto_window_bytes, m.ifaces[i]) != most {
        first_with(m, most, i + 1)
    } else {
        i
    }
}

/// The interface with the most bytes within the window, if any has some. Among
/// the joint-busiest the active one is preferred, then the first in the list.
pub open spec fn busiest(m: AppModel) -> Option<Seq<char>> {
    let most = most_bytes(m, m.ifaces.len() as int);
    if most == 0 {
        None
    } else if bytes_of(m.auto_window_bytes, m.iface) == most {
        Some(m.iface)
    } else {
        Some(m.ifaces[first_with(m, most, 0)])
    }
}

/// The busiest interface has at least the bytes of every other; the active
/// interface yields only to one that has more.
pub proof fn law_busiest(m: AppModel)
    ensures
        match busiest(m) {
            None => bytes_of(m.auto_window_bytes, m.iface) == 0 && forall|i: int|
                0 <= i < m.ifaces.len() ==> bytes_of(
                    m.auto_window_bytes,
                    #[trigger] m.ifaces[i],
                ) == 0,
            Some(b) => {
                let most = bytes_of(m.auto_window_bytes, b);
                &&& most > 0
                &&& b == m.iface || m.ifaces.contains(b)
                &&& b != m.iface ==> most > bytes_of(m.auto_window_bytes, m.iface)
                &&& forall|i: int|
                    0 <= i < m.ifaces.len() ==> bytes_of(
                        m.auto_window_bytes,
                        #[trigger] m.ifaces[i],
                    ) <= most
            },
        },
{
    lemma_most(m, m.ifaces.len() as int);
    let most = most_bytes(m, m.ifaces.len() as int);
    if bytes_of(m.auto_window_bytes, m.iface) != most {
        lemma_first_with(m, most, 0);
    }
}

proof fn lemma_most(m: AppModel, n: int)
    requires
        0 <= n <= m.ifaces.len(),
    ensures
        most_bytes(m, n) >= bytes_of(m.auto_window_bytes, m.iface),
        forall|i: int|
            0 <= i < n ==> bytes_of(m.auto_window_bytes, #[trigger] m.ifaces[i]) <= most_bytes(
                m,
                n,
            ),
        most_bytes(m, n) == bytes_of(m.auto_window_bytes, m.iface) || exists|i: int|
            0 <= i < n && bytes_of(m.auto_window_bytes, #[trigger] m.ifaces[i]) == most_bytes(m, n),
    decreases n,
{
    if n > 0 {
        lemma_most(m, n - 1);
        if most_bytes(m, n) == most_bytes(m, n - 1) && most_bytes(m, n) != bytes_of(
            m.auto_window_bytes,
            m.iface,
        ) {
            let i = choose|i: int|
                0 <= i < n - 1 && bytes_of(m.auto_window_bytes, #[trigger] m.ifaces[i])
                    == most_bytes(m, n - 1);
            assert(bytes_of(m.auto_window_bytes, m.ifaces[i]) == most_bytes(m, n));
        } else if most_bytes(m, n) != most_bytes(m, n - 1) {
            assert(bytes_of(m.auto_window_bytes, m.ifaces[n - 1]) == most_bytes(m, n));
        }
    }
}

proof fn lemma_first_with(m: AppModel, most: u64, i: int)
    requires
        0 <= i <= m.ifaces.len(),
        exists|j: int|
            i <= j < m.ifaces.len() && bytes_of(m.auto_window_bytes, #[trigger] m.ifaces[j])
                == most,
    ensures
        i <= first_with(m, most, i) < m.ifaces.len(),
        bytes_of(m.auto_window_bytes, m.ifaces[first_with(m, most, i)]) == most,
    decreases m.ifaces.len() - i,
{
    if i < m.ifaces.len() && bytes_of(m.auto_window_bytes, m.ifaces[i]) != most {
        lemma_first_with(m, most, i + 1);
    }
}

impl App {
    fn window_of(&self, name: &String) -> (r: u64)
        ensures
            r == bytes_of(self.auto_window_bytes@, name@),
    {
        match self.auto_window_bytes.get(name) {
            Some(b) => *b,
            None => 0,
        }
    }

    /// The interface with the most traffic within the current window, if there
    /// was any. Among the joint-busiest the active one is preferred, then the
    /// first in the list.
    pub fn busiest_iface(&self) -> (r: Option<String>)
        ensures
            text::opt_text(r) == busiest(self@),
    {
        let ghost m = self@;
        assert(m.ifaces.len() == self.ifaces@.len());
        let mut best: Option<usize> = None;
        let own: u64 = self.window_of(&self.iface);
        let mut most: u64 = own;
        let mut i: usize = 0;
        while i < self.ifaces.len()
            invariant
                i <= self.ifaces@.len(),
                m == self@,
                m.ifaces.len() == self.ifaces@.len(),
                own == bytes_of(m.auto_window_bytes, m.iface),
                most == most_bytes(m, i as int),
                most >= own,
                best is None ==> most == own,
                best matches Some(b) ==> b < i && most > own && bytes_of(
                    m.auto_window_bytes,
                    m.ifaces[b as int],
                ) == most && forall|j: int|
                    0 <= j < b ==> bytes_of(m.auto_window_bytes, #[trigger] m.ifaces[j]) != most,
                forall|j: int|
                    0 <= j < i ==> bytes_of(m.auto_window_bytes, #[trigger] m.ifaces[j]) <= most,
            decreases self.ifaces@.len() - i,
        {
            assert(m.ifaces[i as int] == self.ifaces@[i as int]@);
            let b: u64 = self.window_of(&self.ifaces[i]);
            if b > most {
                most = b;
                best = Some(i);
            }
            i += 1;
        }
        match best {
            Some(b) => {
                proof {
                    lemma_first_is(m, most, b as int, 0);
                    assert(m.ifaces[b as int] == self.ifaces@[b as int]@);
                }
                Some(self.ifaces[b].clone())
            },
            None => if own > 0 {
                Some(self.iface.clone())
            } else {
                None
            },
        }
    }
}

proof fn lemma_first_is(m: AppModel, most: u64, k: int, i: int)
    requires
        0 <= i <= k < m.ifaces.len(),
        bytes_of(m.auto_window_bytes, m.ifaces[k]) == most,
        forall|j: int| 0 <= j < k ==> bytes_of(m.auto_window_bytes, #[trigger] m.ifaces[j]) != most,
    ensures
        first_with(m, most, i) == k,
    decreases k - i,
{
    if i < k {
        lemma_first_is(m, most, k, i + 1);
    }
}

// ── Switching ────────────────────────────────────────────────────────────────

/// The state after a switch to the interface at `idx`, counted around the list:
/// histories, peak and baselines of the interface before are gone. What the
/// counters of the new one start from is read afterwards.
pub open spec fn switched(m: AppModel, idx: int, now: u64) -> AppModel {
    if m.ifaces.len() == 0 {
        m
    } else {
        let k = idx % m.ifaces.len() as int;
        AppModel {
            iface: m.ifaces[k],
            iface_idx: k as usize,
            current_rx: 0,
            current_tx: 0,
            last_sample: now,
            ..cleared(m, now)
        }
    }
}

/// The state without histories, peak, and the baselines of processors and disks.
pub open spec fn cleared(m: AppModel, now: u64) -> AppModel {
    AppModel {
        rx_history: Seq::empty(),
        tx_history: Seq::empty(),
        sys_cpu_history: Seq::empty(),
        sys_mem_history: Seq::empty(),
        sys_disk_read_history: Seq::empty(),
        sys_disk_write_history: Seq::empty(),
        prev_disk_read_sectors: 0,
        prev_disk_write_sectors: 0,
        prev_disk_time: now,
        prev_cpu_busy: 0,
        prev_cpu_total: 0,
        prev_cpu_time: now,
        peak_speed: 1,
        ..m
    }
}

/// What the counters of the active interface start from, as far as `/proc/net/dev`
/// could be read and says it.
pub open spec fn baseline(dev: Option<Seq<char>>, iface: Seq<char>) -> Option<(u64, u64)> {
    match dev {
        Some(c) => match procfs::counters_from(text::lines(c), iface, 2) {
            Ok(p) => Some(p),
            Err(_) => None,
        },
        None => None,
    }
}

/// The state once the counters of the active interface have been read anew. Where
/// they are not to be had there is nothing to measure from.
pub open spec fn rebaselined(m: AppModel, p: Option<(u64, u64)>) -> AppModel {
    match p {
        Some((rx, tx)) => AppModel {
            prev_rx_bytes: rx,
            prev_tx_bytes: tx,
            prev_counters: m.prev_counters.insert(m.iface, (rx, tx)),
            ..m
        },
        None => AppModel {
            prev_rx_bytes: 0,
            prev_tx_bytes: 0,
            prev_counters: m.prev_counters.remove(m.iface),
            ..m
        },
    }
}

/// Where to switch to on its own: to the busiest interface, if that is wanted,
/// the last switch is more than a second ago, and it is clearly ahead.
pub open spec fn switch_target(m: AppModel, now: u64) -> Option<int> {
    if !m.auto_iface || procfs::sat_sub(now, m.last_auto_switch) <= NANOS {
        None
    } else {
        match busiest(m) {
            None => None,
            Some(b) => {
                let i = name_pos(m.ifaces, b, 0);
                if b != m.iface && bytes_of(m.auto_window_bytes, b) > procfs::wrap_add(
                    bytes_of(m.auto_window_bytes, m.iface),
                    SWITCH_MARGIN,
                ) && i < m.ifaces.len() {
                    Some(i)
                } else {
                    None
                }
            },
        }
    }
}

/// The state after the decision whether to switch.
pub open spec fn auto_switched(m: AppModel, now: u64) -> AppModel {
    match switch_target(m, now) {
        Some(i) => AppModel { last_auto_switch: now, ..switched(m, i, now) },
        None => m,
    }
}

impl App {
    /// Drops histories, peak, and the baselines of processors and disks.
    pub(crate) fn clear_histories(&mut self, now: u64)
        ensures
            final(self)@ == cleared(old(self)@, now),
            final(self).conns == old(self).conns,
    {
        self.rx_history.clear();
        self.tx_history.clear();
        self.sys_cpu_history.clear();
        self.sys_mem_history.clear();
        self.sys_disk_read_history.clear();
        self.sys_disk_write_history.clear();
        self.prev_disk_read_sectors = 0;
        self.prev_disk_write_sectors = 0;
        self.prev_disk_time = now;
        self.prev_cpu_busy = 0;
        self.prev_cpu_total = 0;
        self.prev_cpu_time = now;
        self.peak_speed = 1;
        assert(self@ =~= cleared(old(self)@, now));
    }

    /// Switches to the interface at `idx`, counted around the list. Where there
    /// is one, its counters have to be read next; see [`App::rebaseline`].
    pub fn switch_iface(&mut self, idx: usize, now: u64) -> (r: bool)
        ensures
            final(self)@ == switched(old(self)@, idx as int, now),
            final(self).conns == old(self).conns,
            r == (old(self)@.ifaces.len() > 0),
    {
        assert(self@.ifaces.len() == self.ifaces@.len());
        if self.ifaces.len() == 0 {
            return false;
        }
        let k: usize = idx % self.ifaces.len();
        assert(self@.ifaces[k as int] == self.ifaces@[k as int]@);
        self.clear_histories(now);
        assert(self@.ifaces.len() == self.ifaces@.len());
        assert(self@.ifaces[k as int] == self.ifaces@[k as int]@);
        self.iface_idx = k;
        self.iface = self.ifaces[k].clone();
        self.current_rx = 0;
        self.current_tx = 0;
        self.last_sample = now;
        assert(self@ =~= switched(old(self)@, idx as int, now));
        true
    }

    /// Takes the counters of the active interface from `/proc/net/dev` as its
    /// baseline; where they are not to be had there is none until the next sample.
    pub fn rebaseline(&mut self, dev: Option<&str>)
        ensures
            final(self)@ == rebaselined(
                old(self)@,
                baseline(
                    match dev {
                        Some(c) => Some(c@),
                        None => None,
                    },
                    old(self)@.iface,
                ),
            ),
            final(self).conns == old(self).conns,
    {
        let p: Option<(u64, u64)> = match dev {
            Some(c) => match read_counters(c, self.iface.as_str()) {
                Ok(p) => Some(p),
                Err(_) => None,
            },
            None => None,
        };
        match p {
            Some((rx, tx)) => {
                self.prev_rx_bytes = rx;
                self.prev_tx_bytes = tx;
                self.prev_counters.insert(self.iface.clone(), (rx, tx));
            },
            None => {
                self.prev_rx_bytes = 0;
                self.prev_tx_bytes = 0;
                self.prev_counters.remove(&self.iface);
            },
        }
    }

    /// Switches to the busiest interface if that is wanted, the last switch is
    /// more than a second ago, and it is clearly ahead. Returns whether it did.
    pub fn auto_switch_if_needed(&mut self, now: u64) -> (r: bool)
        ensures
            final(self)@ == auto_switched(old(self)@, now),
            final(self).conns == old(self).conns,
            r == (switch_target(old(self)@, now) is Some),
    {
        if !self.auto_iface || minus_or_zero(now, self.last_auto_switch) <= NANOS {
            return false;
        }
        match self.busiest_iface() {
            None => false,
            Some(best) => {
                let cur: u64 = self.window_of(&self.iface);
                let most: u64 = self.window_of(&best);
                if !same_text(best.as_str(), self.iface.as_str()) && most > plus_wrapping(
                    cur,
                    SWITCH_MARGIN,
                ) {
                    let i: usize = find_name(&self.ifaces, &best);
                    assert(self@.ifaces.len() == self.ifaces@.len());
                    if i < self.ifaces.len() {
                        let _ = self.switch_iface(i, now);
                        self.last_auto_switch = now;
                        return true;
                    }
                }
                false
            },
        }
    }
}

// ── Sampling ─────────────────────────────────────────────────────────────────

/// The counters that an interface is measured from, if there are any: there are
/// none before its first sample, and none where they could not be read.
pub open spec fn measured_from(m: AppModel, name: Seq<char>) -> Option<(u64, u64)> {
    if m.prev_counters.dom().contains(name) {
        Some(m.prev_counters[name])
    } else {
        None
    }
}

/// Bytes received and sent since the counters were `prev`; none where these are
/// not known.
pub open spec fn gained(prev: Option<(u64, u64)>, now: (u64, u64)) -> (u64, u64) {
    match prev {
        Some(p) => (procfs::sat_sub(now.0, p.0), procfs::sat_sub(now.1, p.1)),
        None => (0, 0),
    }
}

/// The state with the counters of one interface: its bytes are added to the
/// window, and the speed follows from those of the active interface.
pub open spec fn counted_one(
    m: AppModel,
    counters: Map<Seq<char>, (u64, u64)>,
    elapsed: u64,
    name: Seq<char>,
) -> AppModel {
    if !counters.dom().contains(name) {
        m
    } else {
        let now = counters[name];
        let prev = measured_from(m, name);
        let (d_rx, d_tx) = gained(prev, now);
        let live = name == m.iface && elapsed > 0 && prev is Some;
        AppModel {
            current_rx: if live {
                double::num_floor(rate::per_second(d_rx, elapsed)) as u64
            } else {
                m.current_rx
            },
            current_tx: if live {
                double::num_floor(rate::per_second(d_tx, elapsed)) as u64
            } else {
                m.current_tx
            },
            auto_window_bytes: m.auto_window_bytes.insert(
                name,
                procfs::wrap_add(bytes_of(m.auto_window_bytes, name), procfs::wrap_add(d_rx, d_tx)),
            ),
            prev_counters: m.prev_counters.insert(name, now),
            ..m
        }
    }
}

/// The state with the counters of the first `n` interfaces.
pub open spec fn counted(
    m: AppModel,
    counters: Map<Seq<char>, (u64, u64)>,
    elapsed: u64,
    n: int,
) -> AppModel
    decreases n,
{
    if n <= 0 {
        m
    } else {
        counted_one(counted(m, counters, elapsed, n - 1), counters, elapsed, m.ifaces[n - 1])
    }
}

/// Whether the window is over.
pub open spec fn window_over(m: AppModel, now: u64) -> bool {
    procfs::sat_sub(now, m.auto_window_start) >= NANOS
}

/// The state with all counters, before any switch.
pub open spec fn with_counters(
    m: AppModel,
    counters: Map<Seq<char>, (u64, u64)>,
    now: u64,
) -> AppModel {
    counted(m, counters, procfs::sat_sub(now, m.last_sample), m.ifaces.len() as int)
}

/// The state after a sample of the counters. When the window is over the busiest
/// interface is judged and a new window begins.
pub open spec fn sampled_traffic(
    m: AppModel,
    counters: Map<Seq<char>, (u64, u64)>,
    now: u64,
) -> AppModel {
    let a = with_counters(m, counters, now);
    if window_over(m, now) {
        AppModel {
            auto_window_bytes: a.auto_window_bytes.map_values(|v: u64| 0u64),
            auto_window_start: now,
            ..auto_switched(a, now)
        }
    } else {
        a
    }
}

/// Whether a sample of the counters leads to a switch.
pub open spec fn sample_switches(
    m: AppModel,
    counters: Map<Seq<char>, (u64, u64)>,
    now: u64,
) -> bool {
    window_over(m, now) && switch_target(with_counters(m, counters, now), now) is Some
}

/// Counting changes only speeds, window and previous counters.
pub proof fn lemma_counted(m: AppModel, counters: Map<Seq<char>, (u64, u64)>, elapsed: u64, n: int)
    ensures
        ({
            let c = counted(m, counters, elapsed, n);
            c == (AppModel {
                current_rx: c.current_rx,
                current_tx: c.current_tx,
                auto_window_bytes: c.auto_window_bytes,
                prev_counters: c.prev_counters,
                ..m
            })
        }),
    decreases n,
{
    if n > 0 {
        lemma_counted(m, counters, elapsed, n - 1);
    }
}

impl App {
    fn count_one(&mut self, name: &String, counters: &Table<String, (u64, u64)>, elapsed: u64)
        ensures
            final(self)@ == counted_one(old(self)@, counters@, elapsed, name@),
            final(self).ifaces == old(self).ifaces,
            final(self).conns == old(self).conns,
    {
        if let Some(now) = counters.get(name) {
            let (known, d_rx, d_tx): (bool, u64, u64) = match self.prev_counters.get(name) {
                Some(p) => (true, minus_or_zero(now.0, p.0), minus_or_zero(now.1, p.1)),
                None => (false, 0, 0),
            };
            if same_text(name.as_str(), self.iface.as_str()) && elapsed > 0 && known {
                self.current_rx = each_second(d_rx, elapsed).floor();
                self.current_tx = each_second(d_tx, elapsed).floor();
            }
            let sum: u64 = plus_wrapping(self.window_of(name), plus_wrapping(d_rx, d_tx));
            self.auto_window_bytes.insert(name.clone(), sum);
            self.prev_counters.insert(name.clone(), (now.0, now.1));
        }
        assert(self@ =~= counted_one(old(self)@, counters@, elapsed, name@));
    }

    /// Takes in the counters of all interfaces. When the window is over the
    /// busiest interface is judged and a new window begins. Returns whether that
    /// led to a switch; the counters of the new interface have to be read next,
    /// see [`App::rebaseline`].
    pub fn tick_traffic(&mut self, counters: &Table<String, (u64, u64)>, now: u64) -> (r: bool)
        ensures
            final(self)@ == sampled_traffic(old(self)@, counters@, now),
            final(self).conns == old(self).conns,
            r == sample_switches(old(self)@, counters@, now),
    {
        let ghost m = self@;
        let elapsed: u64 = minus_or_zero(now, self.last_sample);
        let n: usize = self.ifaces.len();
        let mut i: usize = 0;
        assert(m.ifaces.len() == n);
        while i < n
            invariant
                i <= n == m.ifaces.len(),
                self.ifaces == old(self).ifaces,
                self.conns == old(self).conns,
                m == old(self)@,
                n == self.ifaces@.len(),
                self@ == counted(m, counters@, elapsed, i as int),
            decreases n - i,
        {
            let name = self.ifaces[i].clone();
            assert(m.ifaces[i as int] == name@);
            self.count_one(&name, counters, elapsed);
            i += 1;
        }
        proof {
            lemma_counted(m, counters@, elapsed, n as int);
        }
        let ghost a = self@;
        if minus_or_zero(now, self.auto_window_start) >= NANOS {
            let moved = self.auto_switch_if_needed(now);
            self.auto_window_bytes.zero_all();
            self.auto_window_start = now;
            assert(self@ =~= sampled_traffic(m, counters@, now));
            moved
        } else {
            false
        }
    }
}

/// Processor usage in percent since the previous sample; zero for the first.
pub open spec fn cpu_percent(m: AppModel, busy: u64, total: u64, now: u64) -> nat {
    if m.prev_cpu_total > 0 && total > m.prev_cpu_total && now > m.prev_cpu_time {
        double::num_min(
            procfs::percent(
                procfs::sat_sub(busy, m.prev_cpu_busy) as nat,
                procfs::sat_sub(total, m.prev_cpu_total) as nat,
            ),
            procfs::hundred(),
        )
    } else {
        0
    }
}

/// Whether disk counters can be held against those before. Before the first
/// sample both of these are zero.
pub open spec fn disk_comparable(m: AppModel, p: (u64, u64), now: u64) -> bool {
    &&& m.prev_disk_read_sectors > 0 || m.prev_disk_write_sectors > 0
    &&& p.0 >= m.prev_disk_read_sectors
    &&& p.1 >= m.prev_disk_write_sectors
    &&& now > m.prev_disk_time
}

/// Bytes per second of a number of sectors.
pub open spec fn sector_rate(sectors: u64, ns: u64) -> nat {
    double::num_div(
        double::num_mul(double::num_of(sectors as nat), double::num_of(SECTOR as nat)),
        rate::secs(ns),
    )
}

/// Bytes read from and written to disk per second since the previous sample;
/// zero for the first one and after a reset of the counters.
pub open spec fn disk_rates(m: AppModel, p: (u64, u64), now: u64) -> (nat, nat) {
    if disk_comparable(m, p, now) {
        let ns = (now - m.prev_disk_time) as u64;
        (
            sector_rate((p.0 - m.prev_disk_read_sectors) as u64, ns),
            sector_rate((p.1 - m.prev_disk_write_sectors) as u64, ns),
        )
    } else {
        (0, 0)
    }
}

/// The state after the current speeds have been recorded.
pub open spec fn recorded_speed(
    m: AppModel,
    counters: Map<Seq<char>, (u64, u64)>,
    now: u64,
) -> AppModel {
    let known = counters.dom().contains(m.iface);
    AppModel {
        rx_history: history::remembered(m.rx_history, m.current_rx),
        tx_history: history::remembered(m.tx_history, m.current_tx),
        peak_speed: higher(higher(m.peak_speed, m.current_rx), m.current_tx),
        prev_rx_bytes: if known {
            counters[m.iface].0
        } else {
            m.prev_rx_bytes
        },
        prev_tx_bytes: if known {
            counters[m.iface].1
        } else {
            m.prev_tx_bytes
        },
        last_sample: now,
        ..m
    }
}

/// The larger of two.
pub open spec fn higher(a: u64, b: u64) -> u64 {
    if a >= b {
        a
    } else {
        b
    }
}

/// The state after the usage of processors and memory has been recorded. A
/// reading that failed leaves no trace for the processors, and counts as zero
/// for the memory.
pub open spec fn recorded_usage(
    m: AppModel,
    cpu: Option<(u64, u64)>,
    mem: Option<nat>,
    now: u64,
) -> AppModel {
    AppModel {
        sys_cpu_history: match cpu {
            Some((busy, total)) => history::remembered(
                m.sys_cpu_history,
                cpu_percent(m, busy, total, now),
            ),
            None => history::capped(m.sys_cpu_history),
        },
        prev_cpu_busy: match cpu {
            Some((busy, _)) => busy,
            None => m.prev_cpu_busy,
        },
        prev_cpu_total: match cpu {
            Some((_, total)) => total,
            None => m.prev_cpu_total,
        },
        prev_cpu_time: if cpu is Some {
            now
        } else {
            m.prev_cpu_time
        },
        sys_mem_history: history::remembered(
            m.sys_mem_history,
            match mem {
                Some(p) => double::num_min(p, procfs::hundred()),
                None => 0,
            },
        ),
        ..m
    }
}

/// The state after the disk rates have been recorded. A reading that failed
/// leaves no trace.
pub open spec fn recorded_disk(m: AppModel, disk: Option<(u64, u64)>, now: u64) -> AppModel {
    match disk {
        Some(p) => AppModel {
            sys_disk_read_history: history::remembered(
                m.sys_disk_read_history,
                disk_rates(m, p, now).0,
            ),
            sys_disk_write_history: history::remembered(
                m.sys_disk_write_history,
                disk_rates(m, p, now).1,
            ),
            prev_disk_read_sectors: p.0,
            prev_disk_write_sectors: p.1,
            prev_disk_time: now,
            ..m
        },
        None => AppModel {
            sys_disk_read_history: history::capped(m.sys_disk_read_history),
            sys_disk_write_history: history::capped(m.sys_disk_write_history),
            ..m
        },
    }
}

/// Whether it is time to sample the connections.
pub open spec fn conns_due(m: AppModel, now: u64) -> bool {
    procfs::sat_sub(now, m.last_conns_sample) >= CONNS_PERIOD
}

/// The state after everything but the counters has been sampled.
pub open spec fn sampled_system(
    m: AppModel,
    counters: Map<Seq<char>, (u64, u64)>,
    cpu: Option<(u64, u64)>,
    mem: Option<nat>,
    disk: Option<(u64, u64)>,
    now: u64,
) -> AppModel {
    let a = recorded_disk(recorded_usage(recorded_speed(m, counters, now), cpu, mem, now), disk, now);
    AppModel {
        last_conns_sample: if conns_due(m, now) {
            now
        } else {
            m.last_conns_sample
        },
        ..a
    }
}

impl App {
    fn record_speed(&mut self, counters: &Table<String, (u64, u64)>, now: u64)
        ensures
            final(self)@ == recorded_speed(old(self)@, counters@, now),
            final(self).conns == old(self).conns,
    {
        remember(&mut self.rx_history, self.current_rx);
        remember(&mut self.tx_history, self.current_tx);
        if self.current_rx > self.peak_speed {
            self.peak_speed = self.current_rx;
        }
        if self.current_tx > self.peak_speed {
            self.peak_speed = self.current_tx;
        }
        if let Some(p) = counters.get(&self.iface) {
            self.prev_rx_bytes = p.0;
            self.prev_tx_bytes = p.1;
        }
        self.last_sample = now;
        assert(self@ =~= recorded_speed(old(self)@, counters@, now));
    }

    fn cpu_now(&self, busy: u64, total: u64, now: u64) -> (r: Double)
        ensures
            r@ == cpu_percent(self@, busy, total, now),
    {
        if self.prev_cpu_total > 0 && total > self.prev_cpu_total && now > self.prev_cpu_time {
            percent_of(
                minus_or_zero(busy, self.prev_cpu_busy),
                minus_or_zero(total, self.prev_cpu_total),
            ).min(Double::from_u64(100))
        } else {
            Double::zero()
        }
    }

    fn record_usage(&mut self, cpu: Option<(u64, u64)>, mem: Option<Double>, now: u64)
        ensures
            final(self)@ == recorded_usage(old(self)@, cpu, conns::opt_num(mem), now),
            final(self).conns == old(self).conns,
    {
        match cpu {
            Some((busy, total)) => {
                let pct = self.cpu_now(busy, total, now);
                proof {
                    history::lemma_nums(self.sys_cpu_history@, pct);
                }
                remember(&mut self.sys_cpu_history, pct);
                self.prev_cpu_busy = busy;
                self.prev_cpu_total = total;
                self.prev_cpu_time = now;
            },
            None => {
                proof {
                    history::lemma_nums(self.sys_cpu_history@, arbitrary());
                }
                cap(&mut self.sys_cpu_history);
            },
        }
        let used = match mem {
            Some(p) => p.min(Double::from_u64(100)),
            None => Double::zero(),
        };
        proof {
            history::lemma_nums(self.sys_mem_history@, used);
        }
        remember(&mut self.sys_mem_history, used);
        assert(self@ =~= recorded_usage(old(self)@, cpu, conns::opt_num(mem), now));
    }

    fn record_disk(&mut self, disk: Option<(u64, u64)>, now: u64)
        ensures
            final(self)@ == recorded_disk(old(self)@, disk, now),
            final(self).conns == old(self).conns,
    {
        match disk {
            Some(p) => {
                let mut rd = Double::zero();
                let mut wr = Double::zero();
                let known: bool = self.prev_disk_read_sectors > 0 || self.prev_disk_write_sectors
                    > 0;
                if known && p.0 >= self.prev_disk_read_sectors && p.1
                    >= self.prev_disk_write_sectors && now > self.prev_disk_time {
                    let ns: u64 = now - self.prev_disk_time;
                    rd = rate_of_sectors(p.0 - self.prev_disk_read_sectors, ns);
                    wr = rate_of_sectors(p.1 - self.prev_disk_write_sectors, ns);
                }
                proof {
                    history::lemma_nums(self.sys_disk_read_history@, rd);
                    history::lemma_nums(self.sys_disk_write_history@, wr);
                }
                remember(&mut self.sys_disk_read_history, rd);
                remember(&mut self.sys_disk_write_history, wr);
                self.prev_disk_read_sectors = p.0;
                self.prev_disk_write_sectors = p.1;
                self.prev_disk_time = now;
            },
            None => {
                proof {
                    history::lemma_nums(self.sys_disk_read_history@, arbitrary());
                    history::lemma_nums(self.sys_disk_write_history@, arbitrary());
                }
                cap(&mut self.sys_disk_read_history);
                cap(&mut self.sys_disk_write_history);
            },
        }
        assert(self@ =~= recorded_disk(old(self)@, disk, now));
    }

    /// Records the current speeds and the readings of processors, memory and
    /// disks as far as there are any. Returns whether it is time to sample the
    /// connections.
    pub fn tick_system(
        &mut self,
        counters: &Table<String, (u64, u64)>,
        cpu: Option<(u64, u64)>,
        mem: Option<Double>,
        disk: Option<(u64, u64)>,
        now: u64,
    ) -> (r: bool)
        ensures
            final(self)@ == sampled_system(old(self)@, counters@, cpu, conns::opt_num(mem), disk, now),
            final(self).conns == old(self).conns,
            r == conns_due(old(self)@, now),
    {
        self.record_speed(counters, now);
        self.record_usage(cpu, mem, now);
        self.record_disk(disk, now);
        let due = minus_or_zero(now, self.last_conns_sample) >= CONNS_PERIOD;
        if due {
            self.last_conns_sample = now;
        }
        due
    }
}

/// Bytes per second of a number of sectors.
fn rate_of_sectors(sectors: u64, ns: u64) -> (r: Double)
    requires
        ns > 0,
    ensures
        r@ == sector_rate(sectors, ns),
{
    proof {
        double::lemma_num_of_range(sectors);
        double::lemma_num_of_range(SECTOR);
    }
    Double::from_u64(sectors).times(Double::from_u64(SECTOR)).over(seconds(ns))
}

/// A disk rate is a finite number.
pub proof fn lemma_sector_rate(sectors: u64, ns: u64)
    requires
        ns > 0,
    ensures
        sector_rate(sectors, ns) < double::infinity(),
{
    let t = rate::secs(ns);
    let a = double::num_mul(double::num_of(sectors as nat), double::num_of(SECTOR as nat));
    rate::lemma_secs(ns);
    rounding::lemma_num_of_at_most(sectors);
    rounding::lemma_num_of_at_most(SECTOR);
    rounding::lemma_mul_at_most(double::num_of(sectors as nat), double::num_of(SECTOR as nat), 1138, 1138);
    lemma_pow2_strictly_increases(1202, 2097);
    lemma_pow2_pos(1074);
    lemma2_to64();
    lemma2_to64_rest();
    let o = double::one();
    let k: nat = 0x1_0000_0000_0000;
    assert(a * o <= (pow2(1202) * k) * t) by (nonlinear_arith)
        requires
            a <= pow2(1202),
            o <= t * k,
    ;
    lemma_pow2_adds(1202, 48);
    lemma_div_is_ordered((a * o) as int, ((pow2(1202) * k) * t) as int, t as int);
    lemma_div_by_multiple((pow2(1202) * k) as int, t as int);
    lemma_pow2_strictly_increases(1250, 2097);
    double::lemma_nearest_range(a * o, t);
    lemma_pow2_strictly_increases(1202, 2098);
}

// ── The rhythm ───────────────────────────────────────────────────────────────

/// Nanoseconds between two samples.
pub open spec fn tick_ns() -> u64 {
    (TICK_MS * 1_000_000) as u64
}

/// How long to wait for a key before the next sample is due.
pub fn wait_time(last_tick: u64, now: u64) -> (r: u64)
    ensures
        r == procfs::sat_sub(tick_ns(), procfs::sat_sub(now, last_tick)),
        now <= last_tick ==> r == 500_000_000,
        last_tick <= now <= last_tick + 500_000_000 ==> now + r == last_tick + 500_000_000,
        now >= last_tick + 500_000_000 ==> r == 0,
{
    minus_or_zero(TICK_MS * 1_000_000, minus_or_zero(now, last_tick))
}

/// Whether the next sample is due.
pub fn tick_due(last_tick: u64, now: u64) -> (r: bool)
    ensures
        r == (procfs::sat_sub(now, last_tick) >= tick_ns()),
        r <==> now >= last_tick + 500_000_000,
{
    minus_or_zero(now, last_tick) >= TICK_MS * 1_000_000
}

} // verus!
