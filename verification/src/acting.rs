//! What keys and clicks do.

use vstd::prelude::*;

use crate::conns::ConnMonitor;
use crate::keys;
use crate::keys::{Key, Outcome};
use crate::rows;
use crate::rows::SortKey;
use crate::state::AppModel;

verus! {

/// Whether `key` is the letter, small or capital.
pub open spec fn letter(key: Key, small: char, capital: char) -> bool {
    key == Key::Char(small) || key == Key::Char(capital)
}

/// The program is left by `q` and escape, and by nothing else; that changes nothing.
pub proof fn law_quit(m: AppModel, a: ConnMonitor, b: ConnMonitor, key: Key, now: u64)
    requires
        keys::conns_commanded(a, keys::command(key), b),
    ensures
        keys::outcome(m, keys::command(key)) == Outcome::Quit <==> letter(key, 'q', 'Q') || key
            == Key::Esc,
        keys::outcome(m, keys::command(key)) == Outcome::Quit ==> keys::commanded(
            m,
            keys::command(key),
            now,
        ) == m && b == a,
{
}

/// The keys that choose what is shown: `/` begins a filter, `c` gives the screen to
/// the connections and takes it back, `a` goes between connections and processes
/// and back to the order by throughput, `i` switches automatic switching. What they
/// do not name stays.
pub proof fn law_view_keys(m: AppModel, a: ConnMonitor, b: ConnMonitor, key: Key, now: u64)
    requires
        keys::conns_commanded(a, keys::command(key), b),
    ensures
        ({
            let n = keys::commanded(m, keys::command(key), now);
            &&& key == Key::Char('/') ==> n == (AppModel { filter_mode: true, ..m }) && b == a
            &&& letter(key, 'c', 'C') ==> n == (AppModel { focus_conns: !m.focus_conns, ..m }) && b
                == (ConnMonitor { scroll: 0, ..a })
            &&& letter(key, 'a', 'A') ==> n == (AppModel {
                aggregate: !m.aggregate,
                sort_key: SortKey::Throughput,
                sort_asc: false,
                ..m
            }) && b == (ConnMonitor { scroll: 0, ..a })
            &&& letter(key, 'i', 'I') ==> n == (AppModel {
                auto_iface: !m.auto_iface,
                last_auto_switch: now,
                ..m
            }) && b == a
            &&& key == Key::Char('O') ==> n == (AppModel { sort_asc: !m.sort_asc, ..m }) && b == (
            ConnMonitor { scroll: 0, ..a })
            &&& key == Key::Char('o') ==> n == (AppModel {
                sort_key: n.sort_key,
                sort_asc: false,
                ..m
            }) && b == (ConnMonitor { scroll: 0, ..a })
        }),
{
}

/// The columns of the table of processes, as they follow each other.
pub open spec fn process_column(i: int) -> SortKey {
    if i == 0 {
        SortKey::User
    } else if i == 1 {
        SortKey::Proc
    } else if i == 2 {
        SortKey::Cpu
    } else if i == 3 {
        SortKey::Mem
    } else if i == 4 {
        SortKey::Time
    } else if i == 5 {
        SortKey::Conns
    } else if i == 6 {
        SortKey::Rx
    } else if i == 7 {
        SortKey::Tx
    } else if i == 8 {
        SortKey::DiskR
    } else {
        SortKey::DiskW
    }
}

/// The columns of the table of connections, as they follow each other.
pub open spec fn connection_column(i: int) -> SortKey {
    if i == 0 {
        SortKey::Proc
    } else if i == 1 {
        SortKey::Proto
    } else if i == 2 {
        SortKey::Src
    } else if i == 3 {
        SortKey::Dst
    } else if i == 4 {
        SortKey::Host
    } else if i == 5 {
        SortKey::Svc
    } else if i == 6 {
        SortKey::Rx
    } else {
        SortKey::Tx
    }
}

/// `o` moves the order on to the next column of the table that is shown, from the
/// last to the first, and from an order by no column to the first.
pub proof fn law_next_column(m: AppModel, i: int, now: u64)
    ensures
        ({
            let n = keys::commanded(m, keys::command(Key::Char('o')), now);
            &&& m.aggregate && 0 <= i < 10 && m.sort_key == process_column(i) ==> n.sort_key
                == process_column(
                if i == 9 {
                    0
                } else {
                    i + 1
                },
            )
            &&& !m.aggregate && 0 <= i < 8 && m.sort_key == connection_column(i) ==> n.sort_key
                == connection_column(
                if i == 7 {
                    0
                } else {
                    i + 1
                },
            )
            &&& m.sort_key == SortKey::Throughput ==> n.sort_key == if m.aggregate {
                SortKey::User
            } else {
                SortKey::Proc
            }
        }),
{
    let order = rows::columns(m.aggregate);
    rows::lemma_columns_distinct(m.aggregate);
    if m.aggregate && 0 <= i < 10 && m.sort_key == process_column(i) {
        assert(order[i] == process_column(i));
        rows::law_columns_cycle(true, i);
    }
    if !m.aggregate && 0 <= i < 8 && m.sort_key == connection_column(i) {
        assert(order[i] == connection_column(i));
        rows::law_columns_cycle(false, i);
    }
    if m.sort_key == SortKey::Throughput {
        assert(!order.contains(SortKey::Throughput));
    }
}

/// `n` and tab go to the next interface and `p` and shift-tab to the one before,
/// around the ends; both end automatic switching, and the counters of the new
/// interface are wanted.
pub proof fn law_interface_keys(m: AppModel, a: ConnMonitor, b: ConnMonitor, key: Key, now: u64)
    requires
        keys::conns_commanded(a, keys::command(key), b),
        m.iface_idx < m.ifaces.len(),
        m.ifaces.len() <= usize::MAX / 2,
    ensures
        ({
            let n = keys::commanded(m, keys::command(key), now);
            let len = m.ifaces.len() as int;
            let next = if m.iface_idx + 1 == len {
                0
            } else {
                m.iface_idx + 1
            };
            let before = if m.iface_idx == 0 {
                len - 1
            } else {
                m.iface_idx - 1
            };
            let forth = letter(key, 'n', 'N') || key == Key::Tab;
            let back = letter(key, 'p', 'P') || key == Key::BackTab;
            &&& forth ==> n.iface_idx == next && n.iface == m.ifaces[next]
            &&& back ==> n.iface_idx == before && n.iface == m.ifaces[before]
            &&& forth || back ==> {
                &&& !n.auto_iface && n.last_auto_switch == now
                &&& n.current_rx == 0 && n.current_tx == 0 && n.last_sample == now
                &&& n.rx_history.len() == 0 && n.tx_history.len() == 0 && n.peak_speed == 1
                &&& n.sys_cpu_history.len() == 0 && n.sys_mem_history.len() == 0
                &&& n.ifaces == m.ifaces && n.filter == m.filter && n.aggregate == m.aggregate
                &&& n.sort_key == m.sort_key && n.sort_asc == m.sort_asc
                &&& b == a
            }
            &&& keys::outcome(m, keys::command(key)) == Outcome::Rebaseline <==> forth || back
        }),
{
    let len = m.ifaces.len() as int;
    let x = m.iface_idx + 1;
    let y = m.iface_idx + len - 1;
    vstd::arithmetic::div_mod::lemma_small_mod(x as nat, (usize::MAX + 1) as nat);
    vstd::arithmetic::div_mod::lemma_small_mod(y as nat, (usize::MAX + 1) as nat);
    assert(keys::wrapped(x) == x);
    assert(keys::wrapped(y) == y);
    if x == len {
        vstd::arithmetic::div_mod::lemma_fundamental_div_mod_converse(x, len, 1, 0);
    } else {
        vstd::arithmetic::div_mod::lemma_small_mod(x as nat, len as nat);
    }
    if m.iface_idx == 0 {
        vstd::arithmetic::div_mod::lemma_small_mod(y as nat, len as nat);
    } else {
        vstd::arithmetic::div_mod::lemma_fundamental_div_mod_converse(
            y,
            len,
            1,
            m.iface_idx - 1,
        );
    }
}

/// Without interfaces there is none to go to: only automatic switching ends.
pub proof fn law_no_interfaces(m: AppModel, key: Key, now: u64)
    requires
        m.ifaces.len() == 0,
        letter(key, 'n', 'N') || key == Key::Tab || letter(key, 'p', 'P') || key == Key::BackTab,
    ensures
        keys::commanded(m, keys::command(key), now) == (AppModel {
            auto_iface: false,
            last_auto_switch: now,
            ..m
        }),
        keys::outcome(m, keys::command(key)) == Outcome::Continue,
{
}

/// `r` forgets histories, peak, filter and connections, and nothing else.
pub proof fn law_reset_key(m: AppModel, a: ConnMonitor, b: ConnMonitor, key: Key, now: u64)
    requires
        keys::conns_commanded(a, keys::command(key), b),
        letter(key, 'r', 'R'),
    ensures
        ({
            let n = keys::commanded(m, keys::command(key), now);
            &&& n.rx_history.len() == 0 && n.tx_history.len() == 0
            &&& n.sys_cpu_history.len() == 0 && n.sys_mem_history.len() == 0
            &&& n.sys_disk_read_history.len() == 0 && n.sys_disk_write_history.len() == 0
            &&& n.prev_cpu_total == 0 && n.prev_cpu_busy == 0 && n.prev_cpu_time == now
            &&& n.prev_disk_read_sectors == 0 && n.prev_disk_write_sectors == 0
            &&& n.prev_disk_time == now
            &&& n.peak_speed == 1
            &&& n.filter.len() == 0 && !n.filter_mode
            &&& n.iface == m.iface && n.ifaces == m.ifaces && n.iface_idx == m.iface_idx
            &&& n.current_rx == m.current_rx && n.current_tx == m.current_tx
            &&& n.prev_rx_bytes == m.prev_rx_bytes && n.prev_tx_bytes == m.prev_tx_bytes
            &&& n.prev_counters == m.prev_counters && n.last_sample == m.last_sample
            &&& n.auto_window_bytes == m.auto_window_bytes && n.auto_window_start
                == m.auto_window_start
            &&& n.auto_iface == m.auto_iface && n.last_auto_switch == m.last_auto_switch
            &&& n.last_conns_sample == m.last_conns_sample
            &&& n.focus_conns == m.focus_conns && n.aggregate == m.aggregate
            &&& n.sort_key == m.sort_key && n.sort_asc == m.sort_asc
            &&& n.header_y == m.header_y && n.col_hit == m.col_hit
            &&& b.last@.len() == 0 && b.scroll == 0
            &&& b.prev@.dom() == Set::<(Seq<char>, Seq<char>, Seq<char>)>::empty()
            &&& b.procs@.dom() == Set::<u32>::empty() && b.proc_prev@.dom() == Set::<u32>::empty()
            &&& b.proc_io_prev@.dom() == Set::<u32>::empty()
            &&& b.services == a.services && b.host_cache == a.host_cache && b.pending == a.pending
            &&& b.uid_cache == a.uid_cache && b.mem_total_kb == a.mem_total_kb
            &&& b.available == a.available && b.last_max_rows == a.last_max_rows
        }),
{
}

/// The keys that scroll: a row up or down, never above the top; a page, which is as
/// many rows as were last shown and at least one; to the top and to the end. They
/// change nothing else.
pub proof fn law_scroll_keys(m: AppModel, a: ConnMonitor, b: ConnMonitor, key: Key, now: u64)
    requires
        keys::conns_commanded(a, keys::command(key), b),
    ensures
        ({
            let up = letter(key, 'k', 'K') || key == Key::Up;
            let down = letter(key, 'j', 'J') || key == Key::Down;
            let step = if a.last_max_rows == 0 {
                1
            } else {
                a.last_max_rows as int
            };
            let scrolls = up || down || key == Key::PageUp || key == Key::PageDown || key
                == Key::Home || key == Key::End;
            &&& up && a.scroll > 0 ==> b.scroll + 1 == a.scroll
            &&& up && a.scroll == 0 ==> b.scroll == 0
            &&& down && a.scroll < usize::MAX ==> b.scroll == a.scroll + 1
            &&& key == Key::PageUp && a.scroll >= step ==> b.scroll + step == a.scroll
            &&& key == Key::PageUp && a.scroll < step ==> b.scroll == 0
            &&& key == Key::PageDown && a.scroll + step <= usize::MAX ==> b.scroll == a.scroll
                + step
            &&& key == Key::Home ==> b.scroll == 0
            &&& key == Key::End ==> b.scroll == usize::MAX
            &&& scrolls ==> keys::commanded(m, keys::command(key), now) == m && b == (
            ConnMonitor { scroll: b.scroll, ..a })
        }),
{
}

/// Whether the key means something while no filter is being typed.
pub open spec fn means_something(key: Key) -> bool {
    match key {
        Key::Char(c) => c == 'q' || c == 'Q' || c == 'r' || c == 'R' || c == '/' || c == 'c' || c
            == 'C' || c == 'a' || c == 'A' || c == 'n' || c == 'N' || c == 'p' || c == 'P' || c
            == 'i' || c == 'I' || c == 'k' || c == 'K' || c == 'j' || c == 'J' || c == 'o' || c
            == 'O',
        Key::Enter => false,
        Key::Backspace => false,
        Key::Other => false,
        _ => true,
    }
}

/// Any other key does nothing.
pub proof fn law_other_keys(m: AppModel, a: ConnMonitor, b: ConnMonitor, key: Key, now: u64)
    requires
        keys::conns_commanded(a, keys::command(key), b),
        !means_something(key),
    ensures
        keys::commanded(m, keys::command(key), now) == m,
        b == a,
        keys::outcome(m, keys::command(key)) == Outcome::Continue,
{
}

/// While a filter is typed every character becomes its last one, `q` too; backspace
/// takes the last one away; enter and escape end the typing and keep the filter; and
/// nothing else changes.
pub proof fn law_typing(m: AppModel, key: Key)
    ensures
        ({
            let n = keys::typed(m, key);
            &&& forall|c: char|
                key == Key::Char(c) ==> (n.filter.len() == m.filter.len() + 1 && n.filter.last()
                    == c && n.filter.drop_last() == m.filter && n.filter_mode == m.filter_mode)
            &&& key == Key::Backspace && m.filter.len() > 0 ==> n.filter == m.filter.take(
                m.filter.len() - 1,
            )
            &&& key == Key::Backspace && m.filter.len() == 0 ==> n.filter.len() == 0
            &&& key == Key::Enter || key == Key::Esc ==> !n.filter_mode && n.filter == m.filter
            &&& key == Key::Enter || key == Key::Esc || n.filter_mode == m.filter_mode
            &&& n == (AppModel { filter: n.filter, filter_mode: n.filter_mode, ..m })
            &&& key is Char || key == Key::Backspace || n.filter == m.filter
        }),
{
    let n = keys::typed(m, key);
    match key {
        Key::Char(c) => {
            assert(n.filter.drop_last() =~= m.filter);
        },
        Key::Backspace => {
            if m.filter.len() > 0 {
                assert(m.filter.drop_last() =~= m.filter.take(m.filter.len() - 1));
            }
        },
        _ => {},
    }
}

/// A click counts in the row of the titles, on the first title that it falls on, and
/// nowhere else.
pub proof fn law_click_column(m: AppModel, column: u16, row: u16)
    ensures
        match keys::clicked_column(m, column, row) {
            Some(key) => row == m.header_y && exists|i: int|
                0 <= i < m.col_hit.len() && #[trigger] on_title(m, i, column) && key
                    == m.col_hit[i].2 && forall|j: int|
                    0 <= j < i ==> !#[trigger] on_title(m, j, column),
            None => row != m.header_y || forall|i: int|
                0 <= i < m.col_hit.len() ==> !#[trigger] on_title(m, i, column),
        },
{
    lemma_hit(m, column, 0);
}

/// Whether the column is within the title at `i`.
pub open spec fn on_title(m: AppModel, i: int, column: u16) -> bool {
    m.col_hit[i].0 <= column && column < m.col_hit[i].1
}

proof fn lemma_hit(m: AppModel, column: u16, i: int)
    requires
        0 <= i <= m.col_hit.len(),
    ensures
        ({
            let k = keys::hit_from(m.col_hit, column, i);
            &&& i <= k <= m.col_hit.len()
            &&& k < m.col_hit.len() ==> on_title(m, k, column)
            &&& forall|j: int| i <= j < k ==> !#[trigger] on_title(m, j, column)
        }),
    decreases m.col_hit.len() - i,
{
    if i < m.col_hit.len() && !on_title(m, i, column) {
        lemma_hit(m, column, i + 1);
    }
}

/// A click on the title that the order goes by turns the order around; one on
/// another title orders by that, downwards.
pub proof fn law_click_sorts(m: AppModel, key: SortKey)
    ensures
        ({
            let n = keys::sorted_by(m, key);
            &&& n.sort_key == key
            &&& n.sort_asc <==> m.sort_key == key && !m.sort_asc
            &&& n == (AppModel { sort_key: key, sort_asc: n.sort_asc, ..m })
        }),
{
}

} // verus!
