//! What keys and clicks do.

use vstd::prelude::*;

use crate::conns;
use crate::conns::ConnMonitor;
use crate::rows;
use crate::rows::{next_column, SortKey};
use crate::state;
use crate::state::{App, AppModel};
use crate::text::{chars_of, copy_range, text_of};

verus! {

/// A key that was pressed.
#[derive(Clone, Copy, Debug, PartialEq, Eq, Structural)]
pub enum Key {
    /// A character.
    Char(char),
    /// Enter.
    Enter,
    /// Escape.
    Esc,
    /// Backspace.
    Backspace,
    /// Tab.
    Tab,
    /// Tab with shift.
    BackTab,
    /// Arrow up.
    Up,
    /// Arrow down.
    Down,
    /// Page up.
    PageUp,
    /// Page down.
    PageDown,
    /// Home.
    Home,
    /// End.
    End,
    /// Any other key.
    Other,
}

/// What a key asks for while no filter is being typed.
#[derive(Clone, Copy, Debug, PartialEq, Eq, Structural)]
pub enum Command {
    /// Leave the program.
    Quit,
    /// Forget histories, peak, connections and filter.
    Reset,
    /// Start to type a filter.
    Filter,
    /// Let the connections fill the screen, or end that.
    Focus,
    /// Group connections by process, or end that.
    Group,
    /// Next interface.
    Next,
    /// Previous interface.
    Previous,
    /// Follow the busiest interface, or end that.
    Auto,
    /// One row up.
    RowUp,
    /// One row down.
    RowDown,
    /// One page up.
    PageUp,
    /// One page down.
    PageDown,
    /// To the first row.
    Top,
    /// To the last row.
    Bottom,
    /// Sort by the next column.
    Rotate,
    /// Reverse the order.
    Flip,
    /// Nothing.
    Ignore,
}

/// What is left to do after a key.
#[derive(Clone, Copy, Debug, PartialEq, Eq, Structural)]
pub enum Outcome {
    /// Go on.
    Continue,
    /// Draw the screen and wait for the next key before anything else.
    Again,
    /// Leave the program.
    Quit,
    /// The interface has changed: its counters have to be read.
    Rebaseline,
}

/// What a key asks for while no filter is being typed.
pub open spec fn command(key: Key) -> Command {
    match key {
        Key::Char('q') | Key::Char('Q') | Key::Esc => Command::Quit,
        Key::Char('r') | Key::Char('R') => Command::Reset,
        Key::Char('/') => Command::Filter,
        Key::Char('c') | Key::Char('C') => Command::Focus,
        Key::Char('a') | Key::Char('A') => Command::Group,
        Key::Char('n') | Key::Char('N') | Key::Tab => Command::Next,
        Key::Char('p') | Key::Char('P') | Key::BackTab => Command::Previous,
        Key::Char('i') | Key::Char('I') => Command::Auto,
        Key::Up | Key::Char('k') | Key::Char('K') => Command::RowUp,
        Key::Down | Key::Char('j') | Key::Char('J') => Command::RowDown,
        Key::PageUp => Command::PageUp,
        Key::PageDown => Command::PageDown,
        Key::Home => Command::Top,
        Key::End => Command::Bottom,
        Key::Char('o') => Command::Rotate,
        Key::Char('O') => Command::Flip,
        _ => Command::Ignore,
    }
}

fn command_of(key: Key) -> (r: Command)
    ensures
        r == command(key),
{
    match key {
        Key::Char('q') | Key::Char('Q') | Key::Esc => Command::Quit,
        Key::Char('r') | Key::Char('R') => Command::Reset,
        Key::Char('/') => Command::Filter,
        Key::Char('c') | Key::Char('C') => Command::Focus,
        Key::Char('a') | Key::Char('A') => Command::Group,
        Key::Char('n') | Key::Char('N') | Key::Tab => Command::Next,
        Key::Char('p') | Key::Char('P') | Key::BackTab => Command::Previous,
        Key::Char('i') | Key::Char('I') => Command::Auto,
        Key::Up | Key::Char('k') | Key::Char('K') => Command::RowUp,
        Key::Down | Key::Char('j') | Key::Char('J') => Command::RowDown,
        Key::PageUp => Command::PageUp,
        Key::PageDown => Command::PageDown,
        Key::Home => Command::Top,
        Key::End => Command::Bottom,
        Key::Char('o') => Command::Rotate,
        Key::Char('O') => Command::Flip,
        _ => Command::Ignore,
    }
}

/// An index beyond the largest `usize`, wrapped around.
pub open spec fn wrapped(n: int) -> int {
    n % (usize::MAX + 1)
}

/// The filter, and whether it is still being typed, after a key.
pub open spec fn typed(m: AppModel, key: Key) -> AppModel {
    match key {
        Key::Char(c) => AppModel { filter: m.filter.push(c), ..m },
        Key::Backspace => AppModel {
            filter: if m.filter.len() > 0 {
                m.filter.drop_last()
            } else {
                m.filter
            },
            ..m
        },
        Key::Enter | Key::Esc => AppModel { filter_mode: false, ..m },
        _ => m,
    }
}

/// The state after a command, the connections aside.
pub open spec fn commanded(m: AppModel, c: Command, now: u64) -> AppModel {
    match c {
        Command::Reset => AppModel {
            filter: Seq::empty(),
            filter_mode: false,
            ..state::cleared(m, now)
        },
        Command::Filter => AppModel { filter_mode: true, ..m },
        Command::Focus => AppModel { focus_conns: !m.focus_conns, ..m },
        Command::Group => AppModel {
            aggregate: !m.aggregate,
            sort_key: SortKey::Throughput,
            sort_asc: false,
            ..m
        },
        Command::Next => state::switched(
            AppModel { auto_iface: false, last_auto_switch: now, ..m },
            wrapped(m.iface_idx + 1),
            now,
        ),
        Command::Previous => state::switched(
            AppModel { auto_iface: false, last_auto_switch: now, ..m },
            wrapped(m.iface_idx + m.ifaces.len() - 1),
            now,
        ),
        Command::Auto => AppModel { auto_iface: !m.auto_iface, last_auto_switch: now, ..m },
        Command::Rotate => AppModel {
            sort_key: rows::column_after(m.aggregate, m.sort_key),
            sort_asc: false,
            ..m
        },
        Command::Flip => AppModel { sort_asc: !m.sort_asc, ..m },
        _ => m,
    }
}

/// Whether a command turns the connections `a` into `b`.
pub open spec fn conns_commanded(a: ConnMonitor, c: Command, b: ConnMonitor) -> bool {
    match c {
        Command::Reset => conns::is_reset(a, b),
        Command::Focus | Command::Group | Command::Rotate | Command::Flip | Command::Top => b == (
        ConnMonitor { scroll: 0, ..a }),
        Command::RowUp => b == (ConnMonitor { scroll: conns::row_up(a) as usize, ..a }),
        Command::RowDown => b == (ConnMonitor { scroll: conns::row_down(a) as usize, ..a }),
        Command::PageUp => b == (ConnMonitor { scroll: conns::page_up(a) as usize, ..a }),
        Command::PageDown => b == (ConnMonitor { scroll: conns::page_down(a) as usize, ..a }),
        Command::Bottom => b == (ConnMonitor { scroll: usize::MAX, ..a }),
        _ => b == a,
    }
}

/// What is left to do after a command.
pub open spec fn outcome(m: AppModel, c: Command) -> Outcome {
    match c {
        Command::Quit => Outcome::Quit,
        Command::Next | Command::Previous => if m.ifaces.len() > 0 {
            Outcome::Rebaseline
        } else {
            Outcome::Continue
        },
        _ => Outcome::Continue,
    }
}

impl App {
    fn type_key(&mut self, key: Key)
        ensures
            final(self)@ == typed(old(self)@, key),
            final(self).conns == old(self).conns,
    {
        match key {
            Key::Char(c) => {
                self.filter.push(c);
            },
            Key::Backspace => {
                let cs = chars_of(self.filter.as_str());
                let n: usize = cs.len();
                if n > 0 {
                    let rest = copy_range(cs.as_slice(), 0, n - 1);
                    assert(rest@ =~= old(self).filter@.drop_last());
                    self.filter = text_of(rest.as_slice());
                }
            },
            Key::Enter | Key::Esc => {
                self.filter_mode = false;
            },
            _ => {},
        }
    }

    fn step_iface(&mut self, by: usize, now: u64) -> (r: Outcome)
        ensures
            final(self)@ == state::switched(
                AppModel { auto_iface: false, last_auto_switch: now, ..old(self)@ },
                wrapped(old(self)@.iface_idx + by),
                now,
            ),
            final(self).conns == old(self).conns,
            r == (if old(self)@.ifaces.len() > 0 {
                Outcome::Rebaseline
            } else {
                Outcome::Continue
            }),
    {
        self.auto_iface = false;
        self.last_auto_switch = now;
        let idx: usize = ((self.iface_idx as u128 + by as u128) % (usize::MAX as u128 + 1))
            as usize;
        if self.switch_iface(idx, now) {
            Outcome::Rebaseline
        } else {
            Outcome::Continue
        }
    }

    /// What a key does. While a filter is being typed, keys go to the filter.
    pub fn handle_key(&mut self, key: Key, now: u64) -> (r: Outcome)
        ensures
            old(self)@.filter_mode ==> final(self)@ == typed(old(self)@, key) && final(self).conns
                == old(self).conns && r == Outcome::Again,
            !old(self)@.filter_mode ==> final(self)@ == commanded(old(self)@, command(key), now)
                && conns_commanded(old(self).conns, command(key), final(self).conns) && r
                == outcome(old(self)@, command(key)),
    {
        if self.filter_mode {
            self.type_key(key);
            return Outcome::Again;
        }
        match command_of(key) {
            Command::Quit => {
                return Outcome::Quit;
            },
            Command::Reset => {
                self.clear_histories(now);
                self.conns.reset();
                self.filter = String::new();
                self.filter_mode = false;
                assert(self.filter@ =~= Seq::<char>::empty());
            },
            Command::Filter => {
                self.filter_mode = true;
            },
            Command::Focus => {
                self.focus_conns = !self.focus_conns;
                self.conns.scroll_top();
            },
            Command::Group => {
                self.aggregate = !self.aggregate;
                self.sort_key = SortKey::Throughput;
                self.sort_asc = false;
                self.conns.scroll_top();
            },
            Command::Next => {
                return self.step_iface(1, now);
            },
            Command::Previous => {
                assert(self@.ifaces.len() == self.ifaces@.len());
                let n: usize = self.ifaces.len();
                if n > 0 {
                    return self.step_iface(n - 1, now);
                }
                self.auto_iface = false;
                self.last_auto_switch = now;
            },
            Command::Auto => {
                self.auto_iface = !self.auto_iface;
                self.last_auto_switch = now;
            },
            Command::RowUp => {
                self.conns.scroll_up();
            },
            Command::RowDown => {
                self.conns.scroll_down();
            },
            Command::PageUp => {
                self.conns.scroll_page_up();
            },
            Command::PageDown => {
                self.conns.scroll_page_down();
            },
            Command::Top => {
                self.conns.scroll_top();
            },
            Command::Bottom => {
                self.conns.scroll_bottom();
            },
            Command::Rotate => {
                self.sort_key = next_column(self.aggregate, self.sort_key);
                self.sort_asc = false;
                self.conns.scroll_top();
            },
            Command::Flip => {
                self.sort_asc = !self.sort_asc;
                self.conns.scroll_top();
            },
            Command::Ignore => {},
        }
        Outcome::Continue
    }
}

/// The first title at or after `i` that covers the screen column, or the end.
pub open spec fn hit_from(hits: Seq<(u16, u16, SortKey)>, column: u16, i: int) -> int
    decreases hits.len() - i,
{
    if 0 <= i < hits.len() && !(hits[i].0 <= column < hits[i].1) {
        hit_from(hits, column, i + 1)
    } else {
        i
    }
}

/// The column whose title is at a screen position.
pub open spec fn clicked_column(m: AppModel, column: u16, row: u16) -> Option<SortKey> {
    let i = hit_from(m.col_hit, column, 0);
    if row == m.header_y && i < m.col_hit.len() {
        Some(m.col_hit[i].2)
    } else {
        None
    }
}

/// The state after a click on the title of `key`.
pub open spec fn sorted_by(m: AppModel, key: SortKey) -> AppModel {
    if m.sort_key == key {
        AppModel { sort_asc: !m.sort_asc, ..m }
    } else {
        AppModel { sort_key: key, sort_asc: false, ..m }
    }
}

impl App {
    /// A click on a column title sorts by that column, in descending order first;
    /// another click reverses the order. While a filter is being typed, and
    /// anywhere else, a click does nothing.
    pub fn handle_click(&mut self, column: u16, row: u16)
        ensures
            match clicked_column(old(self)@, column, row) {
                Some(key) if !old(self)@.filter_mode => final(self)@ == sorted_by(old(self)@, key)
                    && final(self).conns == (ConnMonitor { scroll: 0, ..old(self).conns }),
                _ => *final(self) == *old(self),
            },
    {
        if self.filter_mode || row != self.header_y {
            return ;
        }
        let ghost hits = self.col_hit@;
        let mut i: usize = 0;
        while i < self.col_hit.len()
            invariant
                i <= self.col_hit@.len(),
                *self == *old(self),
                hits == self.col_hit@,
                hit_from(hits, column, 0) == hit_from(hits, column, i as int),
                !self@.filter_mode,
                row == self.header_y,
            decreases self.col_hit@.len() - i,
        {
            let hit = self.col_hit[i];
            if column >= hit.0 && column < hit.1 {
                if self.sort_key == hit.2 {
                    self.sort_asc = !self.sort_asc;
                } else {
                    self.sort_key = hit.2;
                    self.sort_asc = false;
                }
                self.conns.scroll_top();
                return ;
            }
            i += 1;
        }
    }
}

} // verus!
