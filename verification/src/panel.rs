//! The panel that lists connections, or processes with their connections.

use vstd::arithmetic::div_mod::*;
use vstd::prelude::*;
use vstd::string::*;

use crate::conns;
use crate::conns::{AggModel, AggRow, ConnModel, ConnMonitor, ConnStat};
use crate::double;
use crate::double::Double;
use crate::layout;
use crate::layout::{split, within_borders, Area, Axis, Sizing};
use crate::rank;
use crate::rows;
use crate::rows::{sort_order, sort_rows, ConnRow, RowModel, SortKey};
use crate::show;
use crate::show::{fmt_time_plus, format_speed, one_decimal, proc_sort_label};
use crate::state::{App, AppModel};
use crate::text;
use crate::text::{decimal_text, push_decimal, push_padded};

verus! {

/// What the panel shows.
pub struct Panel {
    /// The title.
    pub title: String,
    /// What stands below it.
    pub body: PanelBody,
}

/// What stands below the title.
pub enum PanelBody {
    /// A message in place of rows.
    Message(String),
    /// Column titles and rows.
    Table {
        /// The column titles.
        header: Vec<String>,
        /// The widths of the columns.
        widths: Vec<Sizing>,
        /// The rows.
        rows: Vec<PanelRow>,
    },
}

/// A row as shown.
pub struct PanelRow {
    /// The cells from left to right.
    pub cells: Vec<String>,
    /// Whether the row is tinted.
    pub zebra: bool,
}

// ── Which rows ───────────────────────────────────────────────────────────────

/// The rows before they are sorted: the connections that pass the filter, or the
/// processes that have such connections, the busiest first.
pub open spec fn unsorted_rows(c: ConnMonitor, filter: Seq<char>, aggregate: bool) -> Seq<RowModel> {
    if aggregate {
        let groups = conns::grouped(
            conns::conns(c.last@),
            filter,
            conns::procs_model(c.procs@),
            c.last@.len() as int,
        );
        rank::sorted(groups, conns::agg_throughputs(groups), false).map_values(
            |a: AggModel| RowModel::Agg(a),
        )
    } else {
        conns::passing(conns::conns(c.last@), filter).map_values(
            |x: ConnModel| RowModel::Detail(x),
        )
    }
}

/// The rows of the panel in their order.
pub open spec fn panel_rows(c: ConnMonitor, m: AppModel) -> Seq<RowModel> {
    let all = unsorted_rows(c, m.filter, m.aggregate);
    rank::sorted(all, rows::row_values(all, m.sort_key), m.sort_asc)
}

/// How many rows there is room for between title, column titles and border; at
/// least one.
pub open spec fn room_for_rows(a: Area) -> usize {
    if a.height > 3 {
        (a.height - 3) as usize
    } else {
        1
    }
}

impl App {
    /// The rows of the panel in their order.
    fn sorted_rows(&self) -> (r: Vec<ConnRow>)
        ensures
            rows::row_models(r@) == panel_rows(self.conns, self@),
    {
        let mut r: Vec<ConnRow> = Vec::new();
        if self.aggregate {
            let list = self.conns.aggregate_view(self.filter.as_str());
            r = wrap_aggs(list);
            assert(rows::row_models(r@) =~= unsorted_rows(self.conns, self.filter@, true));
        } else {
            let list = self.conns.detail_view(self.filter.as_str());
            r = wrap_conns(list);
            assert(rows::row_models(r@) =~= unsorted_rows(self.conns, self.filter@, false));
        }
        sort_rows(&mut r, self.sort_key, self.sort_asc);
        r
    }
}

fn wrap_aggs(list: Vec<AggRow>) -> (r: Vec<ConnRow>)
    ensures
        rows::row_models(r@) == conns::aggs(list@).map_values(|a: AggModel| RowModel::Agg(a)),
{
    let mut r: Vec<ConnRow> = Vec::new();
    let mut i: usize = 0;
    while i < list.len()
        invariant
            i <= list@.len(),
            r@.len() == i,
            forall|j: int| 0 <= j < i ==> (#[trigger] r@[j])@ == RowModel::Agg(list@[j]@),
        decreases list@.len() - i,
    {
        r.push(ConnRow::Agg(list[i].clone()));
        i += 1;
    }
    assert(rows::row_models(r@) =~= conns::aggs(list@).map_values(|a: AggModel| RowModel::Agg(a)));
    r
}

fn wrap_conns(list: Vec<ConnStat>) -> (r: Vec<ConnRow>)
    ensures
        rows::row_models(r@) == conns::conns(list@).map_values(|c: ConnModel| RowModel::Detail(c)),
{
    let mut r: Vec<ConnRow> = Vec::new();
    let mut i: usize = 0;
    while i < list.len()
        invariant
            i <= list@.len(),
            r@.len() == i,
            forall|j: int| 0 <= j < i ==> (#[trigger] r@[j])@ == RowModel::Detail(list@[j]@),
        decreases list@.len() - i,
    {
        r.push(ConnRow::Detail(list[i].clone()));
        i += 1;
    }
    assert(rows::row_models(r@) =~= conns::conns(list@).map_values(|c: ConnModel| RowModel::Detail(c)));
    r
}

// ── What the rows say ────────────────────────────────────────────────────────

/// A percentage as shown.
pub open spec fn percent_text(d: nat) -> Seq<char> {
    text::pad(show::number_text(d), 6, ' ').push('%')
}

/// A rate as shown.
pub open spec fn rate_text(d: nat) -> Seq<char> {
    show::speed_text(double::num_floor(d) as u64)
}

/// A rate as shown where it may not be known.
pub open spec fn opt_rate_text(o: Option<nat>) -> Seq<char> {
    match o {
        Some(d) => rate_text(d),
        None => "n/a"@,
    }
}

/// A text as shown where it may not be known.
pub open spec fn or_dash(o: Option<Seq<char>>) -> Seq<char> {
    match o {
        Some(s) => s,
        None => "-"@,
    }
}

/// A rate of a process, which is known where one of its connections has a rate.
pub open spec fn if_rated(a: AggModel, d: nat) -> Option<nat> {
    if a.rated {
        Some(d)
    } else {
        None
    }
}

/// The cells of a row.
pub open spec fn cells(row: RowModel) -> Seq<Seq<char>> {
    match row {
        RowModel::Agg(a) => seq![
            a.info.user,
            show::proc_label(a.comm, a.pid),
            percent_text(a.info.cpu_pct),
            percent_text(a.info.mem_pct),
            show::time_text(a.info.time_secs),
            text::decimal(a.count),
            opt_rate_text(if_rated(a, a.rx_rate)),
            opt_rate_text(if_rated(a, a.tx_rate)),
            rate_text(a.info.disk_read_rate),
            rate_text(a.info.disk_write_rate),
        ],
        RowModel::Detail(c) => seq![
            show::proc_label(c.comm, c.pid),
            c.proto,
            c.local,
            c.remote,
            or_dash(c.host),
            or_dash(c.service),
            opt_rate_text(c.rx_rate),
            opt_rate_text(c.tx_rate),
        ],
    }
}

fn show_percent(d: Double) -> (r: String)
    ensures
        r@ == percent_text(d@),
{
    let mut r = String::new();
    let n = one_decimal(d);
    push_padded(&mut r, n.as_str(), 6, ' ');
    r.push('%');
    assert(r@ =~= percent_text(d@));
    r
}

fn show_rate(d: Double) -> (r: String)
    ensures
        r@ == rate_text(d@),
{
    format_speed(d.floor())
}

fn show_opt_rate(o: Option<Double>) -> (r: String)
    ensures
        r@ == opt_rate_text(conns::opt_num(o)),
{
    match o {
        Some(d) => show_rate(d),
        None => "n/a".to_string(),
    }
}

fn show_opt(o: &Option<String>) -> (r: String)
    ensures
        r@ == or_dash(text::opt_text(*o)),
{
    match o {
        Some(s) => s.clone(),
        None => "-".to_string(),
    }
}

fn row_cells(row: &ConnRow) -> (r: Vec<String>)
    ensures
        text::strings(r@) == cells(row@),
{
    let r = match row {
        ConnRow::Agg(a) => vec![
            a.user.clone(),
            proc_sort_label(a.comm.as_str(), a.pid),
            show_percent(a.cpu_pct),
            show_percent(a.mem_pct),
            fmt_time_plus(a.time_secs),
            decimal_text(a.count as u64),
            show_opt_rate(if a.rated {
                Some(a.rx_rate)
            } else {
                None
            }),
            show_opt_rate(if a.rated {
                Some(a.tx_rate)
            } else {
                None
            }),
            show_rate(a.disk_read_rate),
            show_rate(a.disk_write_rate),
        ],
        ConnRow::Detail(c) => vec![
            proc_sort_label(c.comm.as_str(), c.pid),
            c.proto.clone(),
            c.local.clone(),
            c.remote.clone(),
            show_opt(&c.host),
            show_opt(&c.service),
            show_opt_rate(c.rx_rate),
            show_opt_rate(c.tx_rate),
        ],
    };
    assert(text::strings(r@) =~= cells(row@));
    r
}

// ── What stands around them ──────────────────────────────────────────────────

/// The number of the last row shown; not below that of the first.
pub open spec fn last_shown(first: int, scroll: int, room: int, len: int) -> int {
    let last = if scroll + room < len {
        scroll + room
    } else {
        len
    };
    if last > first {
        last
    } else {
        first
    }
}

/// Which of how many rows are shown.
pub open spec fn range_text(scroll: int, room: int, len: int) -> Seq<char> {
    let first = if len == 0 {
        0
    } else {
        scroll + 1
    };
    let last = last_shown(first, scroll, room, len);
    " Top Connections "@ + text::decimal(first as nat) + seq!['-'] + text::decimal(last as nat)
        + seq!['/'] + text::decimal(len as nat) + seq![' ']
}

/// The filter, where there is one or one is being typed.
pub open spec fn filter_text(m: AppModel) -> Seq<char> {
    if m.filter.len() > 0 || m.filter_mode {
        "filter:\""@ + m.filter + "\" "@
    } else {
        Seq::empty()
    }
}

/// The title: which of how many rows are shown, the view, the filter, and a
/// reminder of the keys.
pub open spec fn title_text(m: AppModel, scroll: int, room: int, len: int) -> Seq<char> {
    let view = if m.aggregate {
        "[agg] "@
    } else {
        Seq::empty()
    };
    range_text(scroll, room, len) + view + filter_text(m)
        + "↑↓ pg:scroll c:focus a:agg /:filter click hdr/o:sort O:dir"@
}

/// The title of a column.
pub open spec fn column_title(key: SortKey) -> Seq<char> {
    match key {
        SortKey::User => "USER"@,
        SortKey::Proc => "PROC(PID)"@,
        SortKey::Proto => "PRO"@,
        SortKey::Src => "SRC"@,
        SortKey::Dst => "DST"@,
        SortKey::Host => "HOST"@,
        SortKey::Svc => "SVC"@,
        SortKey::Cpu => "CPU%"@,
        SortKey::Mem => "MEM%"@,
        SortKey::Time => "TIME+"@,
        SortKey::Conns => "CONNS"@,
        SortKey::Rx => "RX"@,
        SortKey::Tx => "TX"@,
        SortKey::DiskR => "DISKR"@,
        SortKey::DiskW => "DISKW"@,
        SortKey::Throughput => Seq::empty(),
    }
}

/// The title of a column, with a mark where the rows are sorted by it.
pub open spec fn marked_title(key: SortKey, sort_key: SortKey, asc: bool) -> Seq<char> {
    if key == sort_key {
        column_title(key) + (if asc {
            " ▲"@
        } else {
            " ▼"@
        })
    } else {
        column_title(key)
    }
}

/// The column titles.
pub open spec fn header_texts(aggregate: bool, sort_key: SortKey, asc: bool) -> Seq<Seq<char>> {
    rows::columns(aggregate).map_values(|k: SortKey| marked_title(k, sort_key, asc))
}

/// The widths of the columns.
pub open spec fn column_sizes(aggregate: bool) -> Seq<Sizing> {
    if aggregate {
        seq![
            Sizing::Length(8),
            Sizing::Length(24),
            Sizing::Length(16),
            Sizing::Length(16),
            Sizing::Length(10),
            Sizing::Length(6),
            Sizing::Length(11),
            Sizing::Length(11),
            Sizing::Length(11),
            Sizing::Length(11),
        ]
    } else {
        seq![
            Sizing::Min(14),
            Sizing::Length(4),
            Sizing::Min(13),
            Sizing::Min(13),
            Sizing::Min(12),
            Sizing::Length(7),
            Sizing::Length(9),
            Sizing::Length(9),
        ]
    }
}

/// First screen column, end and meaning of every column.
pub open spec fn hits_of(parts: Seq<Area>, keys: Seq<SortKey>) -> Seq<(u16, u16, SortKey)> {
    Seq::new(
        keys.len(),
        |i: int| (parts[i].x, (parts[i].x + parts[i].width) as u16, keys[i]),
    )
}

/// Whether `hits` are the places of the column titles within `inner`.
pub open spec fn are_hits(inner: Area, aggregate: bool, hits: Seq<(u16, u16, SortKey)>) -> bool {
    exists|parts: Seq<Area>| #[trigger]
        layout::is_split(inner, Axis::Horizontal, column_sizes(aggregate), parts) && hits == hits_of(
            parts,
            rows::columns(aggregate),
        )
}

fn show_range(scroll: usize, room: usize, len: usize) -> (r: String)
    requires
        len == 0 && scroll == 0 || scroll < len,
    ensures
        r@ == range_text(scroll as int, room as int, len as int),
{
    let first: u64 = if len == 0 {
        0
    } else {
        scroll as u64 + 1
    };
    let end: u64 = if room < len - scroll {
        scroll as u64 + room as u64
    } else {
        len as u64
    };
    let last: u64 = if end > first {
        end
    } else {
        first
    };
    let mut r = String::new();
    r.append(" Top Connections ");
    push_decimal(&mut r, first);
    r.push('-');
    push_decimal(&mut r, last);
    r.push('/');
    push_decimal(&mut r, len as u64);
    r.push(' ');
    assert(r@ =~= range_text(scroll as int, room as int, len as int));
    r
}

fn show_filter(app: &App) -> (r: String)
    ensures
        r@ == filter_text(app@),
{
    let mut r = String::new();
    let n: usize = app.filter.as_str().unicode_len();
    if n > 0 || app.filter_mode {
        r.append("filter:\"");
        r.append(app.filter.as_str());
        r.append("\" ");
    }
    assert(r@ =~= filter_text(app@));
    r
}

fn show_title(app: &App, room: usize, len: usize) -> (r: String)
    requires
        len == 0 && app.conns.scroll == 0 || app.conns.scroll < len,
    ensures
        r@ == title_text(app@, app.conns.scroll as int, room as int, len as int),
{
    let mut r = show_range(app.conns.scroll, room, len);
    if app.aggregate {
        r.append("[agg] ");
    }
    let filter = show_filter(app);
    r.append(filter.as_str());
    r.append("↑↓ pg:scroll c:focus a:agg /:filter click hdr/o:sort O:dir");
    assert(r@ =~= title_text(app@, app.conns.scroll as int, room as int, len as int));
    r
}

fn title_of(key: SortKey) -> (r: &'static str)
    ensures
        r@ == column_title(key),
{
    match key {
        SortKey::User => "USER",
        SortKey::Proc => "PROC(PID)",
        SortKey::Proto => "PRO",
        SortKey::Src => "SRC",
        SortKey::Dst => "DST",
        SortKey::Host => "HOST",
        SortKey::Svc => "SVC",
        SortKey::Cpu => "CPU%",
        SortKey::Mem => "MEM%",
        SortKey::Time => "TIME+",
        SortKey::Conns => "CONNS",
        SortKey::Rx => "RX",
        SortKey::Tx => "TX",
        SortKey::DiskR => "DISKR",
        SortKey::DiskW => "DISKW",
        SortKey::Throughput => {
            proof {
                reveal_strlit("");
                assert(""@ =~= Seq::<char>::empty());
            }
            ""
        },
    }
}

fn show_header(aggregate: bool, sort_key: SortKey, asc: bool) -> (r: Vec<String>)
    ensures
        text::strings(r@) == header_texts(aggregate, sort_key, asc),
{
    let keys = sort_order(aggregate);
    let mut r: Vec<String> = Vec::new();
    let mut i: usize = 0;
    while i < keys.len()
        invariant
            i <= keys@.len(),
            keys@ == rows::columns(aggregate),
            r@.len() == i,
            forall|j: int|
                0 <= j < i ==> (#[trigger] r@[j])@ == marked_title(keys@[j], sort_key, asc),
        decreases keys@.len() - i,
    {
        let mut t = title_of(keys[i]).to_string();
        if keys[i] == sort_key {
            t.append(
                if asc {
                    " ▲"
                } else {
                    " ▼"
                },
            );
        }
        r.push(t);
        i += 1;
    }
    assert(text::strings(r@) =~= header_texts(aggregate, sort_key, asc));
    r
}

fn sizes_of(aggregate: bool) -> (r: Vec<Sizing>)
    ensures
        r@ == column_sizes(aggregate),
{
    if aggregate {
        vec![
            Sizing::Length(8),
            Sizing::Length(24),
            Sizing::Length(16),
            Sizing::Length(16),
            Sizing::Length(10),
            Sizing::Length(6),
            Sizing::Length(11),
            Sizing::Length(11),
            Sizing::Length(11),
            Sizing::Length(11),
        ]
    } else {
        vec![
            Sizing::Min(14),
            Sizing::Length(4),
            Sizing::Min(13),
            Sizing::Min(13),
            Sizing::Min(12),
            Sizing::Length(7),
            Sizing::Length(9),
            Sizing::Length(9),
        ]
    }
}

fn find_hits(inner: Area, aggregate: bool) -> (r: Vec<(u16, u16, SortKey)>)
    ensures
        are_hits(inner, aggregate, r@),
{
    let keys = sort_order(aggregate);
    let sizes = sizes_of(aggregate);
    proof {
        layout::lemma_growing(sizes@, sizes@.len() as int);
    }
    let parts = split(inner, Axis::Horizontal, 0, &sizes);
    let mut r: Vec<(u16, u16, SortKey)> = Vec::new();
    let mut i: usize = 0;
    assert(layout::inset(inner, 0) == inner);
    while i < keys.len()
        invariant
            i <= keys@.len(),
            keys@ == rows::columns(aggregate),
            parts@.len() == keys@.len(),
            layout::is_split(inner, Axis::Horizontal, column_sizes(aggregate), parts@),
            r@.len() == i,
            forall|j: int|
                0 <= j < i ==> #[trigger] r@[j] == (
                    parts@[j].x,
                    (parts@[j].x + parts@[j].width) as u16,
                    keys@[j],
                ),
        decreases keys@.len() - i,
    {
        let p = parts[i];
        assert(layout::is_part(inner, Axis::Horizontal, parts@[i as int]));
        r.push((p.x, p.x + p.width, keys[i]));
        i += 1;
    }
    assert(r@ =~= hits_of(parts@, rows::columns(aggregate)));
    r
}

// ── The panel ────────────────────────────────────────────────────────────────

/// Whether `shown` are the rows from `scroll` on, as far as there is room. Every
/// other row is tinted.
pub open spec fn are_shown(
    shown: Seq<PanelRow>,
    rows: Seq<RowModel>,
    scroll: int,
    room: int,
) -> bool {
    &&& shown.len() == (if rows.len() - scroll < room {
        rows.len() - scroll
    } else {
        room
    })
    &&& forall|i: int|
        0 <= i < shown.len() ==> text::strings((#[trigger] shown[i]).cells@) == cells(rows[scroll + i])
            && shown[i].zebra == ((scroll + i) % 2 == 1)
}

fn show_rows(rows: &Vec<ConnRow>, scroll: usize, room: usize) -> (r: Vec<PanelRow>)
    requires
        scroll <= rows@.len(),
    ensures
        are_shown(r@, rows::row_models(rows@), scroll as int, room as int),
{
    let mut r: Vec<PanelRow> = Vec::new();
    let n: usize = rows.len();
    let mut i: usize = scroll;
    assert(rows::row_models(rows@).len() == n);
    while i < n && i - scroll < room
        invariant
            scroll <= i <= n == rows@.len(),
            i - scroll <= room,
            rows::row_models(rows@).len() == n,
            r@.len() == i - scroll,
            forall|j: int|
                0 <= j < r@.len() ==> text::strings((#[trigger] r@[j]).cells@) == cells(
                    rows::row_models(rows@)[scroll + j],
                ) && r@[j].zebra == ((scroll + j) % 2 == 1),
        decreases n - i,
    {
        assert(rows::row_models(rows@)[i as int] == rows@[i as int]@);
        r.push(PanelRow { cells: row_cells(&rows[i]), zebra: i % 2 == 1 });
        i += 1;
    }
    r
}

/// The message in place of rows.
pub open spec fn empty_text(m: AppModel) -> Seq<char> {
    if m.filter.len() == 0 {
        " no active connections "@
    } else {
        " no connections match the filter "@
    }
}

impl App {
    /// What the panel shows in `area`. The scroll position is kept within the
    /// rows, and the places of the column titles are remembered for clicks.
    pub fn conn_panel(&mut self, area: Area) -> (r: Panel)
        ensures
            ({
                let rows = panel_rows(old(self).conns, old(self)@);
                let room = room_for_rows(area);
                let c = conns::clamped(old(self).conns, rows.len() as usize, room);
                &&& rows.len() <= usize::MAX
                &&& final(self).conns == c
                &&& r.title@ == title_text(old(self)@, c.scroll as int, room as int, rows.len() as int)
                &&& match r.body {
                    PanelBody::Message(s) => {
                        &&& !c.available || rows.len() == 0
                        &&& s@ == (if !c.available {
                            " ss unavailable — install iproute2's `ss` "@
                        } else {
                            empty_text(old(self)@)
                        })
                        &&& final(self)@ == old(self)@
                    },
                    PanelBody::Table { header, widths, rows: shown } => {
                        &&& c.available && rows.len() > 0
                        &&& text::strings(header@) == header_texts(
                            old(self)@.aggregate,
                            old(self)@.sort_key,
                            old(self)@.sort_asc,
                        )
                        &&& widths@ == column_sizes(old(self)@.aggregate)
                        &&& are_shown(shown@, rows, c.scroll as int, room as int)
                        &&& are_hits(layout::framed(area), old(self)@.aggregate, final(self)@.col_hit)
                        &&& final(self)@ == (AppModel {
                            header_y: layout::framed(area).y,
                            col_hit: final(self)@.col_hit,
                            ..old(self)@
                        })
                    },
                }
            }),
    {
        let rows = self.sorted_rows();
        assert(rows::row_models(rows@).len() == rows@.len());
        let room: usize = if area.height > 3 {
            (area.height - 3) as usize
        } else {
            1
        };
        let n: usize = rows.len();
        self.conns.clamp_scroll(n, room);
        let title = show_title(self, room, n);
        if !self.conns.available {
            return Panel {
                title,
                body: PanelBody::Message(" ss unavailable — install iproute2's `ss` ".to_string()),
            };
        }
        if n == 0 {
            let k: usize = self.filter.as_str().unicode_len();
            let hint = if k == 0 {
                " no active connections "
            } else {
                " no connections match the filter "
            };
            return Panel { title, body: PanelBody::Message(hint.to_string()) };
        }
        let header = show_header(self.aggregate, self.sort_key, self.sort_asc);
        let inner = within_borders(area);
        let hits = find_hits(inner, self.aggregate);
        self.header_y = inner.y;
        self.col_hit = hits;
        let shown = show_rows(&rows, self.conns.scroll, room);
        Panel {
            title,
            body: PanelBody::Table { header, widths: sizes_of(self.aggregate), rows: shown },
        }
    }
}

// ── Laws ─────────────────────────────────────────────────────────────────────

/// A process without a single known rate, such as one with UDP sockets only, is
/// listed without rates; any other shows the sums, even if they are zero.
pub proof fn law_unrated_process(
    row: AggModel,
    cs: Seq<ConnModel>,
    procs: Map<u32, conns::ProcModel>,
)
    requires
        conns::sums_up(row, cs, procs),
    ensures
        ({
            let shown = cells(RowModel::Agg(row));
            if forall|i: int| 0 <= i < cs.len() ==> !conns::is_rated(#[trigger] cs[i]) {
                shown[6] == "n/a"@ && shown[7] == "n/a"@
            } else {
                shown[6] == rate_text(conns::rx_total(cs)) && shown[7] == rate_text(
                    conns::tx_total(cs),
                )
            }
        }),
{
}

/// The places of the column titles follow each other from left to right, from the
/// edge of the box on, so that a click belongs to one column at most. Where all
/// columns find room, none is narrower than it wants to be.
pub proof fn law_titles_in_order(inner: Area, aggregate: bool, hits: Seq<(u16, u16, SortKey)>)
    requires
        are_hits(inner, aggregate, hits),
    ensures
        hits.len() == rows::columns(aggregate).len(),
        hits[0].0 == inner.x,
        forall|i: int| 0 <= i < hits.len() ==> (#[trigger] hits[i]).2 == rows::columns(aggregate)[i],
        forall|i: int| 0 <= i < hits.len() ==> (#[trigger] hits[i]).0 <= hits[i].1,
        forall|i: int, j: int|
            0 <= i && j == i + 1 && j < hits.len() ==> (#[trigger] hits[i]).1 == (
            #[trigger] hits[j]).0,
        layout::wanted(column_sizes(aggregate)) <= layout::end(inner, Axis::Horizontal) - inner.x
            ==> forall|i: int|
            0 <= i < hits.len() ==> (#[trigger] hits[i]).1 - hits[i].0 >= match column_sizes(
                aggregate,
            )[i] {
                Sizing::Length(k) => k,
                Sizing::Min(k) => k,
            },
{
    let parts = choose|parts: Seq<Area>| #[trigger]
        layout::is_split(inner, Axis::Horizontal, column_sizes(aggregate), parts) && hits
            == hits_of(parts, rows::columns(aggregate));
    assert forall|i: int| 0 <= i < hits.len() implies (#[trigger] hits[i]).1 == layout::end(
        parts[i],
        Axis::Horizontal,
    ) && hits[i].0 == parts[i].x && hits[i].1 - hits[i].0 == parts[i].width by {
        assert(layout::is_part(inner, Axis::Horizontal, parts[i]));
    }
    assert forall|i: int, j: int| 0 <= i && j == i + 1 && j < hits.len() implies (
    #[trigger] hits[i]).1 == (#[trigger] hits[j]).0 by {
        assert(layout::start(parts[j], Axis::Horizontal) == layout::end(
            parts[i],
            Axis::Horizontal,
        ));
    }
}

/// Where the columns of processes just do not find room, the name of the process
/// alone gives way, down to the width of the column next to it, and all others are
/// as wide as they want to be.
pub proof fn law_process_columns(inner: Area, hits: Seq<(u16, u16, SortKey)>)
    requires
        are_hits(inner, true, hits),
        116 <= layout::end(inner, Axis::Horizontal) - inner.x <= 124,
    ensures
        forall|i: int|
            0 <= i < 10 ==> (#[trigger] hits[i]).1 - hits[i].0 == (if i == 1 {
                layout::end(inner, Axis::Horizontal) - inner.x - 100
            } else {
                column_sizes(true)[i]->Length_0 as int
            }),
{
    let sizes = column_sizes(true);
    let axis = Axis::Horizontal;
    let room = layout::end(inner, axis) - inner.x;
    let parts = choose|parts: Seq<Area>| #[trigger]
        layout::is_split(inner, axis, sizes, parts) && hits == hits_of(parts, rows::columns(true));
    assert(layout::wanted(sizes) == 124) by {
        reveal_with_fuel(layout::fixed, 11);
        reveal_with_fuel(layout::least, 11);
    }
    assert(layout::is_even_split(inner, axis, sizes, parts));
    lemma_column_starts(inner, parts);
    law_titles_in_order(inner, true, hits);
    assert(layout::is_part(inner, axis, parts[9]));
    assert(hits[0].1 == hits[1].0 && hits[1].1 == hits[2].0 && hits[2].1 == hits[3].0);
    assert(hits[3].1 == hits[4].0 && hits[4].1 == hits[5].0 && hits[5].1 == hits[6].0);
    assert(hits[6].1 == hits[7].0 && hits[7].1 == hits[8].0 && hits[8].1 == hits[9].0);
}

/// Where the columns of processes begin when they just do not find room.
proof fn lemma_column_starts(inner: Area, parts: Seq<Area>)
    requires
        parts.len() == 10,
        layout::is_even_split(inner, Axis::Horizontal, column_sizes(true), parts),
        116 <= layout::end(inner, Axis::Horizontal) - inner.x <= 124,
    ensures
        ({
            let r = layout::end(inner, Axis::Horizontal) - 124;
            &&& parts[0].x == inner.x
            &&& parts[1].x == inner.x + 8
            &&& parts[2].x == r + 32
            &&& parts[3].x == r + 48
            &&& parts[4].x == r + 64
            &&& parts[5].x == r + 74
            &&& parts[6].x == r + 80
            &&& parts[7].x == r + 91
            &&& parts[8].x == r + 102
            &&& parts[9].x == r + 113
        }),
{
    let axis = Axis::Horizontal;
    let room = layout::end(inner, axis) - inner.x;
    let t = choose|t: Seq<int>| #[trigger]
        layout::is_best(room, column_sizes(true), t) && forall|i: int|
            0 <= i < parts.len() ==> layout::start(#[trigger] parts[i], axis) == layout::start(
                inner,
                axis,
            ) + layout::cell(layout::sum(t, i));
    lemma_second_yields(room, t);
    reveal_with_fuel(layout::sum, 11);
    assert(t[0] == layout::shares() * 8 && t[1] == layout::shares() * (room - 100));
    assert(layout::start(parts[0], axis) == inner.x + layout::cell(layout::sum(t, 0)));
    assert(layout::start(parts[1], axis) == inner.x + layout::cell(layout::sum(t, 1)));
    assert(layout::start(parts[2], axis) == inner.x + layout::cell(layout::sum(t, 2)));
    assert(layout::start(parts[3], axis) == inner.x + layout::cell(layout::sum(t, 3)));
    assert(layout::start(parts[4], axis) == inner.x + layout::cell(layout::sum(t, 4)));
    assert(layout::start(parts[5], axis) == inner.x + layout::cell(layout::sum(t, 5)));
    assert(layout::start(parts[6], axis) == inner.x + layout::cell(layout::sum(t, 6)));
    assert(layout::start(parts[7], axis) == inner.x + layout::cell(layout::sum(t, 7)));
    assert(layout::start(parts[8], axis) == inner.x + layout::cell(layout::sum(t, 8)));
    assert(layout::start(parts[9], axis) == inner.x + layout::cell(layout::sum(t, 9)));
}

/// The most even division of too little room among the columns of processes takes
/// from the second one only.
proof fn lemma_second_yields(room: int, t: Seq<int>)
    requires
        116 <= room <= 124,
        layout::is_best(room, column_sizes(true), t),
    ensures
        forall|i: int|
            0 <= i < 10 ==> #[trigger] t[i] == layout::shares() * (if i == 1 {
                room - 100
            } else {
                column_sizes(true)[i]->Length_0 as int
            }),
        layout::sum(t, 10) == layout::shares() * room,
{
    let sizes = column_sizes(true);
    let q = layout::shares();
    reveal_with_fuel(layout::fixed, 11);
    reveal_with_fuel(layout::least, 11);
    reveal_with_fuel(layout::sum, 11);
    reveal_with_fuel(layout::neighbour_gaps, 11);
    assert forall|i: int| 0 <= i < 10 implies 0 <= #[trigger] t[i] <= q * (
    sizes[i]->Length_0 as int) by {
        assert(layout::may_get(room, sizes, sizes[i], q, t[i]));
    }
    let other = Seq::new(
        10,
        |i: int|
            q * (if i == 1 {
                room - 100
            } else {
                sizes[i]->Length_0 as int
            }),
    );
    if room < 124 {
        assert(layout::fills(room, sizes, other));
        assert(layout::neighbour_gaps(t, 10) <= layout::neighbour_gaps(other, 10));
        assert(layout::neighbour_gaps(other, 10) == q * (2 * room - 209));
        assert(t[0] <= q * 8 && t[2] <= q * 16 && t[3] <= q * 16 && t[4] <= q * 10 && t[5] <= q * 6
            && t[6] <= q * 11 && t[7] <= q * 11 && t[8] <= q * 11 && t[9] <= q * 11);
        lemma_outer_gaps(t);
        assert(t[0] == q * 8 && t[2] == q * 16 && t[3] == q * 16 && t[4] == q * 10 && t[5] == q * 6
            && t[6] == q * 11 && t[7] == q * 11 && t[8] == q * 11 && t[9] == q * 11);
    } else {
        assert forall|i: int| 0 <= i < 10 implies #[trigger] t[i] == other[i] by {
            assert(layout::may_get(room, sizes, sizes[i], q, t[i]));
        }
    }
}

/// What ten neighbours differ by at least when the second stands out above the
/// first and third, and the sixth below the fourth and seventh.
proof fn lemma_outer_gaps(t: Seq<int>)
    ensures
        layout::neighbour_gaps(t, 10) >= (t[1] - t[0]) + (t[1] - t[2]) + (t[3] - t[5]) + (t[6]
            - t[5]),
{
    reveal_with_fuel(layout::neighbour_gaps, 11);
}

/// Where the columns of a connection begin, from the edge of the box on, when they
/// do not all find room: service and rates give way to each other, the widest first.
pub open spec fn narrow_start(room: int, i: int) -> int {
    let left = room - 56;
    if i < 6 {
        seq![0int, 14, 18, 31, 44, 56][i]
    } else if i == 6 {
        if left <= 21 {
            56 + (2 * left + 3) / 6
        } else {
            63
        }
    } else {
        if left <= 21 {
            56 + (4 * left + 3) / 6
        } else {
            63 + (left - 6) / 2
        }
    }
}

/// Where the columns of connections do not all find room, those of service and
/// rates give way, the widest first and then all alike, and all others are as wide
/// as they want to be.
pub proof fn law_connection_columns(inner: Area, hits: Seq<(u16, u16, SortKey)>)
    requires
        are_hits(inner, false, hits),
        56 <= layout::end(inner, Axis::Horizontal) - inner.x <= 80,
    ensures
        forall|i: int|
            0 <= i < 8 ==> (#[trigger] hits[i]).0 == inner.x + narrow_start(
                layout::end(inner, Axis::Horizontal) - inner.x,
                i,
            ),
        hits[7].1 == layout::end(inner, Axis::Horizontal),
{
    let sizes = column_sizes(false);
    let axis = Axis::Horizontal;
    let room = layout::end(inner, axis) - inner.x;
    let parts = choose|parts: Seq<Area>| #[trigger]
        layout::is_split(inner, axis, sizes, parts) && hits == hits_of(parts, rows::columns(false));
    assert(layout::wanted(sizes) == 81) by {
        reveal_with_fuel(layout::fixed, 9);
        reveal_with_fuel(layout::least, 9);
    }
    assert(layout::is_even_split(inner, axis, sizes, parts));
    let t = choose|t: Seq<int>| #[trigger]
        layout::is_best(room, sizes, t) && forall|i: int|
            0 <= i < parts.len() ==> layout::start(#[trigger] parts[i], axis) == layout::start(
                inner,
                axis,
            ) + layout::cell(layout::sum(t, i));
    lemma_last_yield(room, t);
    assert forall|i: int| 0 <= i < 8 implies (#[trigger] hits[i]).0 == inner.x + narrow_start(
        room,
        i,
    ) by {
        assert(layout::start(parts[i], axis) == inner.x + layout::cell(layout::sum(t, i)));
    }
    assert(layout::is_part(inner, axis, parts[7]));
}

/// The cell nearest to `b` cells and `n` thirds.
proof fn lemma_thirds(b: int, n: int)
    ensures
        layout::cell(layout::shares() * b + 240240 * n) == b + (2 * n + 3) / 6,
{
    let d = (2 * n + 3) / 6;
    let r = (2 * n + 3) % 6;
    let x = 2 * (layout::shares() * b + 240240 * n) + layout::shares();
    assert(x == (b + d) * 1441440 + 240240 * r);
    lemma_fundamental_div_mod_converse(x, 1441440, b + d, 240240 * r);
}

/// The cell nearest to `b` cells and `n` halves.
proof fn lemma_halves(b: int, n: int)
    ensures
        layout::cell(layout::shares() * b + 360360 * n) == b + (n + 1) / 2,
{
    let d = (n + 1) / 2;
    let r = (n + 1) % 2;
    let x = 2 * (layout::shares() * b + 360360 * n) + layout::shares();
    assert(x == (b + d) * 1441440 + 720720 * r);
    lemma_fundamental_div_mod_converse(x, 1441440, b + d, 720720 * r);
}

/// The most even division of too little room among the columns of connections
/// takes from the last three only.
proof fn lemma_last_yield(room: int, t: Seq<int>)
    requires
        56 <= room <= 80,
        layout::is_best(room, column_sizes(false), t),
    ensures
        forall|i: int|
            0 <= i < 8 ==> layout::cell(#[trigger] layout::sum(t, i)) == narrow_start(room, i),
{
    let sizes = column_sizes(false);
    let q = layout::shares();
    let left = room - 56;
    reveal_with_fuel(layout::fixed, 9);
    reveal_with_fuel(layout::least, 9);
    reveal_with_fuel(layout::sum, 9);
    reveal_with_fuel(layout::neighbour_gaps, 9);
    assert forall|i: int| 0 <= i < 8 implies match sizes[i] {
        Sizing::Length(k) => 0 <= #[trigger] t[i] <= q * k,
        Sizing::Min(k) => t[i] == q * k,
    } by {
        assert(layout::may_get(room, sizes, sizes[i], q, t[i]));
    }
    let tail = if left <= 21 {
        (240240 * left, 240240 * left)
    } else {
        (q * 7, 360360 * (left - 7))
    };
    let other = seq![q * 14, q * 4, q * 13, q * 13, q * 12, tail.0, tail.1, tail.1];
    assert(layout::fills(room, sizes, other));
    assert(layout::neighbour_gaps(t, 8) <= layout::neighbour_gaps(other, 8));
    assert(t[0] == q * 14 && t[2] == q * 13 && t[3] == q * 13 && t[4] == q * 12);
    assert(0 <= t[1] <= q * 4 && 0 <= t[5] <= q * 7 && 0 <= t[6] <= q * 9 && 0 <= t[7] <= q * 9);
    assert(t[1] == q * 4);
    assert(t[5] == tail.0 && t[6] == tail.1 && t[7] == tail.1);
    assert(layout::sum(t, 1) == q * 14);
    assert(layout::sum(t, 2) == q * 18);
    assert(layout::sum(t, 3) == q * 31);
    assert(layout::sum(t, 4) == q * 44);
    assert(layout::sum(t, 5) == q * 56);
    assert(layout::sum(t, 6) == q * 56 + tail.0);
    assert(layout::sum(t, 7) == q * 56 + tail.0 + tail.1);
    if left <= 21 {
        lemma_thirds(56, left);
        lemma_thirds(56, 2 * left);
        assert(layout::sum(t, 7) == q * 56 + 240240 * (2 * left));
    } else {
        lemma_halves(63, left - 7);
        assert(layout::sum(t, 6) == q * 63);
        assert(layout::sum(t, 7) == q * 63 + 360360 * (left - 7));
    }
    assert(layout::cell(layout::sum(t, 6)) == narrow_start(room, 6));
    assert(layout::cell(layout::sum(t, 7)) == narrow_start(room, 7));
    assert forall|i: int| 0 <= i < 8 implies layout::cell(#[trigger] layout::sum(t, i))
        == narrow_start(room, i) by {
        assert(i == 0 || i == 1 || i == 2 || i == 3 || i == 4 || i == 5 || i == 6 || i == 7);
    }
}

} // verus!
