//! The top section: title, the curves with their labels, and the footer.

use vstd::arithmetic::div_mod::*;
use vstd::prelude::*;
use vstd::string::*;

use crate::axis;
use crate::axis::{axis_labels, current_label, AxisLabel};
use crate::double;
use crate::double::Double;
use crate::history;
use crate::history::{sparkline_max, sparkline_max_f, MAX_HISTORY};
use crate::layout;
use crate::layout::{split, within_borders, Area, Axis, Sizing};
use crate::procfs;
use crate::procfs::plus_wrapping;
use crate::show;
use crate::show::{format_speed, one_decimal};
use crate::state::{App, AppModel, TICK_MS};
use crate::text;
use crate::text::push_decimal;
use crate::wave;
use crate::wave::{draw_waveform, draw_waveform_f};

verus! {

/// How many curves there are.
pub const METRICS: usize = 6;

// ── Areas ────────────────────────────────────────────────────────────────────

/// Where the parts of the screen go.
pub struct Screen {
    /// The top section, unless the connections fill the screen.
    pub top: Option<Area>,
    /// The connections.
    pub panel: Area,
}

/// The rows of the screen: the top section and the connections.
pub open spec fn screen_sizes() -> Seq<Sizing> {
    seq![Sizing::Length(31), Sizing::Min(5)]
}

/// How many rows an area has on the screen.
pub open spec fn screen_rows(a: Area) -> u16 {
    (layout::end(a, Axis::Vertical) - layout::start(a, Axis::Vertical)) as u16
}

/// How many of so many rows the connections get: all but those of the top
/// section, but at least five, and all where there are fewer.
pub open spec fn rows_for_panel(rows: u16) -> u16 {
    if rows >= 36 {
        (rows - 31) as u16
    } else {
        layout::lower_of(5, rows)
    }
}

/// Whether the top section and the connections divide `a`: the connections get
/// their rows at the bottom, and the top section all others.
pub open spec fn shares_screen(a: Area, top: Area, panel: Area) -> bool {
    let rows = screen_rows(a);
    let high = (rows - rows_for_panel(rows)) as u16;
    &&& top == layout::part(a, Axis::Vertical, a.y, high)
    &&& panel == layout::part(a, Axis::Vertical, (a.y + high) as u16, rows_for_panel(rows))
}

/// Where the parts of the screen go, within a margin of one cell.
pub fn screen_layout(area: Area, focus_conns: bool) -> (r: Screen)
    ensures
        r.top is None <==> focus_conns,
        match r.top {
            Some(top) => layout::is_split(
                layout::inset(area, 1),
                Axis::Vertical,
                screen_sizes(),
                seq![top, r.panel],
            ) && shares_screen(layout::inset(area, 1), top, r.panel),
            None => layout::is_split(
                layout::inset(area, 1),
                Axis::Vertical,
                seq![Sizing::Min(0)],
                seq![r.panel],
            ) && r.panel == layout::part(
                layout::inset(area, 1),
                Axis::Vertical,
                layout::inset(area, 1).y,
                screen_rows(layout::inset(area, 1)),
            ),
        },
{
    if focus_conns {
        let sizes = vec![Sizing::Min(0)];
        proof {
            layout::lemma_growing(sizes@, 1);
            reveal_with_fuel(layout::growing, 2);
            reveal_with_fuel(layout::fixed, 2);
            reveal_with_fuel(layout::least, 2);
        }
        let parts = split(area, Axis::Vertical, 1, &sizes);
        assert(sizes@ =~= seq![Sizing::Min(0)]);
        assert(parts@ =~= seq![parts@[0]]);
        Screen { top: None, panel: parts[0] }
    } else {
        let sizes = vec![Sizing::Length(31), Sizing::Min(5)];
        proof {
            layout::lemma_growing(sizes@, 2);
            reveal_with_fuel(layout::growing, 3);
            reveal_with_fuel(layout::fixed, 3);
            reveal_with_fuel(layout::least, 3);
        }
        let parts = split(area, Axis::Vertical, 1, &sizes);
        assert(sizes@ =~= screen_sizes());
        assert(parts@ =~= seq![parts@[0], parts@[1]]);
        Screen { top: Some(parts[0]), panel: parts[1] }
    }
}

/// The areas of a curve.
pub struct MetricAreas {
    /// Its label.
    pub label: Area,
    /// The line between label and curve.
    pub divider: Area,
    /// The curve.
    pub chart: Area,
}

/// The areas of the top section.
pub struct TopLayout {
    /// The title.
    pub title: Area,
    /// The box with the curves.
    pub stats: Area,
    /// The footer.
    pub footer: Area,
    /// The area within the box.
    pub inner: Area,
    /// Its rows: curves with lines between them, the axis, and its labels.
    pub rows: Vec<Area>,
    /// The areas of the curves.
    pub metrics: Vec<MetricAreas>,
}

/// The rows of the top section: title, box and footer.
pub open spec fn top_sizes() -> Seq<Sizing> {
    seq![Sizing::Length(3), Sizing::Length(27), Sizing::Length(1)]
}

/// The height of every curve: what the lines, the axis and its labels leave,
/// shared out evenly, and at least one row.
pub open spec fn metric_height(inner_height: u16) -> u16 {
    let left = if inner_height > 7 {
        (inner_height - 7) / 6
    } else {
        0
    };
    if left > 1 {
        left as u16
    } else {
        1
    }
}

/// The rows within the box.
pub open spec fn row_sizes(h: u16) -> Seq<Sizing> {
    Seq::new(
        13,
        |i: int|
            if i % 2 == 0 && i < 12 {
                Sizing::Length(h)
            } else {
                Sizing::Length(1)
            },
    )
}

/// Label, line and curve, from left to right.
pub open spec fn metric_sizes() -> Seq<Sizing> {
    seq![Sizing::Length(20), Sizing::Length(1), Sizing::Min(20)]
}

/// Whether the areas are those of the top section in `area`.
pub open spec fn is_top_layout(area: Area, l: TopLayout) -> bool {
    &&& layout::is_split(area, Axis::Vertical, top_sizes(), seq![l.title, l.stats, l.footer])
    &&& l.inner == layout::framed(l.stats)
    &&& layout::is_split(l.inner, Axis::Vertical, row_sizes(metric_height(l.inner.height)), l.rows@)
    &&& l.metrics@.len() == METRICS
    &&& forall|i: int|
        0 <= i < METRICS ==> layout::is_split(
            l.rows@[2 * i],
            Axis::Horizontal,
            metric_sizes(),
            seq![(#[trigger] l.metrics@[i]).label, l.metrics@[i].divider, l.metrics@[i].chart],
        )
}

/// The areas of the top section.
pub fn top_layout(area: Area) -> (r: TopLayout)
    ensures
        is_top_layout(area, r),
{
    let sizes = vec![Sizing::Length(3), Sizing::Length(27), Sizing::Length(1)];
    proof {
        layout::lemma_growing(sizes@, 3);
    }
    let parts = split(area, Axis::Vertical, 0, &sizes);
    assert(layout::inset(area, 0) == area);
    assert(sizes@ =~= top_sizes());
    assert(parts@ =~= seq![parts@[0], parts@[1], parts@[2]]);
    let stats = parts[1];
    let inner = within_borders(stats);
    let left: u16 = if inner.height > 7 {
        (inner.height - 7) / 6
    } else {
        0
    };
    let h: u16 = if left > 1 {
        left
    } else {
        1
    };
    let mut rs: Vec<Sizing> = Vec::new();
    let mut i: usize = 0;
    while i < 13
        invariant
            i <= 13,
            rs@ == row_sizes(h).take(i as int),
        decreases 13 - i,
    {
        if i % 2 == 0 && i < 12 {
            rs.push(Sizing::Length(h));
        } else {
            rs.push(Sizing::Length(1));
        }
        i += 1;
        assert(rs@ =~= row_sizes(h).take(i as int));
    }
    assert(row_sizes(h).take(13) =~= row_sizes(h));
    proof {
        layout::lemma_growing(rs@, 13);
    }
    let rows = split(inner, Axis::Vertical, 0, &rs);
    assert(layout::inset(inner, 0) == inner);
    let ms = vec![Sizing::Length(20), Sizing::Length(1), Sizing::Min(20)];
    assert(ms@ =~= metric_sizes());
    proof {
        layout::lemma_growing(ms@, 3);
    }
    let mut metrics: Vec<MetricAreas> = Vec::new();
    let mut k: usize = 0;
    while k < METRICS
        invariant
            k <= METRICS,
            rows@.len() == 13,
            ms@ == metric_sizes(),
            layout::in_scope(ms@),
            metrics@.len() == k,
            forall|i: int|
                0 <= i < k ==> layout::is_split(
                    rows@[2 * i],
                    Axis::Horizontal,
                    metric_sizes(),
                    seq![
                        (#[trigger] metrics@[i]).label,
                        metrics@[i].divider,
                        metrics@[i].chart,
                    ],
                ),
        decreases METRICS - k,
    {
        let row = rows[2 * k];
        let p = split(row, Axis::Horizontal, 0, &ms);
        assert(layout::inset(row, 0) == row);
        assert(p@ =~= seq![p@[0], p@[1], p@[2]]);
        metrics.push(MetricAreas { label: p[0], divider: p[1], chart: p[2] });
        k += 1;
    }
    TopLayout { title: parts[0], stats, footer: parts[2], inner, rows, metrics }
}

// ── The grid ─────────────────────────────────────────────────────────────────

/// Whether a horizontal line of the grid lies in row `y`: those between the
/// curves, and the axis.
pub open spec fn is_line(l: TopLayout, y: u16) -> bool {
    ||| l.rows@[1].y == y
    ||| l.rows@[3].y == y
    ||| l.rows@[5].y == y
    ||| l.rows@[7].y == y
    ||| l.rows@[9].y == y
    ||| l.rows@[11].y == y
}

/// The line of the grid in a cell: a vertical one beside the labels, horizontal
/// ones between the curves and at the axis, and crosses where they meet.
pub open spec fn grid_symbol(l: TopLayout, x: u16, y: u16) -> Option<char> {
    let down = x == l.metrics@[0].divider.x;
    if is_line(l, y) && down {
        Some('┼')
    } else if is_line(l, y) && l.inner.x <= x < l.inner.x + l.inner.width {
        Some('─')
    } else if down && l.inner.y <= y < l.inner.y + l.inner.height {
        Some('│')
    } else {
        None
    }
}

impl TopLayout {
    /// The line of the grid in a cell.
    pub fn grid_at(&self, x: u16, y: u16) -> (r: Option<char>)
        requires
            self.rows@.len() == 13,
            self.metrics@.len() == METRICS,
        ensures
            r == grid_symbol(*self, x, y),
    {
        let rows = &self.rows;
        let across = rows[1].y == y || rows[3].y == y || rows[5].y == y || rows[7].y == y || rows[9].y
            == y || rows[11].y == y;
        let down = x == self.metrics[0].divider.x;
        if across && down {
            Some('┼')
        } else if across && x >= self.inner.x && x - self.inner.x < self.inner.width {
            Some('─')
        } else if down && y >= self.inner.y && y - self.inner.y < self.inner.height {
            Some('│')
        } else {
            None
        }
    }
}

// ── Texts ────────────────────────────────────────────────────────────────────

/// The newest number of a history, zero for an empty one.
pub open spec fn newest(s: Seq<nat>) -> nat {
    if s.len() > 0 {
        s.last()
    } else {
        0
    }
}

/// The labels of the curves.
pub open spec fn metric_texts(m: AppModel) -> Seq<Seq<char>> {
    seq![
        "▼ DL "@ + show::speed_text(m.current_rx),
        "▲ UL "@ + show::speed_text(m.current_tx),
        ("▌ CPU "@ + show::number_text(newest(m.sys_cpu_history))).push('%'),
        ("▌ MEM "@ + show::number_text(newest(m.sys_mem_history))).push('%'),
        "▌ DISK R "@ + show::speed_text(double::num_floor(newest(m.sys_disk_read_history)) as u64),
        "▌ DISK W "@ + show::speed_text(double::num_floor(newest(m.sys_disk_write_history)) as u64),
    ]
}

/// The title of the box, with the hours that a full history spans.
pub open spec fn box_text() -> Seq<char> {
    " ▼ DL / ▲ UL / CPU / MEM / DISK R / DISK W History ("@ + text::decimal(
        (MAX_HISTORY * TICK_MS / 3_600_000) as nat,
    ) + "h) "@
}

/// Which interface is active.
pub open spec fn interface_text(m: AppModel) -> Seq<char> {
    "interface: "@ + m.iface
}

/// Its position among all interfaces, counted from one.
pub open spec fn position_text(m: AppModel) -> Seq<char> {
    "iface "@ + text::decimal(procfs::wrap_add(m.iface_idx as u64, 1) as nat) + seq!['/'] + text::decimal(
        m.ifaces.len(),
    )
}

/// The footer: the peak, how many samples there are, and whether the busiest
/// interface is followed.
pub open spec fn footer_texts(m: AppModel) -> Seq<Seq<char>> {
    seq![
        "Session peak: "@ + show::speed_text(m.peak_speed),
        "Samples: "@ + text::decimal(m.rx_history.len()),
        "auto: "@ + (if m.auto_iface {
            "on"@
        } else {
            "off"@
        }),
    ]
}

fn newest_of(h: &std::collections::VecDeque<Double>) -> (r: Double)
    ensures
        r@ == newest(history::nums(h@)),
{
    let n: usize = h.len();
    if n > 0 {
        h[n - 1]
    } else {
        Double::zero()
    }
}

fn with_speed(front: &str, speed: u64) -> (r: String)
    ensures
        r@ == front@ + show::speed_text(speed),
{
    let mut r = front.to_string();
    let s = format_speed(speed);
    r.append(s.as_str());
    r
}

fn with_percent(front: &str, d: Double) -> (r: String)
    ensures
        r@ == (front@ + show::number_text(d@)).push('%'),
{
    let mut r = front.to_string();
    let s = one_decimal(d);
    r.append(s.as_str());
    r.push('%');
    r
}

/// What the top section shows.
pub struct TopView {
    /// The areas.
    pub layout: TopLayout,
    /// Which interface is active.
    pub interface: String,
    /// Its position among all interfaces.
    pub position: String,
    /// The title of the box.
    pub box_title: String,
    /// The labels of the curves.
    pub labels: Vec<String>,
    /// The curves as rows of characters.
    pub curves: Vec<Vec<Vec<char>>>,
    /// The labels of the axis.
    pub axis: Vec<AxisLabel>,
    /// The label of the current time.
    pub now: Option<AxisLabel>,
    /// The parts of the footer.
    pub footer: Vec<String>,
}

/// Whether all numbers are finite.
pub open spec fn all_finite(s: Seq<nat>) -> bool {
    forall|i: int| 0 <= i < s.len() ==> #[trigger] s[i] < double::infinity()
}

/// Whether `curves` are the curves of the histories in the areas `l`. The speeds
/// and the disk rates have their own scales; the percentages reach to a hundred.
pub open spec fn are_curves(m: AppModel, l: TopLayout, curves: Seq<Vec<Vec<char>>>) -> bool {
    let a = |i: int| l.metrics@[i].chart;
    &&& curves.len() == METRICS
    &&& wave::is_waveform(
        curves[0]@,
        wave::count_shares(m.rx_history, history::scale(m.rx_history)),
        history::scale(m.rx_history) > 0,
        a(0).width,
        a(0).height,
    )
    &&& wave::is_waveform(
        curves[1]@,
        wave::count_shares(m.tx_history, history::scale(m.tx_history)),
        history::scale(m.tx_history) > 0,
        a(1).width,
        a(1).height,
    )
    &&& wave::is_waveform(
        curves[2]@,
        wave::num_shares(m.sys_cpu_history, procfs::hundred()),
        true,
        a(2).width,
        a(2).height,
    )
    &&& wave::is_waveform(
        curves[3]@,
        wave::num_shares(m.sys_mem_history, procfs::hundred()),
        true,
        a(3).width,
        a(3).height,
    )
    &&& wave::is_waveform(
        curves[4]@,
        wave::num_shares(m.sys_disk_read_history, history::scale_num(m.sys_disk_read_history)),
        true,
        a(4).width,
        a(4).height,
    )
    &&& wave::is_waveform(
        curves[5]@,
        wave::num_shares(m.sys_disk_write_history, history::scale_num(m.sys_disk_write_history)),
        true,
        a(5).width,
        a(5).height,
    )
}

impl App {
    fn metric_labels(&self) -> (r: Vec<String>)
        ensures
            text::strings(r@) == metric_texts(self@),
    {
        let r = vec![
            with_speed("▼ DL ", self.current_rx),
            with_speed("▲ UL ", self.current_tx),
            with_percent("▌ CPU ", newest_of(&self.sys_cpu_history)),
            with_percent("▌ MEM ", newest_of(&self.sys_mem_history)),
            with_speed("▌ DISK R ", newest_of(&self.sys_disk_read_history).floor()),
            with_speed("▌ DISK W ", newest_of(&self.sys_disk_write_history).floor()),
        ];
        assert(text::strings(r@) =~= metric_texts(self@));
        r
    }

    fn footer_parts(&self) -> (r: Vec<String>)
        ensures
            text::strings(r@) == footer_texts(self@),
    {
        let mut samples = "Samples: ".to_string();
        push_decimal(&mut samples, self.rx_history.len() as u64);
        let mut auto = "auto: ".to_string();
        auto.append(
            if self.auto_iface {
                "on"
            } else {
                "off"
            },
        );
        let r = vec![with_speed("Session peak: ", self.peak_speed), samples, auto];
        assert(text::strings(r@) =~= footer_texts(self@));
        r
    }

    fn curves(&self, l: &TopLayout) -> (r: Vec<Vec<Vec<char>>>)
        requires
            l.metrics@.len() == METRICS,
            all_finite(self@.sys_cpu_history),
            all_finite(self@.sys_mem_history),
            all_finite(self@.sys_disk_read_history),
            all_finite(self@.sys_disk_write_history),
        ensures
            are_curves(self@, *l, r@),
    {
        let m = &l.metrics;
        let top = Double::from_u64(100);
        proof {
            double::lemma_num_of_range(100);
            lemma_finite(self.sys_cpu_history@);
            lemma_finite(self.sys_mem_history@);
            lemma_finite(self.sys_disk_read_history@);
            lemma_finite(self.sys_disk_write_history@);
        }
        let a0 = m[0].chart;
        let rx = draw_waveform(
            a0.width,
            a0.height,
            &self.rx_history,
            sparkline_max(&self.rx_history),
        );
        let a1 = m[1].chart;
        let tx = draw_waveform(
            a1.width,
            a1.height,
            &self.tx_history,
            sparkline_max(&self.tx_history),
        );
        let a2 = m[2].chart;
        let cpu = draw_waveform_f(a2.width, a2.height, &self.sys_cpu_history, top);
        let a3 = m[3].chart;
        let mem = draw_waveform_f(a3.width, a3.height, &self.sys_mem_history, top);
        let a4 = m[4].chart;
        let rd = draw_waveform_f(
            a4.width,
            a4.height,
            &self.sys_disk_read_history,
            sparkline_max_f(&self.sys_disk_read_history),
        );
        let a5 = m[5].chart;
        let wr = draw_waveform_f(
            a5.width,
            a5.height,
            &self.sys_disk_write_history,
            sparkline_max_f(&self.sys_disk_write_history),
        );
        vec![rx, tx, cpu, mem, rd, wr]
    }

    /// What the top section shows in `area` at the time `now_secs`, in seconds
    /// since the UNIX epoch.
    pub fn top_view(&self, area: Area, now_secs: u64) -> (r: TopView)
        requires
            all_finite(self@.sys_cpu_history),
            all_finite(self@.sys_mem_history),
            all_finite(self@.sys_disk_read_history),
            all_finite(self@.sys_disk_write_history),
            area.x + area.width <= u16::MAX,
        ensures
            is_top_layout(area, r.layout),
            r.interface@ == interface_text(self@),
            r.position@ == position_text(self@),
            r.box_title@ == box_text(),
            text::strings(r.labels@) == metric_texts(self@),
            are_curves(self@, r.layout, r.curves@),
            axis::labels(r.axis@) == (if self@.rx_history.len() >= 2 {
                axis::labels_before(
                    r.layout.metrics@[0].chart,
                    r.layout.inner,
                    self@.rx_history.len() as int,
                    now_secs,
                    288,
                )
            } else {
                Seq::empty()
            }),
            match r.now {
                Some(l) => self@.rx_history.len() >= 2 && axis::now_label(r.layout.inner, now_secs)
                    == Some(l@),
                None => self@.rx_history.len() < 2 || axis::now_label(r.layout.inner, now_secs) is None,
            },
            text::strings(r.footer@) == footer_texts(self@),
    {
        let layout = top_layout(area);
        let mut interface = "interface: ".to_string();
        interface.append(self.iface.as_str());
        let mut position = "iface ".to_string();
        push_decimal(&mut position, plus_wrapping(self.iface_idx as u64, 1));
        position.push('/');
        push_decimal(&mut position, self.ifaces.len() as u64);
        assert(self@.ifaces.len() == self.ifaces@.len());
        assert(position@ =~= position_text(self@));
        let mut box_title = " ▼ DL / ▲ UL / CPU / MEM / DISK R / DISK W History (".to_string();
        push_decimal(&mut box_title, MAX_HISTORY as u64 * TICK_MS / 3_600_000);
        box_title.append("h) ");
        let n: usize = self.rx_history.len();
        proof {
            let first = layout.metrics@[0];
            let ps = seq![first.label, first.divider, first.chart];
            assert(layout::is_part(layout.rows@[0], Axis::Horizontal, ps[2]));
            let main = seq![layout.title, layout.stats, layout.footer];
            assert(layout::is_part(area, Axis::Vertical, main[1]));
        }
        let axis = axis_labels(layout.metrics[0].chart, layout.inner, n, now_secs);
        let now = if n >= 2 {
            current_label(layout.inner, now_secs)
        } else {
            None
        };
        let curves = self.curves(&layout);
        TopView {
            layout,
            interface,
            position,
            box_title,
            labels: self.metric_labels(),
            curves,
            axis,
            now,
            footer: self.footer_parts(),
        }
    }
}

proof fn lemma_finite(s: Seq<Double>)
    requires
        all_finite(history::nums(s)),
    ensures
        forall|i: int| 0 <= i < s.len() ==> (#[trigger] s[i])@ < double::infinity(),
{
    assert forall|i: int| 0 <= i < s.len() implies (#[trigger] s[i])@ < double::infinity() by {
        assert(history::nums(s)[i] == s[i]@);
    }
}

// ── Laws ─────────────────────────────────────────────────────────────────────

/// On a low screen the box with the curves gives way, while title and footer stay
/// whole, as long as the box is not lower than the title.
pub proof fn law_low_screen(area: Area, l: TopLayout)
    requires
        is_top_layout(area, l),
        7 <= screen_rows(area) <= 31,
    ensures
        l.title == layout::part(area, Axis::Vertical, area.y, 3),
        l.stats == layout::part(
            area,
            Axis::Vertical,
            (area.y + 3) as u16,
            (screen_rows(area) - 4) as u16,
        ),
        l.footer == layout::part(
            area,
            Axis::Vertical,
            (area.y + screen_rows(area) - 1) as u16,
            1,
        ),
{
    layout::lemma_middle_yields(
        area,
        Axis::Vertical,
        3,
        27,
        1,
        seq![l.title, l.stats, l.footer],
    );
}

/// In a narrow row the label gives way, while curve and line keep their width, as
/// long as the label is not narrower than the line.
pub proof fn law_narrow_row(area: Area, l: TopLayout, i: int)
    requires
        is_top_layout(area, l),
        0 <= i < METRICS,
        22 <= layout::end(l.rows@[2 * i], Axis::Horizontal) - l.rows@[2 * i].x <= 41,
    ensures
        ({
            let row = l.rows@[2 * i];
            let right = layout::end(row, Axis::Horizontal);
            let m = l.metrics@[i];
            &&& m.label == layout::part(row, Axis::Horizontal, row.x, (right - row.x - 21) as u16)
            &&& m.divider == layout::part(row, Axis::Horizontal, (right - 21) as u16, 1)
            &&& m.chart == layout::part(row, Axis::Horizontal, (right - 20) as u16, 20)
        }),
{
    let row = l.rows@[2 * i];
    let axis = Axis::Horizontal;
    let m = l.metrics@[i];
    let parts = seq![m.label, m.divider, m.chart];
    let sizes = metric_sizes();
    let room = layout::end(row, axis) - row.x;
    let q = layout::shares();
    assert(layout::is_split(row, axis, sizes, parts));
    reveal_with_fuel(layout::fixed, 4);
    reveal_with_fuel(layout::least, 4);
    reveal_with_fuel(layout::growing, 4);
    reveal_with_fuel(layout::sum, 4);
    reveal_with_fuel(layout::neighbour_gaps, 4);
    let t = choose|t: Seq<int>| #[trigger]
        layout::is_best(room, sizes, t) && forall|k: int|
            0 <= k < parts.len() ==> layout::start(#[trigger] parts[k], axis) == layout::start(
                row,
                axis,
            ) + layout::cell(layout::sum(t, k));
    assert(layout::is_best(room, sizes, t));
    assert(layout::may_get(room, sizes, sizes[0], q, t[0]));
    assert(layout::may_get(room, sizes, sizes[1], q, t[1]));
    assert(layout::may_get(room, sizes, sizes[2], q, t[2]));
    if room < 41 {
        let other = seq![q * (room - 21), q * 1, q * 20];
        assert(layout::fills(room, sizes, other));
        assert(layout::neighbour_gaps(t, 3) <= layout::neighbour_gaps(other, 3));
    }
    assert(t[1] == q && t[0] == q * (room - 21));
    assert(layout::start(parts[1], axis) == row.x + layout::cell(layout::sum(t, 1)));
    assert(layout::start(parts[2], axis) == row.x + layout::cell(layout::sum(t, 2)));
    assert(layout::is_part(row, axis, parts[0]) && layout::is_part(row, axis, parts[1])
        && layout::is_part(row, axis, parts[2]));
    assert(parts[0] == m.label && parts[1] == m.divider && parts[2] == m.chart);
}

/// In a box that is too low for one row each, the curves, the lines between them,
/// the axis and its labels share the rows evenly.
pub proof fn law_squeezed_rows(area: Area, l: TopLayout, i: int)
    requires
        is_top_layout(area, l),
        0 <= i < 13,
        screen_rows(l.inner) < 13,
        l.inner.height <= 18,
    ensures
        l.rows@[i].y == l.inner.y + (2 * (i * screen_rows(l.inner)) + 13) / 26,
{
    let axis = Axis::Vertical;
    let sizes = row_sizes(1);
    let room = layout::end(l.inner, axis) - l.inner.y;
    let parts = l.rows@;
    assert(metric_height(l.inner.height) == 1);
    lemma_ones(sizes, 13);
    assert(layout::is_even_split(l.inner, axis, sizes, parts));
    let t = choose|t: Seq<int>| #[trigger]
        layout::is_best(room, sizes, t) && forall|k: int|
            0 <= k < parts.len() ==> layout::start(#[trigger] parts[k], axis) == layout::start(
                l.inner,
                axis,
            ) + layout::cell(layout::sum(t, k));
    let other = Seq::new(13, |k: int| 55440 * room);
    lemma_equal(other, 55440 * room, 13);
    assert(55440 * room * 13 == layout::shares() * room);
    assert forall|k: int| 0 <= k < 13 implies layout::may_get(
        room,
        sizes,
        sizes[k],
        layout::shares(),
        #[trigger] other[k],
    ) by {}
    assert(layout::fills(room, sizes, other));
    lemma_no_gaps(t, 13);
    lemma_equal(t, t[0], 13);
    assert(t[0] == 55440 * room);
    lemma_equal(t, t[0], i);
    assert(layout::start(parts[i], axis) == l.inner.y + layout::cell(layout::sum(t, i)));
    let x = 2 * (55440 * room * i) + layout::shares();
    let y = 2 * (i * room) + 13;
    assert(x == 55440 * y) by (nonlinear_arith)
        requires
            x == 2 * (55440 * room * i) + 720720,
            y == 2 * (i * room) + 13,
    ;
    lemma_fundamental_div_mod(y, 26);
    lemma_fundamental_div_mod_converse(x, 1441440, y / 26, 55440 * (y % 26));
}

proof fn lemma_ones(sizes: Seq<Sizing>, n: int)
    requires
        0 <= n <= sizes.len(),
        forall|k: int| 0 <= k < n ==> #[trigger] sizes[k] == Sizing::Length(1),
    ensures
        layout::fixed(sizes, n) == n,
        layout::least(sizes, n) == 0,
    decreases n,
{
    if n > 0 {
        lemma_ones(sizes, n - 1);
    }
}

/// Equal numbers add up to a multiple and do not differ.
proof fn lemma_equal(t: Seq<int>, x: int, n: int)
    requires
        0 <= n <= t.len(),
        forall|k: int| 0 <= k < n ==> #[trigger] t[k] == x,
    ensures
        layout::sum(t, n) == x * n,
        layout::neighbour_gaps(t, n) == 0,
    decreases n,
{
    if n > 0 {
        lemma_equal(t, x, n - 1);
        assert(x * n == x * (n - 1) + x) by (nonlinear_arith);
    } else {
        assert(x * n == 0) by (nonlinear_arith)
            requires
                n == 0,
        ;
    }
}

/// Numbers that do not differ from their neighbours are equal.
proof fn lemma_no_gaps(t: Seq<int>, n: int)
    requires
        0 <= n <= t.len(),
        layout::neighbour_gaps(t, n) <= 0,
    ensures
        forall|k: int| 0 <= k < n ==> #[trigger] t[k] == t[0],
        layout::neighbour_gaps(t, n) == 0,
    decreases n,
{
    if n > 1 {
        lemma_gaps_nonneg(t, n - 1);
        lemma_no_gaps(t, n - 1);
    }
}

proof fn lemma_gaps_nonneg(t: Seq<int>, n: int)
    ensures
        layout::neighbour_gaps(t, n) >= 0,
    decreases n,
{
    if n > 1 {
        lemma_gaps_nonneg(t, n - 1);
    }
}

} // verus!
