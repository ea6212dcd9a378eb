//! What is drawn: curves, the time axis and the boxes around them.

use vstd::arithmetic::div_mod::*;
use vstd::arithmetic::power2::*;
use vstd::prelude::*;

use crate::axis;
use crate::double;
use crate::double::SIG;
use crate::history;
use crate::layout;
use crate::layout::Area;
use crate::measuring;
use crate::rounding;
use crate::show;
use crate::state::AppModel;
use crate::text;
use crate::top;
use crate::top::TopLayout;
use crate::wave;

verus! {

// ── Curves ───────────────────────────────────────────────────────────────────

/// A value as a share of its scale: nothing is nothing, the whole scale and anything
/// above it is one, and a larger value is no smaller share.
pub proof fn law_share_of_scale(a: nat, b: nat, max: nat)
    requires
        a <= b < double::infinity(),
        0 < max < double::infinity(),
    ensures
        wave::share(0, max) == 0,
        wave::share(a, max) <= wave::share(b, max) <= double::one(),
        b >= max ==> wave::share(b, max) == double::one(),
        b <= max ==> wave::share(b, max) == double::nearest(b * double::one(), max),
{
    let o = double::one();
    lemma_pow2_pos(1074);
    rounding::lemma_whole_exact(1, 1);
    rounding::lemma_whole_exact(1, max);
    assert(1 * o == o) by (nonlinear_arith);
    assert((1 * o) * max == max * o) by (nonlinear_arith);
    assert(a * o <= b * o) by (nonlinear_arith)
        requires
            a <= b,
    ;
    rounding::lemma_nearest_monotone(a * o, b * o, max);
    assert(0nat * o == 0) by (nonlinear_arith);
    double::lemma_nearest_zero(max);
    if b >= max {
        assert(max * o <= b * o) by (nonlinear_arith)
            requires
                max <= b,
        ;
        rounding::lemma_nearest_monotone(max * o, b * o, max);
    }
    if b <= max {
        assert(b * o <= max * o) by (nonlinear_arith)
            requires
                b <= max,
        ;
        rounding::lemma_nearest_monotone(b * o, max * o, max);
    }
}

/// The curve is smoothed by the mean of a sample and its neighbours; at an end the
/// sample stands for the neighbour that is missing. A flat curve stays as it is.
pub proof fn law_smoothing(data: Seq<nat>, i: int, v: nat, m: nat, k: nat)
    requires
        0 <= i < data.len(),
    ensures
        ({
            let before = if i == 0 {
                data[0]
            } else {
                data[i - 1]
            };
            let after = if i == data.len() - 1 {
                data[i]
            } else {
                data[i + 1]
            };
            wave::smooth(data, i) == double::num_div(
                double::num_add(double::num_add(before, data[i]), after),
                double::num_of(3),
            )
        }),
        data[i] == v && (i > 0 ==> data[i - 1] == v) && (i + 1 < data.len() ==> data[i + 1] == v)
            && v == m * pow2(k) && 3 * m < SIG && 3 * v < double::infinity() ==> wave::smooth(
            data,
            i,
        ) == v,
{
    if data[i] == v && (i > 0 ==> data[i - 1] == v) && (i + 1 < data.len() ==> data[i + 1] == v) && v
        == m * pow2(k) && 3 * m < SIG && 3 * v < double::infinity() {
        let o = double::one();
        lemma_pow2_pos(1074);
        assert((2 * m) * pow2(k) == 2 * v) by (nonlinear_arith)
            requires
                v == m * pow2(k),
        ;
        assert((3 * m) * pow2(k) == 3 * v) by (nonlinear_arith)
            requires
                v == m * pow2(k),
        ;
        rounding::lemma_nearest_exact(2 * m, k, 1);
        rounding::lemma_nearest_exact(3 * m, k, 1);
        assert(double::num_add(v, v) == 2 * v);
        assert(double::num_add(2 * v, v) == 3 * v);
        rounding::lemma_whole_exact(3, 1);
        rounding::lemma_nearest_exact(m, k, 3 * o);
        assert((m * pow2(k)) * (3 * o) == (3 * v) * o) by (nonlinear_arith)
            requires
                v == m * pow2(k),
        ;
    }
}

/// The samples are spread evenly over the columns: a column is at the same part of the
/// width as its place is among the samples.
pub proof fn law_spread(n: int, xres: int, dx: int)
    requires
        2 <= n <= 172_800,
        2 <= xres <= 0x20000,
        0 <= dx < xres,
    ensures
        wave::sample_at(n, xres, dx) == double::nearest(
            (dx * (n - 1)) as nat * double::one(),
            (xres - 1) as nat,
        ),
{
    let o = double::one();
    let d = dx as nat;
    let s = (n - 1) as nat;
    let x = (xres - 1) as nat;
    lemma_pow2_pos(1074);
    assert(d * s <= 0x20000 * 172_800) by (nonlinear_arith)
        requires
            d <= 0x20000,
            s <= 172_800,
    ;
    rounding::lemma_whole_exact(d, 1);
    rounding::lemma_whole_exact(s, 1);
    rounding::lemma_whole_exact(x, 1);
    rounding::lemma_whole_exact(d * s, o);
    assert((d * o) * (s * o) == ((d * s) * o) * o) by (nonlinear_arith);
    assert(double::num_mul(double::num_of(d), double::num_of(s)) == (d * s) * o);
    measuring::law_quotient_has_no_unit((d * s) * o, x, o);
    assert(wave::span(n) == n - 1);
}

/// A column shows one of the two samples around its place, the nearer one.
pub proof fn law_nearest_sample(n: int, xres: int, dx: int)
    requires
        2 <= n <= 172_800,
        2 <= xres <= 0x20000,
        0 <= dx < xres,
    ensures
        wave::shown_at(n, xres, dx) matches Some(i) ==> {
            let place = wave::sample_at(n, xres, dx);
            let low = double::num_floor(place) as int;
            let high = double::num_ceil(place) as int;
            &&& 0 <= i < n
            &&& i == low || i == high
            &&& i == low && high < n ==> wave::distance(n, xres, dx, low) <= wave::distance(
                n,
                xres,
                dx,
                high,
            )
            &&& i == high && low < n ==> wave::distance(n, xres, dx, high) <= wave::distance(
                n,
                xres,
                dx,
                low,
            )
        },
{
}

/// A point of the curve is as far from the bottom as its share of the height, to the
/// nearest row.
pub proof fn law_height_of_dot(val: nat, yres: int)
    requires
        val <= double::one(),
        0 < yres < 0x100000,
    ensures
        wave::height_of(val, yres) == double::num_round(
            double::nearest(
                double::nearest((double::one() - val) as nat, 1) * measuring::whole(
                    (yres - 1) as nat,
                ),
                double::one(),
            ),
        ),
{
    let o = double::one();
    lemma_pow2_pos(1074);
    rounding::lemma_whole_exact(1, 1);
    rounding::lemma_whole_exact((yres - 1) as nat, 1);
    assert(1 * o == o) by (nonlinear_arith);
    rounding::lemma_nearest_monotone((o - val) as nat, o, 1);
    assert((1 * o) * 1 == o) by (nonlinear_arith);
}

/// A sample is at the same part of the width as it is among the samples.
pub proof fn law_place_of_sample(n: int, xres: int, i: int, dx: int)
    requires
        2 <= n <= 172_800,
        2 <= xres <= 0x20000,
        0 <= i < n,
        0 <= dx < xres,
    ensures
        wave::place_of(n, xres, i) == double::nearest(
            (i * (xres - 1)) as nat * double::one(),
            (n - 1) as nat,
        ),
        ({
            let p = wave::place_of(n, xres, i);
            let d = measuring::whole(dx as nat);
            wave::distance(n, xres, dx, i) == double::nearest(
                if p >= d {
                    (p - d) as nat
                } else {
                    (d - p) as nat
                },
                1,
            )
        }),
{
    let o = double::one();
    let d = i as nat;
    let s = (xres - 1) as nat;
    let x = (n - 1) as nat;
    lemma_pow2_pos(1074);
    assert(d * s <= 0x20000 * 172_800) by (nonlinear_arith)
        requires
            d <= 172_800,
            s <= 0x20000,
    ;
    rounding::lemma_whole_exact(d, 1);
    rounding::lemma_whole_exact(s, 1);
    rounding::lemma_whole_exact(x, 1);
    rounding::lemma_whole_exact(dx as nat, 1);
    rounding::lemma_whole_exact(d * s, o);
    assert((d * o) * (s * o) == ((d * s) * o) * o) by (nonlinear_arith);
    assert(double::num_mul(double::num_of(d), double::num_of(s)) == (d * s) * o);
    measuring::law_quotient_has_no_unit((d * s) * o, x, o);
    assert(wave::span(n) == n - 1);
}

/// The next whole number at or above a number.
pub proof fn law_ceiling(a: nat)
    requires
        a / double::one() < u64::MAX,
    ensures
        a <= measuring::whole(double::num_ceil(a)),
        measuring::whole(double::num_ceil(a)) < a + double::one(),
{
    let o = double::one();
    lemma_pow2_pos(1074);
    let n = (a + o - 1) / o as int;
    lemma_fundamental_div_mod(a + o - 1, o as int);
    lemma_mod_bound(a + o - 1, o as int);
    lemma_fundamental_div_mod(a as int, o as int);
    lemma_mod_bound(a as int, o as int);
    assert(n * o == o * n) by (nonlinear_arith);
    let q = (a / o) as int;
    assert(n <= q + 1) by (nonlinear_arith)
        requires
            o * n <= a + o - 1,
            a < o * q + o,
            o > 0,
    ;
    assert(n >= 0) by (nonlinear_arith)
        requires
            a + o - 1 < o * n + o,
            a >= 0,
            o > 0,
    ;
}

/// The dots of a cell of two columns and four rows, from the top down on the left and
/// on the right.
pub open spec fn dot_bit(right: bool, row: int) -> u32 {
    if !right && row == 0 {
        0x01
    } else if !right && row == 1 {
        0x02
    } else if !right && row == 2 {
        0x04
    } else if !right {
        0x40
    } else if row == 0 {
        0x08
    } else if row == 1 {
        0x10
    } else if row == 2 {
        0x20
    } else {
        0x80
    }
}

/// What a column of dots adds to the cell in row `cy`.
pub open spec fn column_bits(dot: Option<int>, cy: int, right: bool) -> u32 {
    if dot is Some && 4 * cy <= dot->0 < 4 * cy + 4 {
        dot_bit(right, dot->0 - 4 * cy)
    } else {
        0
    }
}

/// A cell shows the dots of its two columns that fall into its four rows, as one
/// character with a place for each.
pub proof fn law_cell(data: Seq<nat>, width: int, height: int, cx: int, cy: int)
    requires
        0 <= cx,
        0 <= cy,
        forall|x: int|
            #![trigger wave::dot_at(data, 2 * width, 4 * height, x)]
            wave::dot_at(data, 2 * width, 4 * height, x) matches Some(y) ==> y >= 0,
    ensures
        wave::cell(data, width, height, cx, cy) == (0x2800 + column_bits(
            wave::dot_at(data, 2 * width, 4 * height, 2 * cx),
            cy,
            false,
        ) + column_bits(wave::dot_at(data, 2 * width, 4 * height, 2 * cx + 1), cy, true)) as char,
{
    let l = wave::dot_at(data, 2 * width, 4 * height, 2 * cx);
    let r = wave::dot_at(data, 2 * width, 4 * height, 2 * cx + 1);
    assert(wave::column_code(l, cy, false) == column_bits(l, cy, false)) by {
        if l is Some {
            lemma_fundamental_div_mod(l->0, 4);
        }
    }
    assert(wave::column_code(r, cy, true) == column_bits(r, cy, true)) by {
        if r is Some {
            lemma_fundamental_div_mod(r->0, 4);
        }
    }
}

/// A column shows the smoothed sample at its place, at the height of that.
pub proof fn law_dot(data: Seq<nat>, xres: int, yres: int, dx: int)
    ensures
        wave::dot_at(data, xres, yres, dx) is Some <==> wave::shown_at(
            data.len() as int,
            xres,
            dx,
        ) is Some,
        wave::dot_at(data, xres, yres, dx) is Some ==> wave::dot_at(data, xres, yres, dx)->0
            == wave::height_of(
            wave::smooth(data, wave::shown_at(data.len() as int, xres, dx)->0),
            yres,
        ),
{
}

/// A curve has as many rows and columns as its area; without an area, a history or a
/// scale there is none.
pub proof fn law_waveform(
    grid: Seq<Vec<char>>,
    data: Seq<nat>,
    scaled: bool,
    width: u16,
    height: u16,
    cy: int,
    cx: int,
)
    requires
        wave::is_waveform(grid, data, scaled, width, height),
    ensures
        width == 0 || height == 0 || data.len() == 0 || !scaled ==> grid.len() == 0,
        width > 0 && height > 0 && data.len() > 0 && scaled ==> {
            &&& grid.len() == height
            &&& 0 <= cy < height ==> grid[cy]@.len() == width
            &&& 0 <= cy < height && 0 <= cx < width ==> grid[cy]@[cx] == wave::cell(
                data,
                width as int,
                height as int,
                cx,
                cy,
            )
        },
{
}

/// Each curve shows its own history on its own scale: speeds and disk rates on one
/// that follows them, processor and memory on a hundred.
pub proof fn law_curves(m: AppModel, l: TopLayout, curves: Seq<Vec<Vec<char>>>)
    requires
        top::are_curves(m, l, curves),
    ensures
        curves.len() == 6,
        ({
            let a = l.metrics@[0].chart;
            wave::is_waveform(
                curves[0]@,
                wave::count_shares(m.rx_history, history::scale(m.rx_history)),
                history::scale(m.rx_history) > 0,
                a.width,
                a.height,
            )
        }),
        ({
            let a = l.metrics@[1].chart;
            wave::is_waveform(
                curves[1]@,
                wave::count_shares(m.tx_history, history::scale(m.tx_history)),
                history::scale(m.tx_history) > 0,
                a.width,
                a.height,
            )
        }),
        ({
            let a = l.metrics@[2].chart;
            wave::is_waveform(
                curves[2]@,
                wave::num_shares(m.sys_cpu_history, measuring::whole(100)),
                true,
                a.width,
                a.height,
            )
        }),
        ({
            let a = l.metrics@[3].chart;
            wave::is_waveform(
                curves[3]@,
                wave::num_shares(m.sys_mem_history, measuring::whole(100)),
                true,
                a.width,
                a.height,
            )
        }),
        ({
            let a = l.metrics@[4].chart;
            wave::is_waveform(
                curves[4]@,
                wave::num_shares(
                    m.sys_disk_read_history,
                    history::scale_num(m.sys_disk_read_history),
                ),
                true,
                a.width,
                a.height,
            )
        }),
        ({
            let a = l.metrics@[5].chart;
            wave::is_waveform(
                curves[5]@,
                wave::num_shares(
                    m.sys_disk_write_history,
                    history::scale_num(m.sys_disk_write_history),
                ),
                true,
                a.width,
                a.height,
            )
        }),
{
    rounding::lemma_whole_exact(100, 1);
}

/// The points of a curve are the shares of its samples, in order.
pub proof fn law_points(s: Seq<u64>, max: u64, t: Seq<nat>, top: nat, i: int)
    ensures
        wave::count_shares(s, max).len() == s.len(),
        0 <= i < s.len() ==> wave::count_shares(s, max)[i] == wave::share(
            double::num_of(s[i] as nat),
            double::num_of(max as nat),
        ),
        wave::num_shares(t, top).len() == t.len(),
        0 <= i < t.len() ==> wave::num_shares(t, top)[i] == wave::share(t[i], top),
{
}

// ── Time axis ────────────────────────────────────────────────────────────────

/// A history of `2 * k + 1` samples, taken every half second, goes back `k` seconds.
pub proof fn law_history_time(k: nat)
    requires
        1 <= k,
        k * 1000 < SIG,
    ensures
        axis::window_secs(2 * k as int + 1) == measuring::whole(k),
{
    let o = double::one();
    lemma_pow2_pos(1074);
    rounding::lemma_whole_exact(2 * k, 1);
    rounding::lemma_whole_exact(500, 1);
    rounding::lemma_whole_exact(1000, 1);
    rounding::lemma_whole_exact(1, 1);
    rounding::lemma_whole_exact(k * 1000, o);
    assert(((2 * k) * o) * (500 * o) == ((k * 1000) * o) * o) by (nonlinear_arith);
    assert(double::num_mul(double::num_of(2 * k), double::num_of(500)) == (k * 1000) * o);
    rounding::lemma_whole_exact(k, 1000 * o);
    assert((k * o) * (1000 * o) == ((k * 1000) * o) * o) by (nonlinear_arith);
    rounding::lemma_whole_exact(k * 1000, 1);
    assert(1 * o <= k * o) by (nonlinear_arith)
        requires
            k >= 1,
    ;
}

/// The axis goes from the oldest sample to now, and from the first column of the chart
/// to the last.
pub proof fn law_axis_ends(chart: Area, k: nat, now: u64)
    requires
        1 <= k,
        k * 1000 < SIG,
        k <= now,
        chart.width > 0,
    ensures
        axis::time_at(2 * k as int + 1, now, 288) == now,
        axis::time_at(2 * k as int + 1, now, 0) == now - k,
        axis::column_at(chart, 0) == chart.x,
        axis::column_at(chart, 288) == chart.x + chart.width - 1,
{
    let o = double::one();
    lemma_pow2_pos(1074);
    law_history_time(k);
    rounding::lemma_whole_exact(0, 1);
    rounding::lemma_whole_exact(1, 1);
    rounding::lemma_whole_exact(288, 1);
    rounding::lemma_whole_exact(1, 288 * o);
    assert((1 * o) * (288 * o) == (288 * o) * o) by (nonlinear_arith);
    assert(1 * o == o) by (nonlinear_arith);
    assert(0nat * o == 0) by (nonlinear_arith);
    double::lemma_nearest_zero(288 * o);
    double::lemma_nearest_zero(1);
    double::lemma_nearest_zero(o);
    assert(axis::fraction(288) == o);
    assert(axis::fraction(0) == 0);
    assert((o * 1) * 1 == o) by (nonlinear_arith);
    rounding::lemma_whole_exact(k, 1);
    rounding::lemma_whole_exact(k, o);
    assert((k * o) * o == o * (k * o)) by (nonlinear_arith);
    lemma_div_by_multiple(k as int, o as int);
    lemma_basic_div(0, o as int);
    assert(0nat * (k * o) == 0) by (nonlinear_arith);
    assert(double::num_mul(double::num_diff(o, 0), k * o) == k * o);
    lemma_small_mod(now as nat, 0x1_0000_0000_0000_0000);
    lemma_small_mod((now - k) as nat, 0x1_0000_0000_0000_0000);
    let w = (2 * chart.width - 1) as nat;
    rounding::lemma_whole_exact(w, 1);
    rounding::lemma_whole_exact(w, o);
    assert((w * o) * o == o * (w * o)) by (nonlinear_arith);
    assert(0nat * (w * o) == 0) by (nonlinear_arith);
    assert(2 * (w * o) + o == w * (2 * o) + o) by (nonlinear_arith);
    lemma_fundamental_div_mod_converse(
        (2 * (w * o) + o) as int,
        (2 * o) as int,
        w as int,
        o as int,
    );
    lemma_fundamental_div_mod_converse(o as int, (2 * o) as int, 0, o as int);
    assert(double::num_round(w * o) == w);
    assert(double::num_round(0) == 0);
}

/// A place on the axis stands for the part of the time from the oldest sample to now
/// that it is of the width.
pub proof fn law_axis_between(chart: Area, n: int, now: u64, k: int)
    requires
        0 <= k <= 288,
        chart.width > 0,
    ensures
        ({
            let part = double::nearest(measuring::whole(k as nat), 288);
            let back = double::num_floor(
                double::num_mul(double::num_diff(double::one(), part), axis::window_secs(n)),
            );
            &&& back <= now ==> axis::time_at(n, now, k) == now - back
            &&& axis::column_at(chart, k) == chart.x + double::num_round(
                double::num_mul(part, measuring::whole((2 * chart.width - 1) as nat)),
            ) / 2
        }),
{
    let o = double::one();
    lemma_pow2_pos(1074);
    rounding::lemma_whole_exact(k as nat, 1);
    rounding::lemma_whole_exact(288, 1);
    rounding::lemma_whole_exact(1, 1);
    rounding::lemma_whole_exact((2 * chart.width - 1) as nat, 1);
    assert(1 * o == o) by (nonlinear_arith);
    measuring::law_quotient_has_no_unit((k as nat) * o, 288, o);
    let part = double::nearest(measuring::whole(k as nat), 288);
    assert(axis::fraction(k) == part);
    let back = double::num_floor(
        double::num_mul(double::num_diff(double::one(), part), axis::window_secs(n)),
    );
    if back <= now {
        lemma_small_mod((now - back) as nat, 0x1_0000_0000_0000_0000);
    }
}

/// Labels are set so far apart that no more than one for every eight columns, and two
/// in any case, would stand on the axis, and no farther.
pub proof fn law_label_step(width: u16)
    ensures
        ({
            let most = if width / 8 >= 3 {
                (width / 8) as int
            } else {
                2
            };
            let step = axis::label_step(width);
            &&& step >= 1
            &&& step * most >= 288 || (step == 1 && most > 288)
            &&& step > 1 ==> (step - 1) * most < 288
        }),
{
    let most = if width / 8 >= 3 {
        (width / 8) as int
    } else {
        2
    };
    let q = (288 + most - 1) / most;
    lemma_fundamental_div_mod(288 + most - 1, most);
    lemma_mod_bound(288 + most - 1, most);
    assert(q * most == most * q) by (nonlinear_arith);
    assert((q - 1) * most == most * q - most) by (nonlinear_arith);
    assert(q >= 1) by (nonlinear_arith)
        requires
            288 + most - 1 < most * q + most,
            most >= 2,
    ;
}

/// A label stands around its column, two to the left where there is room, and shows
/// the hours and minutes of its time eight hours east of Greenwich.
pub proof fn law_label(chart: Area, n: int, now: u64, k: int)
    requires
        axis::time_at(n, now, k) + 28800 <= u64::MAX,
    ensures
        ({
            let l = axis::label_at(chart, n, now, k);
            let t = axis::time_at(n, now, k) + 28800;
            &&& axis::column_at(chart, k) >= 2 ==> l.x + 2 == axis::column_at(chart, k)
            &&& axis::column_at(chart, k) < 2 ==> l.x == 0
            &&& l.text == show::two(((t / 3600) % 24) as nat) + seq![':'] + show::two(
                ((t / 60) % 60) as nat,
            )
        }),
{
    let t = axis::time_at(n, now, k) + 28800;
    lemma_small_mod(t as nat, 0x1_0000_0000_0000_0000);
}

/// A label is kept where it is due, lies within the box, has two free columns before
/// it and says something new.
pub proof fn law_labels_step(chart: Area, inner: Area, n: int, now: u64, k: int)
    requires
        0 <= k,
    ensures
        ({
            let before = axis::labels_before(chart, inner, n, now, k);
            let after = axis::labels_before(chart, inner, n, now, k + 1);
            let l = axis::label_at(chart, n, now, k);
            let due = k % axis::label_step(chart.width) == 0;
            let inside = inner.x <= l.x && l.x + l.text.len() <= inner.x + inner.width;
            let free = before.len() == 0 || (before.last().x + l.text.len() + 2 <= l.x && l.text
                != before.last().text);
            &&& k == 0 ==> before.len() == 0
            &&& due && inside && free ==> after == before.push(l)
            &&& !(due && inside && free) ==> after == before
        }),
{
}

/// The label of the present stands at the right, one column from the edge where there
/// is room, and shows hours, minutes and seconds eight hours east of Greenwich.
pub proof fn law_now_label(inner: Area, now: u64)
    requires
        now + 28800 <= u64::MAX,
    ensures
        ({
            let t = now + 28800;
            let s = "now "@ + show::two(((t / 3600) % 24) as nat) + seq![':'] + show::two(
                ((t / 60) % 60) as nat,
            ) + seq![':'] + show::two((t % 60) as nat);
            let n = s.len() as int;
            match axis::now_label(inner, now) {
                Some(l) => {
                    &&& n <= inner.width
                    &&& l.text == s
                    &&& inner.width > n ==> l.x + n + 1 == inner.x + inner.width
                    &&& inner.width == n ==> l.x == inner.x
                },
                None => n > inner.width,
            }
        }),
{
    lemma_small_mod((now + 28800) as nat, 0x1_0000_0000_0000_0000);
}

// ── Scales ───────────────────────────────────────────────────────────────────

/// The largest of the numbers, and one if they are all smaller: it is not exceeded,
/// and it is one of them or one.
pub proof fn law_largest(s: Seq<u64>, t: Seq<nat>, i: int)
    requires
        s.len() <= 172_800,
    ensures
        ({
            let m = history::largest(s, s.len() as int);
            &&& m >= 1
            &&& 0 <= i < s.len() ==> s[i] <= m
            &&& m == 1 || exists|j: int| 0 <= j < s.len() && #[trigger] s[j] == m
        }),
        ({
            let m = history::largest_num(t, t.len() as int);
            &&& m >= double::one()
            &&& 0 <= i < t.len() ==> t[i] <= m
            &&& m == double::one() || exists|j: int| 0 <= j < t.len() && #[trigger] t[j] == m
        }),
        history::window(s.len()) == s.len(),
{
    lemma_largest_of(s, s.len() as int);
    lemma_largest_num_of(t, t.len() as int);
}

proof fn lemma_largest_of(s: Seq<u64>, n: int)
    requires
        0 <= n <= s.len(),
    ensures
        ({
            let m = history::largest(s, n);
            &&& m >= 1
            &&& forall|i: int| s.len() - n <= i < s.len() ==> #[trigger] s[i] <= m
            &&& m == 1 || exists|j: int| 0 <= j < s.len() && #[trigger] s[j] == m
        }),
    decreases n,
{
    if n > 0 {
        lemma_largest_of(s, n - 1);
        assert(s[s.len() - n] == s[s.len() - n]);
    }
}

proof fn lemma_largest_num_of(t: Seq<nat>, n: int)
    requires
        0 <= n <= t.len(),
    ensures
        ({
            let m = history::largest_num(t, n);
            &&& m >= double::one()
            &&& forall|i: int| 0 <= i < n ==> #[trigger] t[i] <= m
            &&& m == double::one() || exists|j: int| 0 <= j < t.len() && #[trigger] t[j] == m
        }),
    decreases n,
{
    rounding::lemma_whole_exact(1, 1);
    assert(1 * double::one() == double::one()) by (nonlinear_arith);
    if n > 0 {
        lemma_largest_num_of(t, n - 1);
    }
}

/// A scale leaves a tenth above the largest sample: over ten parts it is at eleven.
pub proof fn law_headroom(s: Seq<u64>, t: Seq<nat>, k: u64)
    requires
        1 <= k <= 0x2000_0000_0000,
    ensures
        s.len() <= 172_800 && history::largest(s, s.len() as int) == 10 * k ==> history::scale(s)
            == 11 * k + 1,
        history::largest_num(t, t.len() as int) == measuring::whole((10 * k) as nat) ==> {
            &&& history::scale_num(t) >= measuring::whole((11 * k + 1) as nat)
            &&& history::scale_num(t) <= measuring::whole((11 * k + 2) as nat)
        },
{
    let o = double::one();
    let h = double::scaled(history::HEADROOM_BITS);
    let n = k as nat;
    let c = pow2(1022);
    lemma2_to64();
    lemma2_to64_rest();
    lemma_pow2_pos(1022);
    lemma_pow2_pos(1073);
    lemma_pow2_pos(1074);
    lemma_pow2_adds(52, 1022);
    lemma_pow2_adds(51, 1022);
    lemma_pow2_adds(1, 1073);
    assert(0x3FF1_9999_9999_999Au64 / 0x10_0000_0000_0000u64 == 1023);
    assert(h == 4953959590107546 * c);
    assert(o == 4503599627370496 * c);
    assert(pow2(1073) == 2251799813685248 * c);
    rounding::lemma_whole_exact(10 * n, 1);
    lemma_pow2_strictly_increases(1074, 2098);
    lemma_pow2_strictly_increases(1075, 2098);
    lemma_pow2_unfold(1075);
    assert(h < double::infinity());
    let num = ((10 * n) * o) * h;
    assert(((11 * n) * o) * o <= num) by (nonlinear_arith)
        requires
            num == ((10 * n) * o) * h,
            11 * o <= 10 * h,
            o >= 0,
    ;
    rounding::lemma_whole_exact(11 * n, o);
    rounding::lemma_nearest_monotone(((11 * n) * o) * o, num, o);
    let up = ((22 * n + 1) as nat) * pow2(1073);
    assert(2 * up == (22 * n + 1) * o) by (nonlinear_arith)
        requires
            up == ((22 * n + 1) as nat) * pow2(1073),
            o == 2 * pow2(1073),
    ;
    assert(num <= up * o) by (nonlinear_arith)
        requires
            num == ((10 * n) * o) * h,
            2 * up == (22 * n + 1) * o,
            h == 4953959590107546 * c,
            o == 4503599627370496 * c,
            n <= 0x2000_0000_0000,
            c >= 0,
    ;
    assert((22 * n + 2) * o == 2 * ((11 * n + 1) * o)) by (nonlinear_arith);
    assert((22 * n + 2) * o == (22 * n + 1) * o + o) by (nonlinear_arith);
    rounding::lemma_whole_exact(11 * n + 1, 1);
    assert(up < double::infinity());
    rounding::lemma_nearest_exact((22 * n + 1) as nat, 1073, o);
    rounding::lemma_nearest_monotone(num, up * o, o);
    let v = double::num_mul(double::num_of(10 * n), h);
    assert((11 * n) * o <= v <= up);
    assert(v < (11 * n + 1) * o);
    assert((11 * n + 1) * o == (11 * n) * o + o) by (nonlinear_arith);
    assert((11 * n) * o == o * (11 * n)) by (nonlinear_arith);
    lemma_fundamental_div_mod_converse(
        v as int,
        o as int,
        (11 * n) as int,
        v - (11 * n) * o,
    );
    assert(double::num_floor(v) == 11 * n);
    lemma_small_mod(11 * n + 1, 0x1_0000_0000_0000_0000);
    rounding::lemma_whole_exact(1, 1);
    assert(1 * o == o) by (nonlinear_arith);
    rounding::lemma_whole_exact(11 * n + 2, 1);
    assert((11 * n + 2) * o == (11 * n + 1) * o + o) by (nonlinear_arith);
    assert(((11 * n + 1) * o) * 1 == (11 * n + 1) * o) by (nonlinear_arith);
    assert(((11 * n + 2) * o) * 1 == (11 * n + 2) * o) by (nonlinear_arith);
    rounding::lemma_nearest_monotone((11 * n + 1) * o, v + o, 1);
    rounding::lemma_nearest_monotone(v + o, (11 * n + 2) * o, 1);
}

// ── Boxes ────────────────────────────────────────────────────────────────────

/// A frame takes one row and one column at each side.
pub proof fn law_frame(a: Area)
    requires
        a.width >= 2,
        a.height >= 2,
        a.x + a.width <= u16::MAX,
        a.y + a.height <= u16::MAX,
    ensures
        ({
            let f = layout::framed(a);
            &&& f.x == a.x + 1 && f.y == a.y + 1
            &&& f.width + 2 == a.width && f.height + 2 == a.height
        }),
{
}

/// The curves take 31 rows where the connections have five left, and what is left
/// over from those five before that.
pub proof fn law_screen(a: Area, upper: Area, lower: Area)
    requires
        top::shares_screen(a, upper, lower),
        a.y + a.height <= u16::MAX,
    ensures
        upper.x == a.x && upper.width == a.width && lower.x == a.x && lower.width == a.width,
        upper.y == a.y && lower.y == a.y + upper.height,
        upper.height + lower.height == a.height,
        a.height >= 36 ==> upper.height == 31,
        5 <= a.height < 36 ==> lower.height == 5,
        a.height < 5 ==> upper.height == 0,
{
}

/// The six metrics get as many rows as fit evenly with seven lines between and below
/// them, and at least one.
pub proof fn law_metric_height(inner: u16)
    ensures
        ({
            let h = top::metric_height(inner);
            &&& h >= 1
            &&& inner >= 13 ==> 6 * h + 7 <= inner
            &&& 6 * (h + 1) + 7 > inner
        }),
{
}

/// The grid: lines across under the metrics, one line down beside the labels, and a
/// cross where they meet.
pub proof fn law_grid(l: TopLayout, x: u16, y: u16)
    ensures
        ({
            let across = y == l.rows@[1].y || y == l.rows@[3].y || y == l.rows@[5].y || y
                == l.rows@[7].y || y == l.rows@[9].y || y == l.rows@[11].y;
            let down = x == l.metrics@[0].divider.x;
            let wide = l.inner.x <= x && x < l.inner.x + l.inner.width;
            let high = l.inner.y <= y && y < l.inner.y + l.inner.height;
            let s = top::grid_symbol(l, x, y);
            &&& across && down ==> s == Some('┼')
            &&& across && !down && wide ==> s == Some('─')
            &&& across && !down && !wide ==> s is None
            &&& !across && down && high ==> s == Some('│')
            &&& !across && down && !high ==> s is None
            &&& !across && !down ==> s is None
        }),
{
}

/// The last of a history, zero of an empty one.
pub open spec fn last_or_zero(s: Seq<nat>) -> nat {
    if s.len() == 0 {
        0
    } else {
        s[s.len() - 1]
    }
}

/// Each metric names itself and shows its present figure.
pub proof fn law_metric_labels(m: AppModel)
    ensures
        ({
            let t = top::metric_texts(m);
            let read = double::num_floor(last_or_zero(m.sys_disk_read_history)) as u64;
            let written = double::num_floor(last_or_zero(m.sys_disk_write_history)) as u64;
            &&& t.len() == 6
            &&& t[0] == "▼ DL "@ + show::speed_text(m.current_rx)
            &&& t[1] == "▲ UL "@ + show::speed_text(m.current_tx)
            &&& t[2] == "▌ CPU "@ + show::number_text(last_or_zero(m.sys_cpu_history)) + seq!['%']
            &&& t[3] == "▌ MEM "@ + show::number_text(last_or_zero(m.sys_mem_history)) + seq!['%']
            &&& t[4] == "▌ DISK R "@ + show::speed_text(read)
            &&& t[5] == "▌ DISK W "@ + show::speed_text(written)
        }),
{
    let t = top::metric_texts(m);
    assert(t[2] =~= "▌ CPU "@ + show::number_text(last_or_zero(m.sys_cpu_history)) + seq!['%']);
    assert(t[3] =~= "▌ MEM "@ + show::number_text(last_or_zero(m.sys_mem_history)) + seq!['%']);
}

/// The interface and its place among all, the highest speed, how many samples there
/// are and whether switching is automatic.
pub proof fn law_captions(m: AppModel)
    requires
        m.iface_idx < m.ifaces.len(),
        m.iface_idx < u64::MAX,
    ensures
        ({
            let f = top::footer_texts(m);
            &&& top::interface_text(m) == "interface: "@ + m.iface
            &&& top::position_text(m) == "iface "@ + text::decimal((m.iface_idx + 1) as nat)
                + seq!['/'] + text::decimal(m.ifaces.len())
            &&& f.len() == 3
            &&& f[0] == "Session peak: "@ + show::speed_text(m.peak_speed)
            &&& f[1] == "Samples: "@ + text::decimal(m.rx_history.len())
            &&& m.auto_iface ==> f[2] == "auto: "@ + "on"@
            &&& !m.auto_iface ==> f[2] == "auto: "@ + "off"@
            &&& top::box_text() == " ▼ DL / ▲ UL / CPU / MEM / DISK R / DISK W History ("@
                + text::decimal(24) + "h) "@
        }),
{
    lemma_small_mod((m.iface_idx + 1) as nat, 0x1_0000_0000_0000_0000);
}

} // verus!
