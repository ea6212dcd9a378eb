//! The time axis below the curves.

use vstd::arithmetic::div_mod::*;
use vstd::arithmetic::mul::*;
use vstd::arithmetic::power2::*;
use vstd::prelude::*;

use crate::double;
use crate::double::Double;
use crate::layout::Area;
use crate::rounding;
use crate::show;
use crate::show::shanghai_hms;
use crate::text;
use crate::text::{push_two, same_text};

verus! {

/// Into how many steps the axis is divided.
pub const AXIS_STEPS: u64 = 288;

/// A label of the axis.
pub struct AxisLabel {
    /// Screen column of its first character.
    pub x: u16,
    /// What it says.
    pub text: String,
}

/// What an [`AxisLabel`] says and where.
pub struct LabelModel {
    /// Screen column of its first character.
    pub x: int,
    /// What it says.
    pub text: Seq<char>,
}

impl View for AxisLabel {
    type V = LabelModel;

    open spec fn view(&self) -> LabelModel {
        LabelModel { x: self.x as int, text: self.text@ }
    }
}

/// The models of a vector of labels.
pub open spec fn labels(v: Seq<AxisLabel>) -> Seq<LabelModel> {
    v.map_values(|l: AxisLabel| l@)
}

/// Seconds between the oldest and the newest of `n` samples, at least one.
pub open spec fn window_secs(n: int) -> nat {
    double::num_max(
        double::num_div(
            double::num_mul(double::num_of((n - 1) as nat), double::num_of(500)),
            double::num_of(1000),
        ),
        double::num_of(1),
    )
}

/// How far along the axis step `k` lies, from zero to one.
pub open spec fn fraction(k: int) -> nat {
    double::num_div(double::num_of(k as nat), double::num_of(AXIS_STEPS as nat))
}

/// The wrapping difference.
pub open spec fn wrap_sub(a: u64, b: u64) -> u64 {
    ((a - b) % 0x1_0000_0000_0000_0000) as u64
}

/// The time at step `k`, where `now` is that of the newest of `n` samples.
pub open spec fn time_at(n: int, now: u64, k: int) -> u64 {
    wrap_sub(
        now,
        double::num_floor(
            double::num_mul(double::num_diff(double::num_of(1), fraction(k)), window_secs(n)),
        ) as u64,
    )
}

/// Hour and minute in Asia/Shanghai.
pub open spec fn hour_minute(t: u64) -> Seq<char> {
    let c = show::clock_of(((t + show::SHANGHAI_OFFSET) % 0x1_0000_0000_0000_0000) as int);
    show::two(c.0 as nat) + seq![':'] + show::two(c.1 as nat)
}

/// The label of the current time in Asia/Shanghai.
pub open spec fn now_text(t: u64) -> Seq<char> {
    let c = show::clock_of(((t + show::SHANGHAI_OFFSET) % 0x1_0000_0000_0000_0000) as int);
    "now "@ + show::two(c.0 as nat) + seq![':'] + show::two(c.1 as nat) + seq![':'] + show::two(
        c.2 as nat,
    )
}

/// The dot columns of a chart, less one.
pub open spec fn last_dot(width: u16) -> int {
    if width > 0 {
        2 * width - 1
    } else {
        0
    }
}

/// The screen column of step `k`.
pub open spec fn column_at(chart: Area, k: int) -> int {
    chart.x + double::num_round(
        double::num_mul(fraction(k), double::num_of(last_dot(chart.width) as nat)),
    ) / 2
}

/// Every how many steps there may be a label: about one in eight columns, and
/// at least two along the axis.
pub open spec fn label_step(width: u16) -> int {
    let most = if width / 8 > 2 {
        (width / 8) as int
    } else {
        2
    };
    let step = (AXIS_STEPS + most - 1) / most;
    if step > 1 {
        step
    } else {
        1
    }
}

/// The label at step `k`.
pub open spec fn label_at(chart: Area, n: int, now: u64, k: int) -> LabelModel {
    let x = column_at(chart, k);
    LabelModel {
        x: if x > 2 {
            x - 2
        } else {
            0
        },
        text: hour_minute(time_at(n, now, k)),
    }
}

/// Whether a label lies within the box and clear of the labels before it, and
/// says something else than the last one.
pub open spec fn has_room(inner: Area, before: Seq<LabelModel>, l: LabelModel) -> bool {
    &&& inner.x <= l.x
    &&& l.x + l.text.len() <= inner.x + inner.width
    &&& before.len() > 0 ==> l.x - before.last().x >= l.text.len() + 2 && l.text
        != before.last().text
}

/// The labels at the steps before `k`. The right end is left to the current time.
pub open spec fn labels_before(chart: Area, inner: Area, n: int, now: u64, k: int) -> Seq<
    LabelModel,
>
    decreases k,
{
    if k <= 0 {
        Seq::empty()
    } else {
        let before = labels_before(chart, inner, n, now, k - 1);
        let l = label_at(chart, n, now, k - 1);
        if (k - 1) % label_step(chart.width) == 0 && has_room(inner, before, l) {
            before.push(l)
        } else {
            before
        }
    }
}

/// The label of the current time, at the right end if there is room for it.
pub open spec fn now_label(inner: Area, now: u64) -> Option<LabelModel> {
    let len = now_text(now).len();
    let from = if inner.width > len + 1 {
        inner.width - len - 1
    } else {
        0
    };
    if from + len <= inner.width {
        Some(LabelModel { x: inner.x + from, text: now_text(now) })
    } else {
        None
    }
}

fn push_hour_minute(r: &mut String, t: u64)
    ensures
        final(r)@ == old(r)@ + hour_minute(t),
{
    let (h, m, _s) = shanghai_hms(t);
    push_two(r, h as u64);
    r.push(':');
    push_two(r, m as u64);
    assert(r@ =~= old(r)@ + hour_minute(t));
}

/// Two digits for every part of a time.
proof fn lemma_two_digits(n: nat)
    requires
        n < 100,
    ensures
        show::two(n).len() == 2,
{
    text::lemma_decimal_len(n);
    if n >= 10 {
        text::lemma_decimal_len(n / 10);
    }
}

proof fn lemma_label_len(t: u64)
    ensures
        hour_minute(t).len() == 5,
        now_text(t).len() == 12,
{
    let c = show::clock_of(((t + show::SHANGHAI_OFFSET) % 0x1_0000_0000_0000_0000) as int);
    lemma_two_digits(c.0 as nat);
    lemma_two_digits(c.1 as nat);
    lemma_two_digits(c.2 as nat);
    reveal_strlit("now ");
}

/// A fraction of the axis is at most the whole.
proof fn lemma_fraction(k: int)
    requires
        0 <= k <= AXIS_STEPS,
    ensures
        fraction(k) <= double::one(),
        fraction(k) < double::infinity(),
        double::num_of(1) == double::one(),
        double::num_of(AXIS_STEPS as nat) > 0,
{
    let o = double::one();
    let d = (AXIS_STEPS as nat) * o;
    lemma_pow2_pos(1074);
    rounding::lemma_whole_exact(1, 1);
    rounding::lemma_whole_exact(k as nat, 1);
    rounding::lemma_whole_exact(AXIS_STEPS as nat, 1);
    lemma_mul_basics(o as int);
    assert(d > 0) by (nonlinear_arith)
        requires
            d == AXIS_STEPS * o,
            o > 0,
    ;
    rounding::lemma_whole_exact(1, d);
    assert((k as nat * o) * o <= (1 * o) * d) by (nonlinear_arith)
        requires
            k <= AXIS_STEPS,
            d == AXIS_STEPS * o,
            k >= 0,
    ;
    rounding::lemma_nearest_monotone((k as nat * o) * o, (1 * o) * d, d);
}

/// A step of the axis lies within the chart.
proof fn lemma_column(chart: Area, k: int)
    requires
        0 <= k <= AXIS_STEPS,
    ensures
        chart.x <= column_at(chart, k) <= chart.x + chart.width,
        chart.width > 0 ==> column_at(chart, k) < chart.x + chart.width,
{
    let o = double::one();
    let w = last_dot(chart.width) as nat;
    let f = fraction(k);
    lemma_fraction(k);
    lemma_pow2_pos(1074);
    rounding::lemma_whole_exact(w, 1);
    rounding::lemma_whole_exact(w, o);
    let t = double::num_of(w);
    assert(f * t <= (w * o) * o) by (nonlinear_arith)
        requires
            f <= o,
            t == w * o,
    ;
    rounding::lemma_nearest_monotone(f * t, (w * o) * o, o);
    let p = double::num_mul(f, t);
    assert(p <= w * o);
    assert((2 * o) * w + o == 2 * (w * o) + o) by (nonlinear_arith);
    assert((2 * o) * w == w * (2 * o)) by (nonlinear_arith);
    lemma_div_is_ordered((2 * p + o) as int, ((2 * o) * w + o) as int, (2 * o) as int);
    lemma_fundamental_div_mod_converse(
        ((2 * o) * w + o) as int,
        (2 * o) as int,
        w as int,
        o as int,
    );
    assert(double::num_round(p) <= w);
}

fn seconds_shown(n: usize) -> (r: Double)
    requires
        n >= 1,
    ensures
        r@ == window_secs(n as int),
        0 < r@ < double::infinity(),
{
    proof {
        double::lemma_num_of_range((n - 1) as u64);
        double::lemma_num_of_range(500);
        double::lemma_num_of_range(1000);
        double::lemma_num_of_range(1);
        rounding::lemma_num_of_at_most((n - 1) as u64);
        rounding::lemma_num_of_at_most(500);
        rounding::lemma_num_of_at_most(1000);
        rounding::lemma_mul_at_most(double::num_of((n - 1) as nat), double::num_of(500), 1138, 1138);
        rounding::lemma_div_at_most(
            double::num_mul(double::num_of((n - 1) as nat), double::num_of(500)),
            double::num_of(1000),
            1202,
        );
        lemma_pow2_strictly_increases(1202, 2098);
    }
    let span = Double::from_u64(n as u64 - 1).times(Double::from_u64(500)).over(
        Double::from_u64(1000),
    );
    span.max(Double::from_u64(1))
}

fn label_for(chart: Area, n: usize, now: u64, k: u64) -> (r: AxisLabel)
    requires
        n >= 1,
        k < AXIS_STEPS,
        chart.x + chart.width <= u16::MAX,
    ensures
        r@ == label_at(chart, n as int, now, k as int),
        r@.text.len() == 5,
{
    proof {
        double::lemma_num_of_range(k);
        lemma_fraction(k as int);
        lemma_column(chart, k as int);
        double::lemma_num_of_range(1);
        lemma_label_len(time_at(n as int, now, k as int));
    }
    let f = Double::from_u64(k).over(Double::from_u64(AXIS_STEPS));
    let dots: u64 = if chart.width > 0 {
        2 * chart.width as u64 - 1
    } else {
        0
    };
    proof {
        double::lemma_num_of_range(dots);
    }
    let off: u64 = f.times(Double::from_u64(dots)).round() / 2;
    let gx: u16 = chart.x + off as u16;
    let x: u16 = if gx > 2 {
        gx - 2
    } else {
        0
    };
    let back: u64 = Double::from_u64(1).diff(f).times(seconds_shown(n)).floor();
    let t: u64 = if now >= back {
        now - back
    } else {
        ((now as u128 + 0x1_0000_0000_0000_0000) - back as u128) as u64
    };
    assert(t == wrap_sub(now, back));
    let mut text = String::new();
    push_hour_minute(&mut text, t);
    assert(text@ =~= hour_minute(t));
    AxisLabel { x, text }
}

/// The labels of the axis, apart from that of the current time: `chart` is the
/// area of the curves, `inner` the box around it, and `now` the time of the
/// newest of `n` samples. Fewer than two samples have no axis.
pub fn axis_labels(chart: Area, inner: Area, n: usize, now: u64) -> (r: Vec<AxisLabel>)
    requires
        chart.x + chart.width <= u16::MAX,
    ensures
        labels(r@) == (if n >= 2 {
            labels_before(chart, inner, n as int, now, AXIS_STEPS as int)
        } else {
            Seq::empty()
        }),
{
    let mut r: Vec<AxisLabel> = Vec::new();
    assert(labels(r@) =~= Seq::<LabelModel>::empty());
    if n < 2 {
        return r;
    }
    let most: u64 = if chart.width / 8 > 2 {
        (chart.width / 8) as u64
    } else {
        2
    };
    let step: u64 = (AXIS_STEPS + most - 1) / most;
    proof {
        assert(step >= 1) by (nonlinear_arith)
            requires
                step == (AXIS_STEPS + most - 1) / most as int,
                most >= 2,
                AXIS_STEPS == 288,
        ;
        assert(step == label_step(chart.width));
    }
    let mut k: u64 = 0;
    while k < AXIS_STEPS
        invariant
            k <= AXIS_STEPS,
            n >= 2,
            chart.x + chart.width <= u16::MAX,
            step >= 1,
            step == label_step(chart.width),
            labels(r@) == labels_before(chart, inner, n as int, now, k as int),
        decreases AXIS_STEPS - k,
    {
        if k % step == 0 {
            let l = label_for(chart, n, now, k);
            let fits = l.x >= inner.x && l.x as u32 + 5 <= inner.x as u32 + inner.width as u32;
            let m: usize = r.len();
            let clear = if m > 0 {
                assert(labels(r@).last() == r@[m - 1]@);
                l.x as i32 - r[m - 1].x as i32 >= 7 && !same_text(
                    l.text.as_str(),
                    r[m - 1].text.as_str(),
                )
            } else {
                true
            };
            assert(labels(r@).len() == m);
            assert((fits && clear) == has_room(inner, labels(r@), l@));
            if fits && clear {
                let ghost before = labels(r@);
                let ghost lm = l@;
                r.push(l);
                assert(labels(r@) =~= before.push(lm));
            }
        }
        k += 1;
    }
    r
}

/// The label of the current time, at the right end of the axis, if there is room.
pub fn current_label(inner: Area, now: u64) -> (r: Option<AxisLabel>)
    requires
        inner.x + inner.width <= u16::MAX,
    ensures
        match r {
            Some(l) => now_label(inner, now) == Some(l@),
            None => now_label(inner, now) is None,
        },
{
    proof {
        lemma_label_len(now);
    }
    let from: u16 = if inner.width > 13 {
        inner.width - 13
    } else {
        0
    };
    if from as u32 + 12 > inner.width as u32 {
        return None;
    }
    let (h, m, s) = shanghai_hms(now);
    let mut text = String::new();
    text.append("now ");
    push_two(&mut text, h as u64);
    text.push(':');
    push_two(&mut text, m as u64);
    text.push(':');
    push_two(&mut text, s as u64);
    assert(text@ =~= now_text(now));
    Some(AxisLabel { x: inner.x + from, text })
}

// ── Laws ─────────────────────────────────────────────────────────────────────

/// However wide the axis is, its labels lie within the box, in order, with at
/// least two free columns between them, and no label repeats the one before.
pub proof fn law_labels_never_overlap(chart: Area, inner: Area, n: int, now: u64, k: int)
    ensures
        ({
            let ls = labels_before(chart, inner, n, now, k);
            &&& forall|i: int|
                0 <= i < ls.len() ==> inner.x <= (#[trigger] ls[i]).x && ls[i].x
                    + ls[i].text.len() <= inner.x + inner.width
            &&& forall|i: int, j: int|
                0 <= i < j < ls.len() ==> (#[trigger] ls[i]).x + ls[i].text.len() + 2 <= (
                #[trigger] ls[j]).x
            &&& forall|i: int|
                0 < i < ls.len() ==> (#[trigger] ls[i]).text != ls[i - 1].text
        }),
    decreases k,
{
    if k > 0 {
        law_labels_never_overlap(chart, inner, n, now, k - 1);
        lemma_label_len(time_at(n, now, k - 1));
        lemma_all_five(chart, inner, n, now, k - 1);
        let before = labels_before(chart, inner, n, now, k - 1);
        let ls = labels_before(chart, inner, n, now, k);
        if ls != before {
            assert forall|i: int, j: int| 0 <= i < j < ls.len() implies (#[trigger] ls[i]).x
                + ls[i].text.len() + 2 <= (#[trigger] ls[j]).x by {
                if j == before.len() && i < before.len() - 1 {
                    assert(before[i].x + before[i].text.len() + 2 <= before[before.len() - 1].x);
                }
            }
        }
    }
}

proof fn lemma_all_five(chart: Area, inner: Area, n: int, now: u64, k: int)
    ensures
        ({
            let ls = labels_before(chart, inner, n, now, k);
            forall|i: int| 0 <= i < ls.len() ==> (#[trigger] ls[i]).text.len() == 5
        }),
    decreases k,
{
    if k > 0 {
        lemma_all_five(chart, inner, n, now, k - 1);
        lemma_label_len(time_at(n, now, k - 1));
        let before = labels_before(chart, inner, n, now, k - 1);
        let ls = labels_before(chart, inner, n, now, k);
        assert forall|i: int| 0 <= i < ls.len() implies (#[trigger] ls[i]).text.len() == 5 by {
            if i < before.len() {
                assert(ls[i] == before[i]);
            }
        }
    }
}

} // verus!
