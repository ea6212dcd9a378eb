//! Histories as braille curves.
//!
//! A character cell carries two columns of four dots. Every dot column shows the
//! one sample that lies closest to it, so that the curve is one dot thick
//! however many samples there are.

use std::collections::VecDeque;

use vstd::arithmetic::div_mod::*;
use vstd::arithmetic::mul::*;
use vstd::arithmetic::power2::*;
use vstd::prelude::*;

use crate::double;
use crate::double::Double;
use crate::history;
use crate::history::MAX_HISTORY;
use crate::rounding;

verus! {

/// `char::from_u32` gives the character with a code, for every code that is a
/// Unicode scalar value, and nothing for the other codes.
pub assume_specification[ char::from_u32 ](i: u32) -> (r: Option<char>)
    ensures
        match r {
            Some(c) => c == i as char && (i < 0xD800 || 0xE000 <= i <= 0x10FFFF),
            None => !(i < 0xD800 || 0xE000 <= i <= 0x10FFFF),
        },
;

/// A history to be drawn and the top of its scale.
enum Series<'a> {
    /// Bytes per second.
    Counts(&'a VecDeque<u64>, u64),
    /// Percentages, or bytes per second.
    Numbers(&'a VecDeque<Double>, Double),
}

/// What part of `max` a sample reaches, at most all of it.
pub open spec fn share(v: nat, max: nat) -> nat {
    double::num_min(double::num_div(v, max), double::num_of(1))
}

/// Speeds as parts of the scale.
pub open spec fn count_shares(s: Seq<u64>, max: u64) -> Seq<nat> {
    s.map_values(|v: u64| share(double::num_of(v as nat), double::num_of(max as nat)))
}

/// Numbers as parts of the scale.
pub open spec fn num_shares(s: Seq<nat>, max: nat) -> Seq<nat> {
    s.map_values(|v: nat| share(v, max))
}

impl Series<'_> {
    /// The samples as parts of the scale.
    spec fn shares(self) -> Seq<nat> {
        match self {
            Series::Counts(h, max) => count_shares(h@, max),
            Series::Numbers(h, max) => num_shares(history::nums(h@), max@),
        }
    }

    /// Whether the scale has a top and all samples are finite.
    spec fn drawable(self) -> bool {
        match self {
            Series::Counts(_, max) => max > 0,
            Series::Numbers(h, max) => max@ > 0 && forall|i: int|
                0 <= i < h@.len() ==> (#[trigger] h@[i])@ < double::infinity(),
        }
    }
}

// ── The curve ────────────────────────────────────────────────────────────────

/// A sample averaged with its neighbours; at the ends it stands in for the one
/// that is missing.
pub open spec fn smooth(data: Seq<nat>, i: int) -> nat {
    let a = if i > 0 {
        data[i - 1]
    } else {
        data[i]
    };
    let c = if i + 1 < data.len() {
        data[i + 1]
    } else {
        data[i]
    };
    double::num_div(double::num_add(double::num_add(a, data[i]), c), double::num_of(3))
}

/// Number of steps from the first to the last sample shown, at least one.
pub open spec fn span(n: int) -> int {
    let shown = if n > MAX_HISTORY {
        MAX_HISTORY as int
    } else {
        n
    };
    if shown - 1 > 1 {
        shown - 1
    } else {
        1
    }
}

/// Where among the samples dot column `dx` of `xres` lies.
pub open spec fn sample_at(n: int, xres: int, dx: int) -> nat {
    double::num_div(
        double::num_mul(double::num_of(dx as nat), double::num_of(span(n) as nat)),
        double::num_of((xres - 1) as nat),
    )
}

/// Where among the dot columns sample `i` lies.
pub open spec fn place_of(n: int, xres: int, i: int) -> nat {
    double::num_div(
        double::num_mul(double::num_of(i as nat), double::num_of((xres - 1) as nat)),
        double::num_of(span(n) as nat),
    )
}

/// How far sample `i` lies from dot column `dx`.
pub open spec fn distance(n: int, xres: int, dx: int, i: int) -> nat {
    double::num_diff(place_of(n, xres, i), double::num_of(dx as nat))
}

/// The sample shown in dot column `dx`: of the two around its place, the closer
/// one, and the earlier one if they are equally close.
pub open spec fn shown_at(n: int, xres: int, dx: int) -> Option<int> {
    let s = sample_at(n, xres, dx);
    let i0 = double::num_floor(s) as int;
    let i1 = double::num_ceil(s) as int;
    if i0 < n {
        if i1 < n && distance(n, xres, dx, i1) < distance(n, xres, dx, i0) {
            Some(i1)
        } else {
            Some(i0)
        }
    } else if i1 < n {
        Some(i1)
    } else {
        None
    }
}

/// The dot row of a value, the top row being that of `1.0`.
pub open spec fn height_of(val: nat, yres: int) -> int {
    double::num_round(
        double::num_mul(double::num_diff(double::num_of(1), val), double::num_of((yres - 1) as nat)),
    ) as int
}

/// The dot row in column `dx`, if there is a dot.
pub open spec fn dot_at(data: Seq<nat>, xres: int, yres: int, dx: int) -> Option<int> {
    match shown_at(data.len() as int, xres, dx) {
        Some(i) => Some(height_of(smooth(data, i), yres)),
        None => None,
    }
}

/// The code of a dot within its cell.
pub open spec fn dot_code(right: bool, dy: int) -> u32 {
    if right {
        if dy == 0 {
            8
        } else if dy == 1 {
            16
        } else if dy == 2 {
            32
        } else {
            128
        }
    } else {
        if dy == 0 {
            1
        } else if dy == 1 {
            2
        } else if dy == 2 {
            4
        } else {
            64
        }
    }
}

/// What a dot column adds to the code of the cell in row `cy`.
pub open spec fn column_code(dot: Option<int>, cy: int, right: bool) -> u32 {
    match dot {
        Some(y) => if y / 4 == cy {
            dot_code(right, y % 4)
        } else {
            0
        },
        None => 0,
    }
}

/// The character in a cell.
pub open spec fn cell(data: Seq<nat>, width: int, height: int, cx: int, cy: int) -> char {
    let xres = 2 * width;
    let yres = 4 * height;
    (0x2800 + column_code(dot_at(data, xres, yres, 2 * cx), cy, false) + column_code(
        dot_at(data, xres, yres, 2 * cx + 1),
        cy,
        true,
    )) as char
}

/// Whether `grid` shows the curve.
pub open spec fn is_curve(
    grid: Seq<Vec<char>>,
    data: Seq<nat>,
    width: int,
    height: int,
) -> bool {
    &&& grid.len() == height
    &&& forall|cy: int| 0 <= cy < height ==> (#[trigger] grid[cy])@.len() == width
    &&& forall|cy: int, cx: int|
        0 <= cy < height && 0 <= cx < width ==> #[trigger] grid[cy]@[cx] == cell(
            data,
            width,
            height,
            cx,
            cy,
        )
}

/// Whether `grid` is what a history looks like: its curve, or nothing for an empty
/// area, an empty history or a scale without top.
pub open spec fn is_waveform(
    grid: Seq<Vec<char>>,
    data: Seq<nat>,
    has_top: bool,
    width: u16,
    height: u16,
) -> bool {
    if width == 0 || height == 0 || data.len() == 0 || !has_top {
        grid.len() == 0
    } else {
        is_curve(grid, data, width as int, height as int)
    }
}

impl Series<'_> {
    fn count(&self) -> (r: usize)
        ensures
            r == self.shares().len(),
    {
        match self {
            Series::Counts(h, _) => h.len(),
            Series::Numbers(h, _) => h.len(),
        }
    }

    fn share_at(&self, i: usize) -> (r: Double)
        requires
            i < self.shares().len(),
            self.drawable(),
        ensures
            r@ == self.shares()[i as int],
    {
        let one = Double::from_u64(1);
        match self {
            Series::Counts(h, max) => {
                let v: u64 = h[i];
                proof {
                    double::lemma_num_of_range(v);
                    double::lemma_num_of_range(*max);
                }
                Double::from_u64(v).over(Double::from_u64(*max)).min(one)
            },
            Series::Numbers(h, max) => h[i].over(*max).min(one),
        }
    }

    fn smooth_at(&self, i: usize) -> (r: Double)
        requires
            i < self.shares().len(),
            self.drawable(),
        ensures
            r@ == smooth(self.shares(), i as int),
    {
        let n: usize = self.count();
        let b = self.share_at(i);
        let a = if i > 0 {
            self.share_at(i - 1)
        } else {
            b
        };
        let c = if i + 1 < n {
            self.share_at(i + 1)
        } else {
            b
        };
        proof {
            double::lemma_num_of_range(3);
        }
        a.plus(b).plus(c).over(Double::from_u64(3))
    }
}

fn steps(n: usize) -> (r: u64)
    ensures
        r == span(n as int),
        1 <= r < MAX_HISTORY,
{
    let shown: usize = if n > MAX_HISTORY {
        MAX_HISTORY
    } else {
        n
    };
    if shown > 2 {
        shown as u64 - 1
    } else {
        1
    }
}

fn distance_of(n: usize, xres: usize, dx: usize, i: u64) -> (r: Double)
    requires
        2 <= xres <= 0x20000,
        i < n,
    ensures
        r@ == distance(n as int, xres as int, dx as int, i as int),
{
    let sp: u64 = steps(n);
    let x: u64 = xres as u64 - 1;
    proof {
        double::lemma_num_of_range(i);
        double::lemma_num_of_range(x);
        double::lemma_num_of_range(sp);
        double::lemma_num_of_range(dx as u64);
        lemma_place(n as int, xres as int, i as int);
    }
    let place = Double::from_u64(i).times(Double::from_u64(x)).over(Double::from_u64(sp));
    place.diff(Double::from_u64(dx as u64))
}

fn sample_shown(n: usize, xres: usize, dx: usize) -> (r: Option<usize>)
    requires
        2 <= xres <= 0x20000,
        dx < xres,
    ensures
        match r {
            Some(i) => shown_at(n as int, xres as int, dx as int) == Some(i as int) && i < n,
            None => shown_at(n as int, xres as int, dx as int) is None,
        },
{
    let sp: u64 = steps(n);
    let x: u64 = xres as u64 - 1;
    proof {
        double::lemma_num_of_range(dx as u64);
        double::lemma_num_of_range(sp);
        double::lemma_num_of_range(x);
    }
    let s = Double::from_u64(dx as u64).times(Double::from_u64(sp)).over(Double::from_u64(x));
    let i0: u64 = s.floor();
    let i1: u64 = s.ceil();
    if i0 < n as u64 {
        if i1 < n as u64 {
            let d0 = distance_of(n, xres, dx, i0);
            let d1 = distance_of(n, xres, dx, i1);
            if !d0.le(d1) {
                return Some(i1 as usize);
            }
        }
        Some(i0 as usize)
    } else if i1 < n as u64 {
        Some(i1 as usize)
    } else {
        None
    }
}

/// The place of a sample is a finite number.
proof fn lemma_place(n: int, xres: int, i: int)
    requires
        0 <= i < n <= u64::MAX,
        2 <= xres <= 0x20000,
    ensures
        place_of(n, xres, i) < double::infinity(),
{
    rounding::lemma_num_of_at_most(i as u64);
    rounding::lemma_num_of_at_most((xres - 1) as u64);
    rounding::lemma_num_of_at_most(span(n) as u64);
    rounding::lemma_mul_at_most(double::num_of(i as nat), double::num_of((xres - 1) as nat), 1138, 1138);
    rounding::lemma_div_at_most(
        double::num_mul(double::num_of(i as nat), double::num_of((xres - 1) as nat)),
        double::num_of(span(n) as nat),
        1202,
    );
    lemma_pow2_strictly_increases(1202, 2098);
}

/// Averages of parts of the scale are parts of the scale.
proof fn lemma_smooth(data: Seq<nat>, i: int)
    requires
        0 <= i < data.len(),
        forall|j: int| 0 <= j < data.len() ==> #[trigger] data[j] <= double::one(),
    ensures
        smooth(data, i) <= double::one(),
{
    let a = if i > 0 {
        data[i - 1]
    } else {
        data[i]
    };
    let b = data[i];
    let c = if i + 1 < data.len() {
        data[i + 1]
    } else {
        data[i]
    };
    let o = double::one();
    lemma_pow2_pos(1074);
    rounding::lemma_whole_exact(2, 1);
    rounding::lemma_whole_exact(3, 1);
    lemma_mul_basics((2 * o) as int);
    lemma_mul_basics((3 * o) as int);
    rounding::lemma_nearest_monotone(a + b, 2 * o, 1);
    let ab = double::num_add(a, b);
    assert(ab <= 2 * o);
    rounding::lemma_nearest_monotone(ab + c, 3 * o, 1);
    let sum = double::num_add(ab, c);
    assert(sum <= 3 * o);
    let t = double::num_of(3);
    assert(t == 3 * o);
    rounding::lemma_whole_exact(1, t);
    lemma_mul_basics(o as int);
    assert(sum * o <= o * t) by (nonlinear_arith)
        requires
            sum <= 3 * o,
            t == 3 * o,
    ;
    rounding::lemma_nearest_monotone(sum * o, o * t, t);
}

/// The rows of values between nothing and everything lie within the grid.
proof fn lemma_height(val: nat, yres: int)
    requires
        val <= double::one(),
        0 < yres < 0x100000,
    ensures
        0 <= height_of(val, yres) < yres,
{
    let o = double::one();
    let y = (yres - 1) as nat;
    lemma_pow2_pos(1074);
    rounding::lemma_whole_exact(1, 1);
    rounding::lemma_whole_exact(y, 1);
    rounding::lemma_whole_exact(y, o);
    lemma_mul_basics(o as int);
    rounding::lemma_nearest_monotone((o - val) as nat, o, 1);
    let d = double::num_diff(double::num_of(1), val);
    assert(d <= o);
    let t = double::num_of(y);
    assert(d * t <= (y * o) * o) by (nonlinear_arith)
        requires
            d <= o,
            t == y * o,
    ;
    rounding::lemma_whole_exact(1, o);
    rounding::lemma_nearest_monotone(d * t, (y * o) * o, o);
    let p = double::num_mul(d, t);
    assert(p <= y * o);
    assert(2 * p + o <= (2 * y + 1) * o) by (nonlinear_arith)
        requires
            p <= y * o,
    ;
    assert((2 * p + o) / (2 * o) <= y) by {
        assert((2 * y + 1) * o == (2 * o) * y + o) by (nonlinear_arith);
        lemma_div_is_ordered((2 * p + o) as int, ((2 * o) * y + o) as int, (2 * o) as int);
        assert((2 * o) * y == y * (2 * o)) by (nonlinear_arith);
        lemma_fundamental_div_mod_converse(
            ((2 * o) * y + o) as int,
            (2 * o) as int,
            y as int,
            o as int,
        );
    }
}

fn row_of(val: Double, yres: u64) -> (r: u64)
    requires
        val@ <= double::one(),
        0 < yres < 0x100000,
    ensures
        r == height_of(val@, yres as int),
        r < yres,
{
    proof {
        rounding::lemma_whole_exact(1, 1);
        lemma_mul_basics(double::one() as int);
        lemma_height(val@, yres as int);
        double::lemma_num_of_range((yres - 1) as u64);
        lemma_pow2_pos(1074);
        rounding::lemma_nearest_monotone((double::one() - val@) as nat, double::one(), 1);
    }
    Double::from_u64(1).diff(val).times(Double::from_u64(yres - 1)).round()
}

fn code_of(dot: Option<u64>, cy: u64, right: bool) -> (r: u32)
    ensures
        r == column_code(
            match dot {
                Some(y) => Some(y as int),
                None => None,
            },
            cy as int,
            right,
        ),
        r <= 128,
        !right ==> r <= 64,
{
    match dot {
        Some(y) => if y / 4 == cy {
            let dy: u64 = y % 4;
            if right {
                if dy == 0 {
                    8
                } else if dy == 1 {
                    16
                } else if dy == 2 {
                    32
                } else {
                    128
                }
            } else {
                if dy == 0 {
                    1
                } else if dy == 1 {
                    2
                } else if dy == 2 {
                    4
                } else {
                    64
                }
            }
        } else {
            0
        },
        None => 0,
    }
}

/// All samples are parts of the scale.
proof fn lemma_shares(s: Series<'_>)
    ensures
        forall|j: int| 0 <= j < s.shares().len() ==> #[trigger] s.shares()[j] <= double::one(),
{
    rounding::lemma_whole_exact(1, 1);
    lemma_mul_basics(double::one() as int);
}

impl Series<'_> {
    fn dots(&self, xres: usize, yres: u64) -> (r: Vec<Option<u64>>)
        requires
            self.drawable(),
            2 <= xres <= 0x20000,
            0 < yres < 0x100000,
        ensures
            r@.len() == xres,
            forall|dx: int|
                0 <= dx < xres ==> dot_at(self.shares(), xres as int, yres as int, dx) == (
                match #[trigger] r@[dx] {
                    Some(y) => Some(y as int),
                    None => None::<int>,
                }),
    {
        let n: usize = self.count();
        let mut r: Vec<Option<u64>> = Vec::new();
        let mut dx: usize = 0;
        while dx < xres
            invariant
                dx <= xres == r@.len() + (xres - dx),
                n == self.shares().len(),
                self.drawable(),
                2 <= xres <= 0x20000,
                0 < yres < 0x100000,
                forall|k: int|
                    0 <= k < dx ==> dot_at(self.shares(), xres as int, yres as int, k) == (
                    match #[trigger] r@[k] {
                        Some(y) => Some(y as int),
                        None => None::<int>,
                    }),
            decreases xres - dx,
        {
            let dot: Option<u64> = match sample_shown(n, xres, dx) {
                Some(i) => {
                    proof {
                        lemma_shares(*self);
                        lemma_smooth(self.shares(), i as int);
                    }
                    Some(row_of(self.smooth_at(i), yres))
                },
                None => None,
            };
            r.push(dot);
            dx += 1;
        }
        r
    }

    /// The curve of the series in a grid of braille characters.
    fn curve(&self, width: u16, height: u16) -> (r: Vec<Vec<char>>)
        requires
            self.drawable(),
            width > 0,
            height > 0,
        ensures
            is_curve(r@, self.shares(), width as int, height as int),
    {
        let xres: usize = 2 * width as usize;
        let yres: u64 = 4 * height as u64;
        let dots = self.dots(xres, yres);
        let ghost data = self.shares();
        let mut grid: Vec<Vec<char>> = Vec::new();
        let mut cy: u16 = 0;
        while cy < height
            invariant
                cy <= height,
                grid@.len() == cy,
                xres == 2 * width,
                yres == 4 * height,
                dots@.len() == xres,
                forall|dx: int|
                    0 <= dx < xres ==> dot_at(data, xres as int, yres as int, dx) == (
                    match #[trigger] dots@[dx] {
                        Some(y) => Some(y as int),
                        None => None::<int>,
                    }),
                forall|k: int| 0 <= k < cy ==> (#[trigger] grid@[k])@.len() == width,
                forall|k: int, cx: int|
                    0 <= k < cy && 0 <= cx < width ==> #[trigger] grid@[k]@[cx] == cell(
                        data,
                        width as int,
                        height as int,
                        cx,
                        k,
                    ),
            decreases height - cy,
        {
            let mut line: Vec<char> = Vec::new();
            let mut cx: u16 = 0;
            while cx < width
                invariant
                    cx <= width,
                    line@.len() == cx,
                    cy < height,
                    xres == 2 * width,
                    yres == 4 * height,
                    dots@.len() == xres,
                    forall|dx: int|
                        0 <= dx < xres ==> dot_at(data, xres as int, yres as int, dx) == (
                        match #[trigger] dots@[dx] {
                            Some(y) => Some(y as int),
                            None => None::<int>,
                        }),
                    forall|k: int|
                        0 <= k < cx ==> #[trigger] line@[k] == cell(
                            data,
                            width as int,
                            height as int,
                            k,
                            cy as int,
                        ),
                decreases width - cx,
            {
                let left: usize = 2 * cx as usize;
                let a: u32 = code_of(dots[left], cy as u64, false);
                let b: u32 = code_of(dots[left + 1], cy as u64, true);
                let ch: char = match char::from_u32(0x2800 + a + b) {
                    Some(c) => c,
                    None => ' ',
                };
                proof {
                    assert(left as int == 2 * cx);
                    assert(column_code(
                        dot_at(data, xres as int, yres as int, 2 * cx),
                        cy as int,
                        false,
                    ) == a);
                    assert(column_code(
                        dot_at(data, xres as int, yres as int, 2 * cx + 1),
                        cy as int,
                        true,
                    ) == b);
                }
                line.push(ch);
                cx += 1;
            }
            grid.push(line);
            cy += 1;
        }
        grid
    }
}

/// The curve of a history of speeds; nothing for an empty area, an empty history
/// or a scale without top.
pub fn draw_waveform(width: u16, height: u16, history: &VecDeque<u64>, max: u64) -> (r: Vec<
    Vec<char>,
>)
    ensures
        is_waveform(r@, count_shares(history@, max), max > 0, width, height),
{
    if width == 0 || height == 0 || history.len() == 0 || max == 0 {
        return Vec::new();
    }
    Series::Counts(history, max).curve(width, height)
}

/// The curve of a history of numbers; nothing for an empty area, an empty history
/// or a scale without top.
pub fn draw_waveform_f(width: u16, height: u16, history: &VecDeque<Double>, max: Double) -> (r: Vec<
    Vec<char>,
>)
    requires
        forall|i: int| 0 <= i < history@.len() ==> (#[trigger] history@[i])@ < double::infinity(),
    ensures
        is_waveform(r@, num_shares(history::nums(history@), max@), max@ > 0, width, height),
{
    if width == 0 || height == 0 || history.len() == 0 || max.is_zero() {
        return Vec::new();
    }
    Series::Numbers(history, max).curve(width, height)
}

// ── Laws ─────────────────────────────────────────────────────────────────────

/// The place of a dot column among the samples, as an exact quotient rounded once.
proof fn lemma_sample_at(n: int, xres: int, dx: int)
    requires
        n >= 1,
        2 <= xres <= 0x20000,
        0 <= dx < xres,
    ensures
        sample_at(n, xres, dx) == double::nearest(
            ((dx * span(n)) as nat * double::one()) * double::one(),
            ((xres - 1) as nat) * double::one(),
        ),
        ((xres - 1) as nat) * double::one() > 0,
        1 <= span(n) < MAX_HISTORY,
{
    let o = double::one();
    let d = dx as nat;
    let sp = span(n) as nat;
    let x = (xres - 1) as nat;
    lemma_pow2_pos(1074);
    rounding::lemma_whole_exact(d, 1);
    rounding::lemma_whole_exact(sp, 1);
    rounding::lemma_whole_exact(x, 1);
    assert(d * sp < 0x20000 * 0x40000) by (nonlinear_arith)
        requires
            d < 0x20000,
            sp < 0x40000,
    ;
    rounding::lemma_whole_exact(d * sp, o);
    assert((d * o) * (sp * o) == ((d * sp) * o) * o) by (nonlinear_arith);
    assert(x * o > 0) by (nonlinear_arith)
        requires
            x > 0,
            o > 0,
    ;
}

/// A column further to the right shows no earlier place.
proof fn lemma_sample_monotone(n: int, xres: int, a: int, b: int)
    requires
        n >= 1,
        2 <= xres <= 0x20000,
        0 <= a <= b < xres,
    ensures
        sample_at(n, xres, a) <= sample_at(n, xres, b),
        double::num_floor(sample_at(n, xres, a)) <= double::num_floor(sample_at(n, xres, b)),
{
    let o = double::one();
    let sp = span(n);
    lemma_sample_at(n, xres, a);
    lemma_sample_at(n, xres, b);
    assert((a * sp) * o * o <= (b * sp) * o * o) by (nonlinear_arith)
        requires
            0 <= a <= b,
            sp >= 1,
    ;
    rounding::lemma_nearest_monotone(
        ((a * sp) as nat * o) * o,
        ((b * sp) as nat * o) * o,
        ((xres - 1) as nat) * o,
    );
    lemma_pow2_pos(1074);
    lemma_div_is_ordered(sample_at(n, xres, a) as int, sample_at(n, xres, b) as int, o as int);
}

/// The last column lies at the last sample shown.
proof fn lemma_last_sample(n: int, xres: int)
    requires
        n >= 1,
        2 <= xres <= 0x20000,
    ensures
        sample_at(n, xres, xres - 1) == span(n) as nat * double::one(),
        double::num_floor(sample_at(n, xres, xres - 1)) == span(n),
        double::num_ceil(sample_at(n, xres, xres - 1)) == span(n),
        sample_at(n, xres, 0) == 0,
        double::num_floor(sample_at(n, xres, 0)) == 0,
        double::num_ceil(sample_at(n, xres, 0)) == 0,
{
    let o = double::one();
    let sp = span(n) as nat;
    let x = (xres - 1) as nat;
    lemma_pow2_pos(1074);
    lemma_sample_at(n, xres, xres - 1);
    lemma_sample_at(n, xres, 0);
    assert(((x * sp) * o) * o == (sp * o) * (x * o)) by (nonlinear_arith);
    rounding::lemma_whole_exact(sp, x * o);
    lemma_div_by_multiple(sp as int, o as int);
    assert(sp * o + o - 1 == o * sp + (o - 1)) by (nonlinear_arith);
    assert(sp * o == o * sp) by (nonlinear_arith);
    lemma_fundamental_div_mod_converse(sp * o + o - 1, o as int, sp as int, o - 1);
    assert((0nat * sp) == 0) by (nonlinear_arith);
    assert(0nat * o == 0) by (nonlinear_arith);
    rounding::lemma_whole_exact(0, x * o);
    assert((0nat * o) * (x * o) == 0) by (nonlinear_arith);
    lemma_basic_div(o - 1, o as int);
    lemma_basic_div(0, o as int);
}

/// Every column of a history of at least two samples shows exactly one dot, and
/// that dot lies within the grid.
pub proof fn law_one_dot_per_column(data: Seq<nat>, xres: int, yres: int, dx: int)
    requires
        data.len() >= 2,
        forall|j: int| 0 <= j < data.len() ==> #[trigger] data[j] <= double::one(),
        2 <= xres <= 0x20000,
        0 < yres < 0x100000,
        0 <= dx < xres,
    ensures
        dot_at(data, xres, yres, dx) matches Some(y) && 0 <= y < yres,
{
    let n = data.len() as int;
    lemma_sample_monotone(n, xres, dx, xres - 1);
    lemma_last_sample(n, xres);
    let i = shown_at(n, xres, dx)->0;
    lemma_smooth(data, i);
    lemma_height(smooth(data, i), yres);
}

/// The columns with a dot have no gap between them.
pub proof fn law_no_gaps(n: int, xres: int, dx: int)
    requires
        n >= 1,
        2 <= xres <= 0x20000,
        0 <= dx,
        dx + 1 < xres,
        shown_at(n, xres, dx + 1) is Some,
    ensures
        shown_at(n, xres, dx) is Some,
{
    lemma_sample_monotone(n, xres, dx, dx + 1);
    let s = sample_at(n, xres, dx + 1);
    lemma_pow2_pos(1074);
    lemma_div_is_ordered(s as int, s + double::one() - 1, double::one() as int);
}

/// The curve fills the width: the oldest sample is shown in the first column and,
/// until the history is full, the newest one in the last.
pub proof fn law_curve_spans_width(n: int, xres: int)
    requires
        2 <= n <= MAX_HISTORY,
        2 <= xres <= 0x20000,
    ensures
        shown_at(n, xres, 0) == Some(0int),
        shown_at(n, xres, xres - 1) == Some(n - 1),
{
    lemma_last_sample(n, xres);
}

/// A larger value is never drawn lower; nothing is drawn at the bottom and the
/// whole scale at the top.
pub proof fn law_height(a: nat, b: nat, yres: int)
    requires
        a <= b <= double::one(),
        0 < yres < 0x100000,
    ensures
        height_of(b, yres) <= height_of(a, yres),
        height_of(0, yres) == yres - 1,
        height_of(double::one(), yres) == 0,
{
    let o = double::one();
    let y = (yres - 1) as nat;
    lemma_pow2_pos(1074);
    rounding::lemma_whole_exact(1, 1);
    rounding::lemma_whole_exact(y, 1);
    lemma_mul_basics(o as int);
    let t = double::num_of(y);
    rounding::lemma_nearest_monotone((o - b) as nat, (o - a) as nat, 1);
    let da = double::num_diff(o, a);
    let db = double::num_diff(o, b);
    assert(db * t <= da * t) by (nonlinear_arith)
        requires
            db <= da,
    ;
    rounding::lemma_nearest_monotone((o - a) as nat, o, 1);
    rounding::lemma_nearest_monotone(db * t, da * t, o);
    let pa = double::num_mul(da, t);
    let pb = double::num_mul(db, t);
    lemma_div_is_ordered((2 * pb + o) as int, (2 * pa + o) as int, (2 * o) as int);
    rounding::lemma_whole_exact(y, o);
    assert(double::num_diff(o, 0) == o);
    assert(o * t == (y * o) * o) by (nonlinear_arith)
        requires
            t == y * o,
    ;
    assert(2 * (y * o) + o == y * (2 * o) + o) by (nonlinear_arith);
    lemma_fundamental_div_mod_converse((2 * (y * o) + o) as int, (2 * o) as int, y as int, o as int);
    rounding::lemma_whole_exact(0, 1);
    rounding::lemma_whole_exact(0, o);
    assert(0nat * o == 0) by (nonlinear_arith);
    assert(double::num_diff(o, o) == 0);
    assert(0nat * t == 0) by (nonlinear_arith);
    assert(double::num_mul(0, t) == 0);
    lemma_basic_div(o as int, (2 * o) as int);
}

} // verus!
