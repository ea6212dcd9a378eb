//! Areas of the screen.

use vstd::prelude::*;

verus! {

/// A rectangle of character cells.
#[derive(Clone, Copy, Debug, PartialEq, Eq, Structural)]
pub struct Area {
    /// First column.
    pub x: u16,
    /// First row.
    pub y: u16,
    /// Number of columns.
    pub width: u16,
    /// Number of rows.
    pub height: u16,
}

/// The direction in which areas follow each other.
#[derive(Clone, Copy, Debug, PartialEq, Eq, Structural)]
pub enum Axis {
    /// From left to right.
    Horizontal,
    /// From top to bottom.
    Vertical,
}

/// How much room a part of an area wants.
#[derive(Clone, Copy, Debug, PartialEq, Eq, Structural)]
pub enum Sizing {
    /// So many cells.
    Length(u16),
    /// So many cells, and what is left over.
    Min(u16),
}

/// The sum, or the largest number where it lies beyond.
pub open spec fn sat_add(a: u16, b: u16) -> u16 {
    if a + b > u16::MAX {
        u16::MAX
    } else {
        (a + b) as u16
    }
}

/// The difference, or zero where it would be negative.
pub open spec fn less(a: u16, b: u16) -> u16 {
    if a > b {
        (a - b) as u16
    } else {
        0
    }
}

/// The smaller of two.
pub open spec fn lower_of(a: u16, b: u16) -> u16 {
    if a < b {
        a
    } else {
        b
    }
}

/// The area within a border.
pub open spec fn framed(a: Area) -> Area {
    Area {
        x: lower_of(sat_add(a.x, 1), sat_add(a.x, a.width)),
        y: lower_of(sat_add(a.y, 1), sat_add(a.y, a.height)),
        width: less(a.width, 2),
        height: less(a.height, 2),
    }
}

/// The area within a margin; an empty one at the origin where there is no room.
pub open spec fn inset(a: Area, margin: u16) -> Area {
    let twice = sat_add(margin, margin);
    if a.width < twice || a.height < twice {
        Area { x: 0, y: 0, width: 0, height: 0 }
    } else {
        Area {
            x: sat_add(a.x, margin),
            y: sat_add(a.y, margin),
            width: (a.width - twice) as u16,
            height: (a.height - twice) as u16,
        }
    }
}

/// Where an area begins along an axis.
pub open spec fn start(a: Area, axis: Axis) -> u16 {
    match axis {
        Axis::Horizontal => a.x,
        Axis::Vertical => a.y,
    }
}

/// Where an area ends along an axis.
pub open spec fn end(a: Area, axis: Axis) -> u16 {
    match axis {
        Axis::Horizontal => sat_add(a.x, a.width),
        Axis::Vertical => sat_add(a.y, a.height),
    }
}

/// The part of `a` from `from` on that is `size` long.
pub open spec fn part(a: Area, axis: Axis, from: u16, size: u16) -> Area {
    match axis {
        Axis::Horizontal => Area { x: from, width: size, ..a },
        Axis::Vertical => Area { y: from, height: size, ..a },
    }
}

/// Whether `p` is a part of `a` along an axis.
pub open spec fn is_part(a: Area, axis: Axis, p: Area) -> bool {
    &&& p == part(a, axis, start(p, axis), match axis {
        Axis::Horizontal => p.width,
        Axis::Vertical => p.height,
    })
    &&& start(a, axis) <= start(p, axis)
    &&& end(p, axis) <= end(a, axis)
    &&& match axis {
        Axis::Horizontal => p.x + p.width <= u16::MAX,
        Axis::Vertical => p.y + p.height <= u16::MAX,
    }
}

/// How long an area is along an axis.
pub open spec fn length(a: Area, axis: Axis) -> u16 {
    match axis {
        Axis::Horizontal => a.width,
        Axis::Vertical => a.height,
    }
}

/// What the first `n` parts of fixed length want.
pub open spec fn fixed(sizes: Seq<Sizing>, n: int) -> int
    decreases n,
{
    if n <= 0 {
        0
    } else {
        fixed(sizes, n - 1) + match sizes[n - 1] {
            Sizing::Length(k) => k as int,
            Sizing::Min(_) => 0int,
        }
    }
}

/// What the first `n` parts that grow want at least.
pub open spec fn least(sizes: Seq<Sizing>, n: int) -> int
    decreases n,
{
    if n <= 0 {
        0
    } else {
        least(sizes, n - 1) + match sizes[n - 1] {
            Sizing::Length(_) => 0int,
            Sizing::Min(k) => k as int,
        }
    }
}

/// How many of the first `n` parts grow.
pub open spec fn growing(sizes: Seq<Sizing>, n: int) -> int
    decreases n,
{
    if n <= 0 {
        0
    } else {
        growing(sizes, n - 1) + match sizes[n - 1] {
            Sizing::Length(_) => 0int,
            Sizing::Min(_) => 1int,
        }
    }
}

/// What all parts want together.
pub open spec fn wanted(sizes: Seq<Sizing>) -> int {
    fixed(sizes, sizes.len() as int) + least(sizes, sizes.len() as int)
}

/// Whether a part that wants `size` may be `got` long in so much room, counted in
/// the `unit`th part of a cell. Where all find room, fixed lengths are met and the
/// others get at least what they want. Where only the latter do, they get just
/// that and the fixed lengths give way. With less room than that, nothing is left
/// for the fixed lengths.
pub open spec fn may_get(
    room: int,
    sizes: Seq<Sizing>,
    size: Sizing,
    unit: int,
    got: int,
) -> bool {
    match size {
        Sizing::Length(k) => if wanted(sizes) <= room {
            got == unit * k
        } else if least(sizes, sizes.len() as int) <= room {
            0 <= got <= unit * k
        } else {
            got == 0
        },
        Sizing::Min(k) => if wanted(sizes) <= room {
            got >= unit * k
        } else if least(sizes, sizes.len() as int) <= room {
            got == unit * k
        } else {
            0 <= got <= unit * k
        },
    }
}

/// Whether all parts find room and those that grow can share evenly what the
/// fixed lengths leave.
pub open spec fn even(room: int, sizes: Seq<Sizing>) -> bool {
    let n = sizes.len() as int;
    &&& wanted(sizes) <= room
    &&& forall|i: int|
        0 <= i < n ==> match #[trigger] sizes[i] {
            Sizing::Length(_) => true,
            Sizing::Min(k) => k * growing(sizes, n) <= room - fixed(sizes, n),
        }
}

/// How far the first `i` parts reach where the rest is shared evenly, to the
/// nearest cell.
pub open spec fn reach(room: int, sizes: Seq<Sizing>, i: int) -> int {
    let n = sizes.len() as int;
    let m = growing(sizes, n);
    fixed(sizes, i) + if m > 0 {
        (2 * (growing(sizes, i) * (room - fixed(sizes, n))) + m) / (2 * m)
    } else {
        0
    }
}

/// Into how many shares a cell is divided: every number up to sixteen divides it,
/// so that as many parts can share a cell evenly.
pub open spec fn shares() -> int {
    720720
}

/// The first `n` numbers together.
pub open spec fn sum(t: Seq<int>, n: int) -> int
    decreases n,
{
    if n <= 0 {
        0
    } else {
        sum(t, n - 1) + t[n - 1]
    }
}

/// The difference of two numbers.
pub open spec fn gap(a: int, b: int) -> int {
    if a < b {
        b - a
    } else {
        a - b
    }
}

/// The differences between neighbours among the first `n` numbers, together.
pub open spec fn neighbour_gaps(t: Seq<int>, n: int) -> int
    decreases n,
{
    if n <= 1 {
        0
    } else {
        neighbour_gaps(t, n - 1) + gap(t[n - 2], t[n - 1])
    }
}

/// The differences between `x` and those of the first `n` numbers that belong to
/// parts that grow, together.
pub open spec fn gaps_to(sizes: Seq<Sizing>, t: Seq<int>, x: int, n: int) -> int
    decreases n,
{
    if n <= 0 {
        0
    } else {
        gaps_to(sizes, t, x, n - 1) + match sizes[n - 1] {
            Sizing::Length(_) => 0int,
            Sizing::Min(_) => gap(t[n - 1], x),
        }
    }
}

/// The differences between any two parts that grow among the first `n`, together.
pub open spec fn growing_gaps(sizes: Seq<Sizing>, t: Seq<int>, n: int) -> int
    decreases n,
{
    if n <= 0 {
        0
    } else {
        growing_gaps(sizes, t, n - 1) + match sizes[n - 1] {
            Sizing::Length(_) => 0int,
            Sizing::Min(_) => gaps_to(sizes, t, t[n - 1], n - 1),
        }
    }
}

/// How uneven a division is. What counts is how much neighbours differ where fixed
/// lengths give way, and else how much the parts that grow differ.
pub open spec fn unevenness(room: int, sizes: Seq<Sizing>, t: Seq<int>) -> int {
    let n = sizes.len() as int;
    if least(sizes, n) <= room < wanted(sizes) {
        neighbour_gaps(t, n)
    } else {
        growing_gaps(sizes, t, n)
    }
}

/// Whether parts of `t` shares fill the room and each may be as long as that.
pub open spec fn fills(room: int, sizes: Seq<Sizing>, t: Seq<int>) -> bool {
    &&& t.len() == sizes.len()
    &&& forall|i: int|
        0 <= i < t.len() ==> may_get(room, sizes, sizes[i], shares(), #[trigger] t[i])
    &&& sum(t, t.len() as int) == shares() * room
}

/// Whether no division of the room is more even than `t`.
pub open spec fn is_best(room: int, sizes: Seq<Sizing>, t: Seq<int>) -> bool {
    &&& fills(room, sizes, t)
    &&& forall|other: Seq<int>| #[trigger]
        fills(room, sizes, other) ==> unevenness(room, sizes, t) <= unevenness(room, sizes, other)
}

/// The cell nearest to so many shares, the upper one of two.
pub open spec fn cell(x: int) -> int {
    (2 * x + shares()) / (2 * shares())
}

/// Whether the parts begin at the cells that are nearest to a most even division.
pub open spec fn is_even_split(a: Area, axis: Axis, sizes: Seq<Sizing>, parts: Seq<Area>) -> bool {
    let room = end(a, axis) - start(a, axis);
    exists|t: Seq<int>| #[trigger]
        is_best(room, sizes, t) && forall|i: int|
            0 <= i < parts.len() ==> start(#[trigger] parts[i], axis) == start(a, axis) + cell(
                sum(t, i),
            )
}

/// Whether `parts` may come from dividing `a`: there is one part for every wish,
/// the parts follow each other from the start of the area, they reach its end
/// where one of them grows or there is not too much room, each gets what the room
/// allows, and of the divisions that this leaves it is a most even one.
pub open spec fn is_split(a: Area, axis: Axis, sizes: Seq<Sizing>, parts: Seq<Area>) -> bool {
    let room = end(a, axis) - start(a, axis);
    let n = sizes.len() as int;
    &&& parts.len() == n
    &&& forall|i: int| 0 <= i < n ==> is_part(a, axis, #[trigger] parts[i])
    &&& n > 0 ==> start(parts[0], axis) == start(a, axis)
    &&& forall|i: int, j: int|
        0 <= i && j == i + 1 && j < n ==> start(#[trigger] parts[j], axis) == end(
            #[trigger] parts[i],
            axis,
        )
    &&& n > 0 && (growing(sizes, n) > 0 || wanted(sizes) >= room) ==> end(parts[n - 1], axis)
        == end(a, axis)
    &&& forall|i: int|
        0 <= i < n ==> may_get(
            room,
            sizes,
            sizes[i],
            1,
            length(#[trigger] parts[i], axis) as int,
        )
    &&& even(room, sizes) ==> forall|i: int|
        0 <= i < n ==> #[trigger] parts[i] == part(
            a,
            axis,
            (start(a, axis) + reach(room, sizes, i)) as u16,
            (reach(room, sizes, i + 1) - reach(room, sizes, i)) as u16,
        )
    &&& n > 0 && (growing(sizes, n) > 0 || wanted(sizes) >= room) ==> is_even_split(
        a,
        axis,
        sizes,
        parts,
    )
}

/// Whether a list of wishes is short enough for the strengths of the solver to
/// keep their order: at most sixteen parts of which at most eight grow, and no
/// least size beyond the range in which it is compared.
pub open spec fn in_scope(sizes: Seq<Sizing>) -> bool {
    &&& sizes.len() <= 16
    &&& growing(sizes, sizes.len() as int) <= 8
    &&& forall|i: int|
        0 <= i < sizes.len() ==> match #[trigger] sizes[i] {
            Sizing::Length(_) => true,
            Sizing::Min(k) => k <= 0x7fff,
        }
}

/// No more parts grow than there are, and none where all lengths are fixed.
pub proof fn lemma_growing(sizes: Seq<Sizing>, n: int)
    requires
        0 <= n <= sizes.len(),
    ensures
        0 <= growing(sizes, n) <= n,
        (forall|i: int| 0 <= i < n ==> #[trigger] sizes[i] is Length) ==> growing(sizes, n) == 0,
    decreases n,
{
    if n > 0 {
        lemma_growing(sizes, n - 1);
    }
}

/// Whole cells are their own nearest ones.
pub proof fn lemma_cell(n: int)
    ensures
        cell(shares() * n) == n,
{
}

/// Of three fixed lengths that do not find room, the middle one alone gives way as
/// long as it is not shorter than the others.
pub proof fn lemma_middle_yields(
    a: Area,
    axis: Axis,
    x: u16,
    y: u16,
    z: u16,
    parts: Seq<Area>,
)
    requires
        is_split(
            a,
            axis,
            seq![Sizing::Length(x), Sizing::Length(y), Sizing::Length(z)],
            parts,
        ),
        x + x + z <= end(a, axis) - start(a, axis) <= x + y + z,
        x + z + z <= end(a, axis) - start(a, axis),
    ensures
        ({
            let room = end(a, axis) - start(a, axis);
            &&& parts[0] == part(a, axis, start(a, axis), x)
            &&& parts[1] == part(a, axis, (start(a, axis) + x) as u16, (room - x - z) as u16)
            &&& parts[2] == part(a, axis, (start(a, axis) + room - z) as u16, z)
        }),
{
    let sizes = seq![Sizing::Length(x), Sizing::Length(y), Sizing::Length(z)];
    let room = end(a, axis) - start(a, axis);
    let q = shares();
    reveal_with_fuel(fixed, 4);
    reveal_with_fuel(least, 4);
    reveal_with_fuel(growing, 4);
    reveal_with_fuel(sum, 4);
    reveal_with_fuel(neighbour_gaps, 4);
    let t = choose|t: Seq<int>| #[trigger]
        is_best(room, sizes, t) && forall|i: int|
            0 <= i < parts.len() ==> start(#[trigger] parts[i], axis) == start(a, axis) + cell(
                sum(t, i),
            );
    assert(is_best(room, sizes, t));
    assert(may_get(room, sizes, sizes[0], q, t[0]));
    assert(may_get(room, sizes, sizes[1], q, t[1]));
    assert(may_get(room, sizes, sizes[2], q, t[2]));
    if room < x + y + z {
        let other = seq![q * x, q * (room - x - z), q * z];
        assert(fills(room, sizes, other));
        assert(neighbour_gaps(t, 3) <= neighbour_gaps(other, 3));
    }
    assert(t[0] == q * x && t[2] == q * z);
    lemma_cell(x as int);
    lemma_cell(room - z);
    assert(start(parts[1], axis) == start(a, axis) + cell(sum(t, 1)));
    assert(start(parts[2], axis) == start(a, axis) + cell(sum(t, 2)));
    assert(is_part(a, axis, parts[0]) && is_part(a, axis, parts[1]) && is_part(a, axis, parts[2]));
}

/// `ratatui::layout::Layout::split` divides the area within a margin. It returns
/// one part per constraint, each with the extent of that area across the axis.
/// The parts follow each other without gaps from the start of the area. Least
/// sizes go before fixed lengths, which go before growing: where all constraints
/// can be met they are, and the parts that grow share what is left evenly, to the
/// nearest cell; where they cannot, the parts fill the area, the least sizes are
/// met exactly and the fixed lengths give way, and where even the least sizes do
/// not find room nothing is left for the fixed lengths. What these wishes leave
/// undecided goes to the weaker ones: parts that grow want to be as long as each
/// other, and neighbours want to be as long as each other. So where the parts fill
/// the area they begin at the cells nearest to a division in which the parts that
/// grow, or where fixed lengths give way the neighbours, differ least in total.
///
/// Left unsaid: which one it is where several divisions are equally even, as there
/// can be where several fixed lengths give way. The solver then takes any of them.
#[verifier::external_body]
pub(crate) fn split(area: Area, axis: Axis, margin: u16, sizes: &Vec<Sizing>) -> (r: Vec<Area>)
    requires
        in_scope(sizes@),
    ensures
        is_split(inset(area, margin), axis, sizes@, r@),
{
    let direction = match axis {
        Axis::Horizontal => ratatui::layout::Direction::Horizontal,
        Axis::Vertical => ratatui::layout::Direction::Vertical,
    };
    let constraints = sizes.iter().map(|s| match *s {
        Sizing::Length(n) => ratatui::layout::Constraint::Length(n),
        Sizing::Min(n) => ratatui::layout::Constraint::Min(n),
    });
    let layout = ratatui::layout::Layout::new(direction, constraints).margin(margin);
    let rects = layout.split(
        ratatui::layout::Rect { x: area.x, y: area.y, width: area.width, height: area.height },
    );
    rects.iter().map(|p| Area { x: p.x, y: p.y, width: p.width, height: p.height }).collect()
}

/// `ratatui::widgets::Block::inner`, for a block with all four borders, takes one
/// cell off each side: the first column and row move on by one but not beyond the
/// end of the area, and width and height shrink by two but not below zero.
#[verifier::external_body]
pub(crate) fn within_borders(area: Area) -> (r: Area)
    ensures
        r == framed(area),
{
    let block = ratatui::widgets::Block::default().borders(ratatui::widgets::Borders::ALL);
    let p = block.inner(
        ratatui::layout::Rect { x: area.x, y: area.y, width: area.width, height: area.height },
    );
    Area { x: p.x, y: p.y, width: p.width, height: p.height }
}

} // verus!
