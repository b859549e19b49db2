//! Where the popups go on the screen.

use vstd::prelude::*;
use ratatui::layout::{Constraint, Direction, Layout, Rect};

verus! {

/// A rectangle of the terminal: x, y, width, height.
pub type Area = (u16, u16, u16, u16);

/// Which way an area is split.
#[derive(Clone, Copy, PartialEq, Eq, Structural, Debug)]
pub enum Axis {
    /// Into rows, one above the other.
    Vertical,
    /// Into columns, side by side.
    Horizontal,
}

/// The area as ratatui's `Rect::new` keeps it: the width and the height
/// are cut so that the rectangle ends within the `u16` range.
pub open spec fn on_screen(a: Area) -> Area {
    (
        a.0,
        a.1,
        if a.2 > u16::MAX - a.0 { (u16::MAX - a.0) as u16 } else { a.2 },
        if a.3 > u16::MAX - a.1 { (u16::MAX - a.1) as u16 } else { a.3 },
    )
}

/// `p` lies inside `a`.
pub open spec fn within(p: Area, a: Area) -> bool {
    &&& a.0 <= p.0
    &&& p.0 + p.2 <= a.0 + a.2
    &&& a.1 <= p.1
    &&& p.1 + p.3 <= a.1 + a.3
}

/// A part of a split of `area` along `axis`: it lies inside the area and
/// spans the whole area across the split.
pub open spec fn split_part(p: Area, area: Area, axis: Axis) -> bool {
    let a = on_screen(area);
    &&& within(p, a)
    &&& match axis {
        Axis::Vertical => p.0 == a.0 && p.2 == a.2,
        Axis::Horizontal => p.1 == a.1 && p.3 == a.3,
    }
}

/// The sum of the first `k` percentages.
pub open spec fn percent_sum(ps: Seq<u16>, k: int) -> int
    decreases k,
{
    if k <= 0 || k > ps.len() {
        0
    } else {
        percent_sum(ps, k - 1) + ps[k - 1]
    }
}

/// Where a rectangle starts along `axis`, and how long it is there.
pub open spec fn along(p: Area, axis: Axis) -> (int, int) {
    match axis {
        Axis::Vertical => (p.1 as int, p.3 as int),
        Axis::Horizontal => (p.0 as int, p.2 as int),
    }
}

/// The cell `cell` is less than one cell away from the point `pct` percent
/// of the way along a side of `side` cells that starts at `start`.
pub open spec fn near(cell: int, start: int, side: int, pct: int) -> bool {
    -100 < 100 * cell - (100 * start + side * pct) < 100
}

/// Part `i` of a split of `a` along `axis` by `ps`: it begins less than a
/// cell from the point that the percentages before it reach, and ends less
/// than a cell from the point that its own percentage reaches.
pub open spec fn placed(p: Area, a: Area, axis: Axis, ps: Seq<u16>, i: int) -> bool {
    let (s, len) = along(p, axis);
    let (a0, side) = along(a, axis);
    &&& near(s, a0, side, percent_sum(ps, i))
    &&& near(s + len, a0, side, percent_sum(ps, i + 1))
}

/// `ratatui::layout::Layout::split` on percentage constraints, with no
/// margin and the default `Flex::Start`. Its contract claims one part per
/// percentage, each inside the area and spanning it across the split.
/// When the percentages add up to at most 100, it also claims that the
/// parts follow one another from the start of the side, each its
/// percentage of the side, to within a cell: the percentage constraints
/// are strong, the spacers between parts are held at zero, and only the
/// last spacer grows; the solver works in floating point and the bounds
/// are rounded to cells. On which side of a half cell a bound is rounded
/// is not stated.
#[verifier::external_body]
fn split_percent(area: Area, axis: Axis, percents: &Vec<u16>) -> (r: Vec<Area>)
    ensures
        r@.len() == percents@.len(),
        forall|i: int| 0 <= i < r@.len() ==> split_part(#[trigger] r@[i], area, axis),
        percent_sum(percents@, percents@.len() as int) <= 100 ==> forall|i: int|
            0 <= i < r@.len() ==> placed(#[trigger] r@[i], on_screen(area), axis, percents@, i),
{
    let direction = match axis {
        Axis::Vertical => Direction::Vertical,
        Axis::Horizontal => Direction::Horizontal,
    };
    let rects = Layout::default()
        .direction(direction)
        .constraints(percents.iter().map(|p| Constraint::Percentage(*p)))
        .split(Rect::new(area.0, area.1, area.2, area.3));
    rects.iter().map(|r| (r.x, r.y, r.width, r.height)).collect()
}

/// The three percentages that center a part of `p` percent.
pub open spec fn centered_percents(p: u16) -> Seq<u16> {
    seq![((100 - p) / 2) as u16, p, ((100 - p) / 2) as u16]
}

/// The percentages handed to the layout solver to center a part of `p`
/// percent: equal margins around it.
pub fn centering_percents(p: u16) -> (r: Vec<u16>)
    requires
        p <= 100,
    ensures
        r@ == centered_percents(p),
{
    let margin = (100 - p) / 2;
    let r = vec![margin, p, margin];
    assert(r@ =~= centered_percents(p));
    r
}

/// A stretch of `len` cells from `s` that is centred on a side of `side`
/// cells from `a0` and takes `p` percent of it: it begins less than a cell
/// from `(100 - p) / 2` percent of the side, and ends less than a cell from
/// `(100 - p) / 2 + p` percent of it.
pub open spec fn centered_along(s: int, len: int, a0: int, side: int, p: u16) -> bool {
    let m = (100 - p) / 2;
    &&& near(s, a0, side, m)
    &&& near(s + len, a0, side, m + p)
}

/// The middle part of `area`, `percent_x` percent wide and `percent_y`
/// percent high: the middle row of a vertical split by
/// `centered_percents(percent_y)`, then the middle column of a horizontal
/// split of that row by `centered_percents(percent_x)`. It lies inside the
/// area and is centred in it, to within a cell.
pub fn centered_rect(percent_x: u16, percent_y: u16, area: Area) -> (r: Area)
    requires
        percent_x <= 100,
        percent_y <= 100,
    ensures
        within(r, on_screen(area)),
        centered_along(r.0 as int, r.2 as int, on_screen(area).0 as int, on_screen(area).2 as int, percent_x),
        centered_along(r.1 as int, r.3 as int, on_screen(area).1 as int, on_screen(area).3 as int, percent_y),
{
    let ghost a = on_screen(area);
    let py = centering_percents(percent_y);
    proof {
        reveal_with_fuel(percent_sum, 4);
    }
    let vert = split_percent(area, Axis::Vertical, &py);
    let row = vert[1];
    assert(split_part(vert@[1], area, Axis::Vertical));
    assert(placed(vert@[1], a, Axis::Vertical, py@, 1));
    assert(on_screen(row) == row);
    let px = centering_percents(percent_x);
    let horiz = split_percent(row, Axis::Horizontal, &px);
    assert(split_part(horiz@[1], row, Axis::Horizontal));
    assert(placed(horiz@[1], row, Axis::Horizontal, px@, 1));
    horiz[1]
}

} // verus!
