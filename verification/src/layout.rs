//! Areas of the terminal, and how they are divided: margins computed here, splits by
//! Ratatui's layout solver.
use vstd::prelude::*;
use ratatui::layout::{Constraint, Direction, Flex, Layout, Rect};

verus! {

/// A rectangle of terminal cells: its top-left corner and its size.
#[derive(PartialEq, Eq, Structural, Clone, Copy, Debug)]
pub struct Area {
    pub x: u16,
    pub y: u16,
    pub width: u16,
    pub height: u16,
}

/// The direction a split runs in.
#[derive(PartialEq, Eq, Structural, Clone, Copy, Debug)]
pub enum Axis {
    /// Side by side, left to right.
    Horizontal,
    /// Top to bottom.
    Vertical,
}

/// How much room a piece of a split asks for.
#[derive(PartialEq, Eq, Structural, Clone, Copy, Debug)]
pub enum Size {
    /// Exactly this many cells.
    Length(u16),
    /// Whatever is left, shared in proportion to the weight.
    Fill(u16),
}

/// Where pieces go when they leave room to spare.
#[derive(PartialEq, Eq, Structural, Clone, Copy, Debug)]
pub enum Placement {
    Start,
    Center,
    End,
}

/// `a` lies inside `outer`.
pub open spec fn within(outer: Area, a: Area) -> bool {
    &&& outer.x <= a.x
    &&& a.x + a.width <= outer.x + outer.width
    &&& outer.y <= a.y
    &&& a.y + a.height <= outer.y + outer.height
}

/// `p` is a piece of `area` split along `axis`: inside it, and spanning the whole of it across
/// the split (its full width for a split top to bottom, its full height side by side).
pub open spec fn piece_of(area: Area, axis: Axis, p: Area) -> bool {
    &&& within(area, p)
    &&& match axis {
        Axis::Vertical => p.x == area.x && p.width == area.width,
        Axis::Horizontal => p.y == area.y && p.height == area.height,
    }
}

/// Where `a` starts along `axis`.
pub open spec fn start_on(a: Area, axis: Axis) -> int {
    match axis {
        Axis::Vertical => a.y as int,
        Axis::Horizontal => a.x as int,
    }
}

/// How far `a` reaches along `axis`.
pub open spec fn extent_on(a: Area, axis: Axis) -> int {
    match axis {
        Axis::Vertical => a.height as int,
        Axis::Horizontal => a.width as int,
    }
}

/// `a` ends within the cells a `u16` can number, on both axes.
pub open spec fn fits_u16(a: Area) -> bool {
    a.x + a.width <= u16::MAX && a.y + a.height <= u16::MAX
}

/// `area` with its start and extent along `axis` replaced.
pub open spec fn with_span(area: Area, axis: Axis, start: int, len: int) -> Area {
    match axis {
        Axis::Vertical => Area { y: start as u16, height: len as u16, ..area },
        Axis::Horizontal => Area { x: start as u16, width: len as u16, ..area },
    }
}

/// The cells the `Length` sizes ask for, added up.
pub open spec fn lengths_total(sizes: Seq<Size>) -> int
    decreases sizes.len(),
{
    if sizes.len() == 0 {
        0
    } else {
        lengths_total(sizes.drop_last()) + match sizes.last() {
            Size::Length(n) => n as int,
            Size::Fill(_) => 0,
        }
    }
}

/// How many of the sizes are `Fill`.
pub open spec fn fill_count(sizes: Seq<Size>) -> int
    decreases sizes.len(),
{
    if sizes.len() == 0 {
        0
    } else {
        fill_count(sizes.drop_last()) + if sizes.last() is Fill {
            1int
        } else {
            0
        }
    }
}

/// How far piece `i` reaches when each `Length` gets its cells and each `Fill` gets `rest`.
pub open spec fn size_extent(s: Size, rest: int) -> int {
    match s {
        Size::Length(n) => n as int,
        Size::Fill(_) => rest,
    }
}

/// The extents of the pieces before piece `i`, added up.
pub open spec fn extents_before(sizes: Seq<Size>, rest: int, i: int) -> int
    decreases i,
{
    if i <= 0 {
        0
    } else {
        extents_before(sizes, rest, i - 1) + size_extent(sizes[i - 1], rest)
    }
}

/// The room spare pieces leave before them: none at the start, all of it at the end, half of
/// it (the odd cell going first) when centred.
pub open spec fn lead(placement: Placement, spare: int) -> int {
    match placement {
        Placement::Start => 0,
        Placement::End => spare,
        Placement::Center => (spare + 1) / 2,
    }
}

/// The pieces lie back to back along `axis` from `first` cells into `area`, each as far as
/// its size says (a `Fill` taking `rest`), each spanning `area` across `axis`.
pub open spec fn back_to_back(
    area: Area,
    axis: Axis,
    r: Seq<Area>,
    sizes: Seq<Size>,
    first: int,
    rest: int,
) -> bool {
    forall|i: int|
        0 <= i < r.len() ==> #[trigger] r[i] == with_span(
            area,
            axis,
            start_on(area, axis) + first + extents_before(sizes, rest, i),
            size_extent(sizes[i], rest),
        )
}

/// How far the first `i` pieces reach along `axis`, added up.
pub open spec fn pieces_before(r: Seq<Area>, axis: Axis, i: int) -> int
    decreases i,
{
    if i <= 0 {
        0
    } else {
        pieces_before(r, axis, i - 1) + extent_on(r[i - 1], axis)
    }
}

/// The pieces lie back to back along `axis` from the start of `area` and cover it exactly,
/// each spanning it across `axis`.
pub open spec fn tiles(area: Area, axis: Axis, r: Seq<Area>) -> bool {
    &&& forall|i: int|
        0 <= i < r.len() ==> #[trigger] r[i] == with_span(
            area,
            axis,
            start_on(area, axis) + pieces_before(r, axis, i),
            extent_on(r[i], axis),
        )
    &&& pieces_before(r, axis, r.len() as int) == extent_on(area, axis)
}

/// Every `Length` piece got at most its cells, and every `Fill` piece none.
pub open spec fn squeezed(sizes: Seq<Size>, r: Seq<Area>, axis: Axis) -> bool {
    forall|i: int|
        0 <= i < r.len() ==> match sizes[i] {
            Size::Length(n) => extent_on(#[trigger] r[i], axis) <= n,
            Size::Fill(_) => extent_on(r[i], axis) == 0,
        }
}

/// Divides `area` into one piece per size, along `axis`, with spare room placed as
/// `placement` says.
/// Trusted: `ratatui::layout::Layout::split` on a layout of the given direction, constraints
/// (`Constraint::Length`, `Constraint::Fill`) and flex (`Flex::Start`, `Center`, `End`), with no
/// margin and no spacing. Stated, for every outcome:
/// - one piece per constraint, each inside the area and spanning it across the split
///   (`changes_to_rects` copies the area's cross-axis position and size; every edge is held
///   between the area's two ends by a required constraint);
/// - where the `Length`s fit and nothing is `Fill`, each `Length` gets its cells and the
///   pieces lie back to back, at the start, at the end or centred as the flex says: the
///   lengths outweigh every weaker constraint, the spacers between pieces are held at zero,
///   and the flex's spacers share out the rest (`Flex` documents Start, End and Center so);
/// - where the `Length`s fit and exactly one size is `Fill`, the `Fill` takes the rest and
///   the pieces lie back to back from the start (`Flex` documents that a `Fill` takes the
///   excess; its pull outweighs the flex's spacers');
/// - where the `Length`s do not fit, the pieces lie back to back from the start and cover the
///   area, no `Length` gets more than its cells and every `Fill` gets none: a cell short of a
///   `Length` costs more than any weaker pull (a `Fill`'s, the flex's spacers', the equal-size
///   pull between neighbours) can gain, and the spacers between pieces are held at zero;
/// - so a single `Length` longer than the area gets the whole area.
/// All of these hold where the area ends within `u16`; positions are rounded half away from
/// zero, which puts a centred piece's odd spare cell before it. Where the `Length`s do not fit,
/// how the shortfall is shared among them is left unsaid: the solver breaks such ties by the
/// order in which it walks hash maps seeded per process (kasuari's `Solver`, and its own
/// documentation), so the same request need not give the same split in two processes.
#[verifier::external_body]
pub(crate) fn split_area(area: Area, axis: Axis, placement: Placement, sizes: &[Size]) -> (r: Vec<Area>)
    ensures
        r@.len() == sizes@.len(),
        forall|i: int| 0 <= i < r@.len() ==> piece_of(area, axis, #[trigger] r@[i]),
        fits_u16(area) && lengths_total(sizes@) <= extent_on(area, axis) && fill_count(sizes@) == 0
            ==> back_to_back(
            area,
            axis,
            r@,
            sizes@,
            lead(placement, extent_on(area, axis) - lengths_total(sizes@)),
            0,
        ),
        fits_u16(area) && lengths_total(sizes@) <= extent_on(area, axis) && fill_count(sizes@) == 1
            ==> back_to_back(
            area,
            axis,
            r@,
            sizes@,
            0,
            extent_on(area, axis) - lengths_total(sizes@),
        ),
        fits_u16(area) && lengths_total(sizes@) > extent_on(area, axis) ==> tiles(area, axis, r@)
            && squeezed(sizes@, r@, axis),
        fits_u16(area) && sizes@.len() == 1 && sizes@[0] is Length && sizes@[0]->Length_0
            > extent_on(area, axis) ==> r@[0] == area,
{
    let rect = Rect { x: area.x, y: area.y, width: area.width, height: area.height };
    let dir = match axis { Axis::Horizontal => Direction::Horizontal, Axis::Vertical => Direction::Vertical };
    let flex = match placement { Placement::Start => Flex::Start, Placement::Center => Flex::Center, Placement::End => Flex::End };
    let cs = sizes.iter().map(|s| match s { Size::Length(n) => Constraint::Length(*n), Size::Fill(n) => Constraint::Fill(*n) });
    let pieces = Layout::new(dir, cs).flex(flex).split(rect);
    pieces.iter().map(|r| Area { x: r.x, y: r.y, width: r.width, height: r.height }).collect()
}

/// One piece of `length` cells placed in `area` along `axis`, as Ratatui's layout solver
/// places it: `length` cells at the start, at the end or centred (the odd spare cell first)
/// where they fit, the whole area where they do not.
pub open spec fn placed(area: Area, axis: Axis, placement: Placement, length: u16) -> Area {
    if length <= extent_on(area, axis) {
        with_span(
            area,
            axis,
            start_on(area, axis) + lead(placement, extent_on(area, axis) - length),
            length as int,
        )
    } else {
        area
    }
}

/// A piece ends no further than the area it was placed in.
pub proof fn lemma_placed_fits(area: Area, axis: Axis, placement: Placement, length: u16)
    requires
        fits_u16(area),
    ensures
        fits_u16(placed(area, axis, placement, length)),
        within(area, placed(area, axis, placement, length)),
{
}

/// One piece of `length` cells placed in `area` along `axis` by Ratatui's layout solver.
pub fn place(area: Area, axis: Axis, placement: Placement, length: u16) -> (r: Area)
    ensures
        piece_of(area, axis, r),
        fits_u16(area) ==> r == placed(area, axis, placement, length),
{
    let mut sizes: Vec<Size> = Vec::new();
    sizes.push(Size::Length(length));
    let pieces = split_area(area, axis, placement, sizes.as_slice());
    proof {
        let sz = sizes@;
        assert(sz.drop_last() =~= Seq::<Size>::empty());
        assert(sz.last() == Size::Length(length));
        assert(lengths_total(sz.drop_last()) == 0);
        assert(fill_count(sz.drop_last()) == 0);
        assert(lengths_total(sz) == length);
        assert(fill_count(sz) == 0);
        assert(extents_before(sz, 0, 0) == 0);
    }
    pieces[0]
}

/// `area` shrunk by `horizontal` cells on the left and right and `vertical` cells on the top
/// and bottom; nothing at all where the margins do not fit. This is `Rect::inner` with a
/// `Margin`.
pub open spec fn inner_spec(a: Area, horizontal: u16, vertical: u16) -> Area {
    let dh = if 2 * horizontal > u16::MAX {
        u16::MAX as int
    } else {
        2 * horizontal
    };
    let dv = if 2 * vertical > u16::MAX {
        u16::MAX as int
    } else {
        2 * vertical
    };
    if a.width < dh || a.height < dv {
        Area { x: 0, y: 0, width: 0, height: 0 }
    } else {
        Area {
            x: if a.x + horizontal > u16::MAX {
                u16::MAX
            } else {
                (a.x + horizontal) as u16
            },
            y: if a.y + vertical > u16::MAX {
                u16::MAX
            } else {
                (a.y + vertical) as u16
            },
            width: (a.width - dh) as u16,
            height: (a.height - dv) as u16,
        }
    }
}

pub fn inner(a: Area, horizontal: u16, vertical: u16) -> (r: Area)
    ensures
        r == inner_spec(a, horizontal, vertical),
{
    let dh: u16 = if horizontal > u16::MAX / 2 {
        u16::MAX
    } else {
        horizontal * 2
    };
    let dv: u16 = if vertical > u16::MAX / 2 {
        u16::MAX
    } else {
        vertical * 2
    };
    if a.width < dh || a.height < dv {
        Area { x: 0, y: 0, width: 0, height: 0 }
    } else {
        Area {
            x: a.x.saturating_add(horizontal),
            y: a.y.saturating_add(vertical),
            width: a.width - dh,
            height: a.height - dv,
        }
    }
}

/// `a + b`, stopping at `u16::MAX`.
pub open spec fn sat_add(a: u16, b: u16) -> u16 {
    if a + b > u16::MAX {
        u16::MAX
    } else {
        (a + b) as u16
    }
}

/// The inside of a block with a border on all four sides: one cell in from each edge, the
/// size never below zero and the corner never past the far edge. This is `Block::inner` for
/// `Block::bordered()` with no padding.
pub open spec fn bordered_inner_spec(a: Area) -> Area {
    let x = if sat_add(a.x, 1) <= sat_add(a.x, a.width) {
        sat_add(a.x, 1)
    } else {
        sat_add(a.x, a.width)
    };
    let y = if sat_add(a.y, 1) <= sat_add(a.y, a.height) {
        sat_add(a.y, 1)
    } else {
        sat_add(a.y, a.height)
    };
    Area {
        x,
        y,
        width: if a.width >= 2 { (a.width - 2) as u16 } else { 0 },
        height: if a.height >= 2 { (a.height - 2) as u16 } else { 0 },
    }
}

pub fn bordered_inner(a: Area) -> (r: Area)
    ensures
        r == bordered_inner_spec(a),
{
    let right = a.x.saturating_add(a.width);
    let bottom = a.y.saturating_add(a.height);
    let x1 = a.x.saturating_add(1);
    let y1 = a.y.saturating_add(1);
    Area {
        x: if x1 <= right { x1 } else { right },
        y: if y1 <= bottom { y1 } else { bottom },
        width: a.width.saturating_sub(1).saturating_sub(1),
        height: a.height.saturating_sub(1).saturating_sub(1),
    }
}

} // verus!
