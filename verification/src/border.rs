//! The border of the symbol and its variants: a ring two cells deep whose
//! outer cells carry one binary sequence per side.

use vstd::prelude::*;

use crate::grid::{lemma_cell_inside, lemma_cell_split, lemma_cell_unique};
use crate::image::Image;
use crate::symbol::GRID;

verus! {

/// Luminance of a cell.
#[derive(Clone, Copy, Debug, PartialEq, Eq, Structural)]
pub enum Level {
    Black,
    Grey,
    White,
}

/// How the border is drawn.
#[derive(Clone, Copy, Debug, PartialEq, Eq, Structural)]
pub enum Variant {
    /// Two rings, the inner one the inverse of the outer.
    RingInverted,
    /// Two rings, the inner one a repeat of the outer.
    RingRepeated,
    /// A white ring around a black one.
    SolidEdge,
    /// The inverted rings and a beacon beyond each corner.
    RingBeacons,
    /// The beacons alone.
    BeaconsOnly,
}

/// The sequences of the four sides. The right one runs down, the bottom one
/// to the left and the left one up.
pub struct Sides {
    pub top: Vec<bool>,
    pub right: Vec<bool>,
    pub bottom: Vec<bool>,
    pub left: Vec<bool>,
}

/// Index of the last column and of the last row.
pub const LAST: usize = 60;

impl Sides {
    /// Each side has one value per cell.
    pub open spec fn wf(&self) -> bool {
        &&& self.top@.len() == GRID
        &&& self.right@.len() == GRID
        &&& self.bottom@.len() == GRID
        &&& self.left@.len() == GRID
    }

    /// Whether the outer ring is white in column `x` and row `y`. A corner
    /// belongs to the top before the right, to the right before the bottom
    /// and to the bottom before the left.
    pub open spec fn white(&self, x: int, y: int) -> bool {
        if y == 0 {
            self.top@[x]
        } else if x == LAST {
            self.right@[y]
        } else if y == LAST {
            self.bottom@[LAST - x]
        } else {
            self.left@[LAST - y]
        }
    }

    /// Whether the outer ring is white.
    fn is_white(&self, x: usize, y: usize) -> (r: bool)
        requires
            self.wf(),
            x < GRID,
            y < GRID,
        ensures
            r == self.white(x as int, y as int),
    {
        if y == 0 {
            self.top[x]
        } else if x == LAST {
            self.right[y]
        } else if y == LAST {
            self.bottom[LAST - x]
        } else {
            self.left[LAST - y]
        }
    }
}

/// The cell lies on the outer ring.
pub open spec fn on_outer(x: int, y: int) -> bool {
    x == 0 || y == 0 || x == LAST || y == LAST
}

/// The cell lies on the inner ring.
pub open spec fn on_inner(x: int, y: int) -> bool {
    &&& 1 <= x <= LAST - 1
    &&& 1 <= y <= LAST - 1
    &&& x == 1 || y == 1 || x == LAST - 1 || y == LAST - 1
}

/// The outer cell next to a cell of the inner ring. A corner belongs to the
/// top before the right, to the right before the bottom and to the bottom
/// before the left.
pub open spec fn outward(x: int, y: int) -> (int, int) {
    if y == 1 {
        (x, 0)
    } else if x == LAST - 1 {
        (LAST as int, y)
    } else if y == LAST - 1 {
        (x, LAST as int)
    } else {
        (0, y)
    }
}

/// Black or white.
pub open spec fn painted(white: bool) -> Level {
    if white {
        Level::White
    } else {
        Level::Black
    }
}

/// Luminance of the cell in column `x` and row `y`.
pub open spec fn border_level(variant: Variant, sides: Sides, x: int, y: int) -> Level {
    match variant {
        Variant::BeaconsOnly => Level::Grey,
        Variant::SolidEdge => if on_outer(x, y) {
            Level::White
        } else if on_inner(x, y) {
            Level::Black
        } else {
            Level::Grey
        },
        _ => if on_outer(x, y) {
            painted(sides.white(x, y))
        } else if on_inner(x, y) {
            let (u, v) = outward(x, y);
            painted(sides.white(u, v) != (variant != Variant::RingRepeated))
        } else {
            Level::Grey
        },
    }
}

/// Luminance of one cell.
fn level_at(variant: Variant, sides: &Sides, x: usize, y: usize) -> (r: Level)
    requires
        sides.wf(),
        x < GRID,
        y < GRID,
    ensures
        r == border_level(variant, *sides, x as int, y as int),
{
    let outer: bool = x == 0 || y == 0 || x == LAST || y == LAST;
    let inner: bool = !outer && (x == 1 || y == 1 || x == LAST - 1 || y == LAST - 1);
    match variant {
        Variant::BeaconsOnly => Level::Grey,
        Variant::SolidEdge => {
            if outer {
                Level::White
            } else if inner {
                Level::Black
            } else {
                Level::Grey
            }
        },
        _ => {
            let white: bool = if outer {
                sides.is_white(x, y)
            } else if inner {
                let neighbour: bool = if y == 1 {
                    sides.is_white(x, 0)
                } else if x == LAST - 1 {
                    sides.is_white(LAST, y)
                } else if y == LAST - 1 {
                    sides.is_white(x, LAST)
                } else {
                    sides.is_white(0, y)
                };
                match variant {
                    Variant::RingRepeated => neighbour,
                    _ => !neighbour,
                }
            } else {
                return Level::Grey;
            };
            if white {
                Level::White
            } else {
                Level::Black
            }
        },
    }
}

/// The cells of the border, grey within and without the rings.
pub fn border_cells(variant: Variant, sides: &Sides) -> (img: Image<Level>)
    requires
        sides.wf(),
    ensures
        img.wf(),
        img.w == GRID,
        img.h == GRID,
        forall|x: int, y: int|
            0 <= x < GRID && 0 <= y < GRID ==> #[trigger] img.pixel(x, y) == border_level(
                variant,
                *sides,
                x,
                y,
            ),
{
    let n: usize = GRID * GRID;
    let mut data: Vec<Level> = Vec::new();
    let mut i: usize = 0;
    while i < n
        invariant
            sides.wf(),
            n == GRID * GRID,
            i <= n,
            data@.len() == i,
            forall|c: int|
                0 <= c < i ==> #[trigger] data@[c] == border_level(
                    variant,
                    *sides,
                    c % (GRID as int),
                    c / (GRID as int),
                ),
        decreases n - i,
    {
        proof {
            lemma_cell_split(GRID as int, GRID as int, i as int);
        }
        data.push(level_at(variant, sides, i % GRID, i / GRID));
        i = i + 1;
    }
    let img: Image<Level> = Image { w: GRID, h: GRID, data };
    proof {
        assert forall|x: int, y: int|
            0 <= x < GRID && 0 <= y < GRID implies #[trigger] img.pixel(x, y) == border_level(
            variant,
            *sides,
            x,
            y,
        ) by {
            lemma_cell_inside(GRID as int, GRID as int, x, y);
            lemma_cell_unique(GRID as int, x, y);
            assert(img.data@[y * GRID + x] == border_level(variant, *sides, x, y));
        }
    }
    img
}

/// The border at `cell` pixels per cell, with `pad` grey cells around it.
pub fn render_border(variant: Variant, sides: &Sides, cell: usize, pad: usize) -> (img: Image<Level>)
    requires
        sides.wf(),
        cell >= 1,
        ((GRID + 2 * pad) * cell) * ((GRID + 2 * pad) * cell) <= usize::MAX,
    ensures
        img.wf(),
        img.w == (GRID + 2 * pad) * cell,
        img.h == (GRID + 2 * pad) * cell,
        forall|x: int, y: int|
            0 <= x < img.w && 0 <= y < img.h ==> #[trigger] img.pixel(x, y) == ({
                let cx = x / (cell as int) - pad;
                let cy = y / (cell as int) - pad;
                if 0 <= cx < GRID && 0 <= cy < GRID {
                    border_level(variant, *sides, cx, cy)
                } else {
                    Level::Grey
                }
            }),
{
    let cells: Image<Level> = border_cells(variant, sides);
    let ghost side = (GRID + 2 * pad) * cell;
    assert(GRID + 2 * pad <= side <= side * side) by (nonlinear_arith)
        requires
            side == (GRID + 2 * pad) * cell,
            GRID + 2 * pad >= 1,
            cell >= 1,
    ;
    let img = cells.inflate(cell, pad, Level::Grey);
    proof {
        assert forall|x: int, y: int|
            0 <= x < img.w && 0 <= y < img.h implies #[trigger] img.pixel(x, y) == ({
            let cx = x / (cell as int) - pad;
            let cy = y / (cell as int) - pad;
            if 0 <= cx < GRID && 0 <= cy < GRID {
                border_level(variant, *sides, cx, cy)
            } else {
                Level::Grey
            }
        }) by {
            let cx = x / (cell as int) - pad;
            let cy = y / (cell as int) - pad;
            assert(img.pixel(x, y) == cells.padded(cx, cy, Level::Grey));
            if 0 <= cx < GRID && 0 <= cy < GRID {
                assert(cells.pixel(cx, cy) == border_level(variant, *sides, cx, cy));
            }
        }
    }
    img
}

/// Whether the variant shows beacons.
pub fn has_beacons(variant: Variant) -> (r: bool)
    ensures
        r == (variant == Variant::RingBeacons || variant == Variant::BeaconsOnly),
{
    match variant {
        Variant::RingBeacons => true,
        Variant::BeaconsOnly => true,
        _ => false,
    }
}

/// Cells of the four beacons: two cells out from the corners of the ring, in
/// a canvas with `pad` cells around the grid.
pub fn beacon_cells(pad: usize) -> (r: [(isize, isize); 4])
    requires
        pad + GRID + 1 <= isize::MAX,
    ensures
        r@[0] == ((pad - 2) as isize, (pad - 2) as isize),
        r@[1] == ((pad + GRID + 1) as isize, (pad - 2) as isize),
        r@[2] == ((pad - 2) as isize, (pad + GRID + 1) as isize),
        r@[3] == ((pad + GRID + 1) as isize, (pad + GRID + 1) as isize),
        r@[0].0 + r@[3].0 == 2 * pad + 60,
        r@[0].1 + r@[3].1 == 2 * pad + 60,
        r@[1].0 - r@[0].0 == 64 && r@[1].1 == r@[0].1,
        r@[2].1 - r@[0].1 == 64 && r@[2].0 == r@[0].0,
{
    let lo: isize = pad as isize - 2;
    let hi: isize = (pad + GRID) as isize + 1;
    [(lo, lo), (hi, lo), (lo, hi), (hi, hi)]
}

/// With inverted rings every inner cell is the opposite of its outer neighbour.
pub proof fn lemma_inverted_rings_contrast(variant: Variant, sides: Sides, x: int, y: int)
    requires
        variant == Variant::RingInverted || variant == Variant::RingBeacons,
        on_inner(x, y),
    ensures
        border_level(variant, sides, x, y) != border_level(
            variant,
            sides,
            outward(x, y).0,
            outward(x, y).1,
        ),
        border_level(variant, sides, x, y) != Level::Grey,
{
}

/// With repeated rings every inner cell equals its outer neighbour.
pub proof fn lemma_repeated_rings_agree(sides: Sides, x: int, y: int)
    requires
        on_inner(x, y),
    ensures
        border_level(Variant::RingRepeated, sides, x, y) == border_level(
            Variant::RingRepeated,
            sides,
            outward(x, y).0,
            outward(x, y).1,
        ),
{
}

/// The interior of the symbol stays grey in every variant.
pub proof fn lemma_interior_grey(variant: Variant, sides: Sides, x: int, y: int)
    requires
        2 <= x <= LAST - 2,
        2 <= y <= LAST - 2,
    ensures
        border_level(variant, sides, x, y) == Level::Grey,
{
}

/// A solid edge is a white ring around a black one on all four sides, whatever
/// the sequences of the sides are.
pub proof fn lemma_solid_edge(sides: Sides, other: Sides, k: int)
    requires
        0 <= k <= 60,
    ensures
        border_level(Variant::SolidEdge, sides, k, 0) == Level::White,
        border_level(Variant::SolidEdge, sides, 60, k) == Level::White,
        border_level(Variant::SolidEdge, sides, k, 60) == Level::White,
        border_level(Variant::SolidEdge, sides, 0, k) == Level::White,
        1 <= k <= 59 ==> {
            &&& border_level(Variant::SolidEdge, sides, k, 1) == Level::Black
            &&& border_level(Variant::SolidEdge, sides, 59, k) == Level::Black
            &&& border_level(Variant::SolidEdge, sides, k, 59) == Level::Black
            &&& border_level(Variant::SolidEdge, sides, 1, k) == Level::Black
        },
        forall|x: int, y: int| #[trigger]
            border_level(Variant::SolidEdge, sides, x, y) == border_level(
                Variant::SolidEdge,
                other,
                x,
                y,
            ),
{
}

/// The ring carries the sequences of its sides clockwise on its outer cells:
/// the top from left to right, the right side downwards, the bottom from right
/// to left and the left side upwards, a corner with the side that comes first.
pub proof fn lemma_outer_ring_clockwise(variant: Variant, sides: Sides, k: int)
    requires
        variant != Variant::SolidEdge,
        variant != Variant::BeaconsOnly,
        0 <= k <= 60,
    ensures
        border_level(variant, sides, k, 0) == (if sides.top@[k] {
            Level::White
        } else {
            Level::Black
        }),
        k >= 1 ==> border_level(variant, sides, 60, k) == (if sides.right@[k] {
            Level::White
        } else {
            Level::Black
        }),
        k >= 1 ==> border_level(variant, sides, 60 - k, 60) == (if sides.bottom@[k] {
            Level::White
        } else {
            Level::Black
        }),
        1 <= k <= 59 ==> border_level(variant, sides, 0, 60 - k) == (if sides.left@[k] {
            Level::White
        } else {
            Level::Black
        }),
{
}

/// Every cell of the inner ring is the opposite of the outer cell beyond it,
/// or with repeated rings the same. A corner goes with the top before the
/// right, with the right before the bottom and with the bottom before the left.
pub proof fn lemma_inner_ring_follows(variant: Variant, sides: Sides, k: int)
    requires
        variant != Variant::SolidEdge,
        variant != Variant::BeaconsOnly,
        1 <= k <= 59,
    ensures
        border_level(variant, sides, k, 1) != Level::Grey,
        border_level(variant, sides, 59, k) != Level::Grey,
        border_level(variant, sides, k, 59) != Level::Grey,
        border_level(variant, sides, 1, k) != Level::Grey,
        (border_level(variant, sides, k, 1) == border_level(variant, sides, k, 0)) <==> variant
            == Variant::RingRepeated,
        k >= 2 ==> ((border_level(variant, sides, 59, k) == border_level(variant, sides, 60, k))
            <==> variant == Variant::RingRepeated),
        k <= 58 ==> ((border_level(variant, sides, k, 59) == border_level(variant, sides, k, 60))
            <==> variant == Variant::RingRepeated),
        2 <= k <= 58 ==> ((border_level(variant, sides, 1, k) == border_level(variant, sides, 0, k))
            <==> variant == Variant::RingRepeated),
{
}

/// With beacons alone there is no ring, and the ring with beacons is the
/// inverted ring.
pub proof fn lemma_beacon_rings(sides: Sides, x: int, y: int)
    ensures
        border_level(Variant::BeaconsOnly, sides, x, y) == Level::Grey,
        border_level(Variant::RingBeacons, sides, x, y) == border_level(
            Variant::RingInverted,
            sides,
            x,
            y,
        ),
{
}

} // verus!
