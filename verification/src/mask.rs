//! Supports of correlation templates. A template covers a rectangle, all of it
//! or without a rectangular hole; the sums of the denominator are taken over
//! the rectangle less the hole, so support and hole have to match exactly.

use vstd::prelude::*;

use crate::grid::{lemma_cell_split, lemma_cell_unique};
use crate::sums::{lemma_sum_split, sum_range};

verus! {

/// Shape of the support of a template.
#[derive(Clone, Copy, Debug, PartialEq, Eq, Structural)]
pub enum Mask {
    /// The whole rectangle.
    Box,
    /// A frame, `off` pixels deep.
    Ring { off: usize },
    /// A corner: strips `off` pixels deep along the upper and the left edge.
    Corner { off: usize },
}

/// `a - b`, but not below zero.
pub open spec fn excess(a: int, b: int) -> int {
    if a > b {
        a - b
    } else {
        0
    }
}

impl Mask {
    /// The pixel belongs to the support in a rectangle `tw` wide and `th` high.
    pub open spec fn covers(self, px: int, py: int, tw: int, th: int) -> bool {
        match self {
            Mask::Box => true,
            Mask::Ring { off } => px < off || py < off || px + off >= tw || py + off >= th,
            Mask::Corner { off } => px < off || py < off,
        }
    }

    /// The hole: its corner, width and height.
    pub open spec fn hole_rect(self, tw: int, th: int) -> (int, int, int, int) {
        match self {
            Mask::Box => (0, 0, 0, 0),
            Mask::Ring { off } => (
                off as int,
                off as int,
                excess(tw, 2 * off),
                excess(th, 2 * off),
            ),
            Mask::Corner { off } => (off as int, off as int, excess(tw, off as int), excess(
                th,
                off as int,
            )),
        }
    }

    /// Whether a pixel belongs to the support.
    pub fn keeps(self, px: usize, py: usize, tw: usize, th: usize) -> (r: bool)
        ensures
            r == self.covers(px as int, py as int, tw as int, th as int),
    {
        match self {
            Mask::Box => true,
            Mask::Ring { off } => px < off || py < off || tw <= px || th <= py || tw - px <= off
                || th - py <= off,
            Mask::Corner { off } => px < off || py < off,
        }
    }

    /// The hole in the support, if it has one by its shape.
    pub fn hole(self, tw: usize, th: usize) -> (r: Option<(usize, usize, usize, usize)>)
        requires
            self matches Mask::Ring { off } ==> 2 * off <= usize::MAX,
        ensures
            r is None <==> self == Mask::Box,
            r matches Some(h) ==> (h.0 as int, h.1 as int, h.2 as int, h.3 as int)
                == self.hole_rect(tw as int, th as int),
    {
        match self {
            Mask::Box => None,
            Mask::Ring { off } => Some(
                (off, off, tw.saturating_sub(2 * off), th.saturating_sub(2 * off)),
            ),
            Mask::Corner { off } => Some((off, off, tw.saturating_sub(off), th.saturating_sub(off))),
        }
    }
}

/// The cell lies in the rectangle with corner `(dx, dy)`.
pub open spec fn in_rect(x: int, y: int, rect: (int, int, int, int)) -> bool {
    rect.0 <= x < rect.0 + rect.2 && rect.1 <= y < rect.1 + rect.3
}

/// A pixel of the rectangle belongs to the support exactly when it is not in the hole.
pub proof fn lemma_hole_is_complement(mask: Mask, px: int, py: int, tw: int, th: int)
    requires
        0 <= px < tw,
        0 <= py < th,
    ensures
        mask.covers(px, py, tw, th) <==> !in_rect(px, py, mask.hole_rect(tw, th)),
{
}

/// Number of pixels of the support.
pub open spec fn support_size(mask: Mask, tw: int, th: int) -> int {
    sum_range(
        0,
        (tw * th) as nat,
        |c: int|
            if mask.covers(c % tw, c / tw, tw, th) {
                1
            } else {
                0
            },
    )
}

/// Cells of one row in a rectangle.
proof fn lemma_row_in_rect(w: int, y: int, n: nat, rect: (int, int, int, int))
    requires
        0 <= n <= w,
        0 <= rect.0,
        0 <= rect.2,
        rect.2 == 0 || rect.0 + rect.2 <= w,
    ensures
        ({
            let f = |c: int|
                if in_rect(c % w, c / w, rect) {
                    1int
                } else {
                    0
                };
            sum_range(y * w, n, f) == if rect.1 <= y < rect.1 + rect.3 {
                if n < rect.0 {
                    0
                } else if n < rect.0 + rect.2 {
                    n - rect.0
                } else {
                    rect.2
                }
            } else {
                0
            }
        }),
    decreases n,
{
    if n > 0 {
        lemma_row_in_rect(w, y, (n - 1) as nat, rect);
        lemma_cell_unique(w, n - 1, y);
    }
}

/// A rectangle inside an array holds as many cells as its area, counted over
/// the first `h` rows.
proof fn lemma_rect_area(w: int, h: nat, rect: (int, int, int, int))
    requires
        0 <= w,
        0 <= rect.0,
        0 <= rect.1,
        0 <= rect.2,
        0 <= rect.3,
        rect.2 == 0 || rect.0 + rect.2 <= w,
    ensures
        ({
            let f = |c: int|
                if in_rect(c % w, c / w, rect) {
                    1int
                } else {
                    0
                };
            sum_range(0, (w * h) as nat, f) == rect.2 * (if h < rect.1 {
                0
            } else if h < rect.1 + rect.3 {
                h - rect.1
            } else {
                rect.3
            })
        }),
    decreases h,
{
    let f = |c: int|
        if in_rect(c % w, c / w, rect) {
            1int
        } else {
            0
        };
    if h > 0 {
        let g = (h - 1) as nat;
        lemma_rect_area(w, g, rect);
        assert(w * h == w * g + w) by (nonlinear_arith)
            requires
                h == g + 1,
        ;
        assert(w * g == g * w && 0 <= w * g) by (nonlinear_arith)
            requires
                0 <= w,
                0 <= g,
        ;
        lemma_sum_split(0, (w * g) as nat, w as nat, f);
        lemma_row_in_rect(w, g as int, w as nat, rect);
        let rows = if g < rect.1 {
            0
        } else if g < rect.1 + rect.3 {
            g - rect.1
        } else {
            rect.3
        };
        assert(rect.2 * (rows + 1) == rect.2 * rows + rect.2) by (nonlinear_arith);
    } else {
        assert(w * h == 0) by (nonlinear_arith)
            requires
                h == 0,
        ;
        assert(rect.2 * 0 == 0) by (nonlinear_arith);
    }
}

/// Adding the support and the hole gives all the pixels.
proof fn lemma_support_and_hole(mask: Mask, tw: int, th: int, n: nat)
    requires
        0 <= tw,
        0 <= th,
        n <= tw * th,
    ensures
        ({
            let f = |c: int|
                if mask.covers(c % tw, c / tw, tw, th) {
                    1int
                } else {
                    0
                };
            let g = |c: int|
                if in_rect(c % tw, c / tw, mask.hole_rect(tw, th)) {
                    1int
                } else {
                    0
                };
            sum_range(0, n, f) + sum_range(0, n, g) == n
        }),
    decreases n,
{
    if n > 0 {
        lemma_support_and_hole(mask, tw, th, (n - 1) as nat);
        lemma_cell_split(tw, th, n - 1);
        lemma_hole_is_complement(mask, (n - 1) % tw, (n - 1) / tw, tw, th);
    }
}

/// The support has as many pixels as the rectangle less the hole.
pub proof fn lemma_support_size(mask: Mask, tw: int, th: int)
    requires
        0 <= tw,
        0 <= th,
    ensures
        support_size(mask, tw, th) == tw * th - mask.hole_rect(tw, th).2 * mask.hole_rect(
            tw,
            th,
        ).3,
{
    let rect = mask.hole_rect(tw, th);
    assert(tw * th >= 0) by (nonlinear_arith)
        requires
            tw >= 0,
            th >= 0,
    ;
    lemma_support_and_hole(mask, tw, th, (tw * th) as nat);
    lemma_rect_area(tw, th as nat, rect);
}

/// The support as a map of the rectangle, row by row, and its size.
pub fn mask_support(mask: Mask, tw: usize, th: usize) -> (r: (Vec<bool>, usize))
    requires
        tw * th <= usize::MAX,
    ensures
        r.0@.len() == tw * th,
        forall|c: int|
            0 <= c < tw * th ==> #[trigger] r.0@[c] == mask.covers(
                c % (tw as int),
                c / (tw as int),
                tw as int,
                th as int,
            ),
        r.1 == support_size(mask, tw as int, th as int),
{
    let n: usize = tw * th;
    let mut map: Vec<bool> = Vec::new();
    let mut m: usize = 0;
    let mut i: usize = 0;
    let ghost f = |c: int|
        if mask.covers(c % (tw as int), c / (tw as int), tw as int, th as int) {
            1int
        } else {
            0
        };
    while i < n
        invariant
            n == tw * th,
            i <= n,
            map@.len() == i,
            f == (|c: int|
                if mask.covers(c % (tw as int), c / (tw as int), tw as int, th as int) {
                    1int
                } else {
                    0
                }),
            forall|c: int|
                0 <= c < i ==> #[trigger] map@[c] == mask.covers(
                    c % (tw as int),
                    c / (tw as int),
                    tw as int,
                    th as int,
                ),
            m == sum_range(0, i as nat, f),
            m <= i,
        decreases n - i,
    {
        proof {
            lemma_cell_split(tw as int, th as int, i as int);
        }
        let keep: bool = mask.keeps(i % tw, i / tw, tw, th);
        if keep {
            m = m + 1;
        }
        map.push(keep);
        i = i + 1;
    }
    (map, m)
}

/// Depth of a ring of about `depth` pixels in a template of side `side`: at
/// least one pixel and at most half the side.
pub fn ring_offset(depth: usize, side: usize) -> (off: usize)
    requires
        side >= 2,
    ensures
        off == if depth < 1 {
            1
        } else if depth > side / 2 {
            side / 2
        } else {
            depth
        },
        1 <= off <= side / 2,
{
    let top: usize = side / 2;
    if depth < 1 {
        1
    } else if depth > top {
        top
    } else {
        depth
    }
}

/// The shapes of the supports. A box is whole. A ring is what lies less than
/// `off` pixels from one of the four edges, the same seen from all of them; a
/// corner what lies less than `off` pixels from the upper or the left edge.
pub proof fn lemma_support_shapes(px: int, py: int, tw: int, th: int, off: usize)
    requires
        0 <= px < tw,
        0 <= py < th,
    ensures
        (Mask::Box).covers(px, py, tw, th),
        !(Mask::Ring { off }).covers(px, py, tw, th) <==> off <= px <= tw - 1 - off && off <= py
            <= th - 1 - off,
        (Mask::Ring { off }).covers(px, py, tw, th) == (Mask::Ring { off }).covers(
            tw - 1 - px,
            py,
            tw,
            th,
        ),
        (Mask::Ring { off }).covers(px, py, tw, th) == (Mask::Ring { off }).covers(
            px,
            th - 1 - py,
            tw,
            th,
        ),
        !(Mask::Corner { off }).covers(px, py, tw, th) <==> off <= px && off <= py,
{
}

/// A ring leaves out its depth on both sides, a corner on one: so many pixels
/// does the support have.
pub proof fn lemma_support_areas(tw: int, th: int, off: usize)
    requires
        0 <= tw,
        0 <= th,
    ensures
        support_size(Mask::Box, tw, th) == tw * th,
        2 * off <= tw && 2 * off <= th ==> support_size(Mask::Ring { off }, tw, th) == tw * th - (
        tw - 2 * off) * (th - 2 * off),
        off <= tw && off <= th ==> support_size(Mask::Corner { off }, tw, th) == tw * th - (tw
            - off) * (th - off),
{
    lemma_support_size(Mask::Box, tw, th);
    lemma_support_size(Mask::Ring { off }, tw, th);
    lemma_support_size(Mask::Corner { off }, tw, th);
    assert(0 * 0 == 0);
    if 2 * off <= tw && 2 * off <= th {
        assert(excess(tw, 2 * off) == tw - 2 * off && excess(th, 2 * off) == th - 2 * off);
    }
    if off <= tw && off <= th {
        assert(excess(tw, off as int) == tw - off && excess(th, off as int) == th - off);
    }
}

} // verus!
