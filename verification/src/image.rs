//! Raster images, row by row, over any pixel type.

use vstd::prelude::*;

use crate::grid::{clamped, lemma_cell_inside, lemma_cell_split, lemma_cell_unique};

verus! {

/// An image `w` pixels wide and `h` high; pixel `(x, y)` is `data[y * w + x]`.
pub struct Image<P> {
    pub w: usize,
    pub h: usize,
    pub data: Vec<P>,
}

impl<P> Image<P> {
    /// The data fill the image.
    pub open spec fn wf(&self) -> bool {
        self.data@.len() == self.w * self.h
    }

    /// Pixel `(x, y)`.
    pub open spec fn pixel(&self, x: int, y: int) -> P {
        self.data@[y * self.w + x]
    }
}

impl<P: Copy> Image<P> {
    /// An image of one colour.
    pub fn filled(w: usize, h: usize, color: P) -> (img: Self)
        requires
            w * h <= usize::MAX,
        ensures
            img.wf(),
            img.w == w,
            img.h == h,
            forall|c: int| 0 <= c < w * h ==> #[trigger] img.data@[c] == color,
    {
        let n: usize = w * h;
        let mut data: Vec<P> = Vec::new();
        let mut i: usize = 0;
        while i < n
            invariant
                n == w * h,
                i <= n,
                data@.len() == i,
                forall|c: int| 0 <= c < i ==> #[trigger] data@[c] == color,
            decreases n - i,
        {
            data.push(color);
            i = i + 1;
        }
        Image { w, h, data }
    }

    /// An image of the default pixel, which is black.
    pub fn new(w: usize, h: usize) -> (img: Self) where P: Default
        requires
            w * h <= usize::MAX,
        ensures
            img.wf(),
            img.w == w,
            img.h == h,
            exists|black: P|
                #[trigger] call_ensures(P::default, (), black) && forall|c: int|
                    0 <= c < w * h ==> #[trigger] img.data@[c] == black,
    {
        let black: P = P::default();
        Image::filled(w, h, black)
    }

    /// Pixel `(x, y)`, without interpolation.
    pub fn at(&self, x: usize, y: usize) -> (p: P)
        requires
            self.wf(),
            x < self.w,
            y < self.h,
        ensures
            p == self.pixel(x as int, y as int),
    {
        proof {
            lemma_cell_inside(self.w as int, self.h as int, x as int, y as int);
            assert(self.data.len() == self.w * self.h);
        }
        self.data[y * self.w + x]
    }

    /// Writes pixel `(x, y)`.
    pub fn set(&mut self, x: usize, y: usize, v: P)
        requires
            old(self).wf(),
            x < old(self).w,
            y < old(self).h,
        ensures
            final(self).wf(),
            final(self).w == old(self).w,
            final(self).h == old(self).h,
            final(self).data@ == old(self).data@.update(y * old(self).w + x, v),
            forall|i: int, j: int|
                0 <= i < old(self).w && 0 <= j < old(self).h ==> #[trigger] final(self).pixel(i, j)
                    == if i == x && j == y {
                    v
                } else {
                    old(self).pixel(i, j)
                },
    {
        proof {
            lemma_cell_inside(self.w as int, self.h as int, x as int, y as int);
            assert(self.data.len() == self.w * self.h);
            assert forall|i: int, j: int|
                0 <= i < self.w && 0 <= j < self.h && (i != x || j != y) implies #[trigger] (j
                * self.w + i) != y * self.w + x by {
                lemma_cell_unique(self.w as int, i, j);
                lemma_cell_unique(self.w as int, x as int, y as int);
            }
            assert forall|i: int, j: int| 0 <= i < self.w && 0 <= j < self.h implies 0
                <= #[trigger] (j * self.w + i) < self.data@.len() by {
                lemma_cell_inside(self.w as int, self.h as int, i, j);
            }
        }
        let w: usize = self.w;
        self.data.set(y * w + x, v);
    }

    /// The four pixels that a sample between columns `x0`, `x0 + 1` and rows
    /// `y0`, `y0 + 1` blends, left before right and upper before lower; past
    /// the edge the edge pixel stands again.
    pub fn corners(&self, x0: usize, y0: usize) -> (r: (P, P, P, P))
        requires
            self.wf(),
            x0 < self.w,
            y0 < self.h,
        ensures
            r.0 == self.pixel(x0 as int, y0 as int),
            r.1 == self.pixel(clamped(x0 + 1, self.w as int), y0 as int),
            r.2 == self.pixel(x0 as int, clamped(y0 + 1, self.h as int)),
            r.3 == self.pixel(clamped(x0 + 1, self.w as int), clamped(y0 + 1, self.h as int)),
    {
        let x1: usize = if x0 < self.w - 1 { x0 + 1 } else { self.w - 1 };
        let y1: usize = if y0 < self.h - 1 { y0 + 1 } else { self.h - 1 };
        (self.at(x0, y0), self.at(x1, y0), self.at(x0, y1), self.at(x1, y1))
    }

    /// The image that `f` gives pixel by pixel, from column and row.
    pub fn from_fn<F: Fn(usize, usize) -> P>(w: usize, h: usize, f: F) -> (img: Self)
        requires
            w * h <= usize::MAX,
            forall|x: usize, y: usize| x < w && y < h ==> call_requires(f, (x, y)),
        ensures
            img.wf(),
            img.w == w,
            img.h == h,
            forall|x: usize, y: usize|
                x < w && y < h ==> call_ensures(f, (x, y), #[trigger] img.pixel(x as int, y as int)),
    {
        let n: usize = w * h;
        let mut data: Vec<P> = Vec::new();
        let mut i: usize = 0;
        while i < n
            invariant
                n == w * h,
                i <= n,
                data@.len() == i,
                forall|x: usize, y: usize| x < w && y < h ==> call_requires(f, (x, y)),
                forall|c: int|
                    0 <= c < i ==> call_ensures(
                        f,
                        ((c % (w as int)) as usize, (c / (w as int)) as usize),
                        #[trigger] data@[c],
                    ),
            decreases n - i,
        {
            proof {
                lemma_cell_split(w as int, h as int, i as int);
            }
            data.push(f(i % w, i / w));
            i = i + 1;
        }
        let img = Image { w, h, data };
        proof {
            assert forall|x: usize, y: usize| x < w && y < h implies call_ensures(
                f,
                (x, y),
                #[trigger] img.pixel(x as int, y as int),
            ) by {
                lemma_cell_inside(w as int, h as int, x as int, y as int);
                lemma_cell_unique(w as int, x as int, y as int);
                assert(call_ensures(f, (x, y), img.data@[y * w + x]));
            }
        }
        img
    }

    /// The part of the image `w` wide and `h` high that begins at `(x0, y0)`.
    pub fn crop(&self, x0: usize, y0: usize, w: usize, h: usize) -> (img: Self)
        requires
            self.wf(),
            x0 + w <= self.w,
            y0 + h <= self.h,
        ensures
            img.wf(),
            img.w == w,
            img.h == h,
            forall|x: int, y: int|
                0 <= x < w && 0 <= y < h ==> #[trigger] img.pixel(x, y) == self.pixel(
                    x0 + x,
                    y0 + y,
                ),
    {
        proof {
            assert(self.data.len() == self.w * self.h);
            assert(w * h <= self.w * self.h) by (nonlinear_arith)
                requires
                    0 <= w <= self.w,
                    0 <= h <= self.h,
            ;
        }
        let n: usize = w * h;
        let mut data: Vec<P> = Vec::new();
        let mut i: usize = 0;
        while i < n
            invariant
                self.wf(),
                x0 + w <= self.w,
                y0 + h <= self.h,
                n == w * h,
                i <= n,
                data@.len() == i,
                forall|c: int|
                    0 <= c < i ==> #[trigger] data@[c] == self.pixel(
                        x0 + c % (w as int),
                        y0 + c / (w as int),
                    ),
            decreases n - i,
        {
            proof {
                lemma_cell_split(w as int, h as int, i as int);
            }
            data.push(self.at(x0 + i % w, y0 + i / w));
            i = i + 1;
        }
        let img = Image { w, h, data };
        proof {
            assert forall|x: int, y: int| 0 <= x < w && 0 <= y < h implies #[trigger] img.pixel(x, y)
                == self.pixel(x0 + x, y0 + y) by {
                lemma_cell_inside(w as int, h as int, x, y);
                lemma_cell_unique(w as int, x, y);
                assert(img.data@[y * w + x] == self.pixel(x0 + x, y0 + y));
            }
        }
        img
    }

    /// Writes `patch` over the image with its upper left corner at `(ax, ay)`;
    /// what would lie outside is left off.
    pub fn paste(&mut self, patch: &Self, ax: usize, ay: usize)
        requires
            old(self).wf(),
            patch.wf(),
        ensures
            final(self).wf(),
            final(self).w == old(self).w,
            final(self).h == old(self).h,
            forall|x: int, y: int|
                0 <= x < old(self).w && 0 <= y < old(self).h ==> #[trigger] final(self).pixel(x, y)
                    == patch.padded(x - ax, y - ay, old(self).pixel(x, y)),
    {
        let w: usize = self.w;
        let h: usize = self.h;
        let n: usize = self.data.len();
        let ghost before = *old(self);
        let mut i: usize = 0;
        while i < n
            invariant
                before.wf(),
                patch.wf(),
                self.wf(),
                self.w == w,
                self.h == h,
                w == before.w,
                h == before.h,
                n == w * h,
                i <= n,
                forall|c: int| i <= c < n ==> #[trigger] self.data@[c] == before.data@[c],
                forall|c: int|
                    0 <= c < i ==> #[trigger] self.data@[c] == patch.padded(
                        c % (w as int) - ax,
                        c / (w as int) - ay,
                        before.data@[c],
                    ),
            decreases n - i,
        {
            proof {
                lemma_cell_split(w as int, h as int, i as int);
            }
            let x: usize = i % w;
            let y: usize = i / w;
            if x >= ax && y >= ay && x - ax < patch.w && y - ay < patch.h {
                let p: P = patch.at(x - ax, y - ay);
                self.data.set(i, p);
            }
            i = i + 1;
        }
        proof {
            assert forall|x: int, y: int| 0 <= x < w && 0 <= y < h implies #[trigger] self.pixel(x, y)
                == patch.padded(x - ax, y - ay, before.pixel(x, y)) by {
                lemma_cell_inside(w as int, h as int, x, y);
                lemma_cell_unique(w as int, x, y);
                assert(self.data@[y * w + x] == patch.padded(
                    x - ax,
                    y - ay,
                    before.data@[y * w + x],
                ));
            }
        }
    }

    /// The image with every pixel repeated in a square of `cell` by `cell`
    /// pixels, and a border of `pad` such squares of colour `around`.
    pub fn inflate(&self, cell: usize, pad: usize, around: P) -> (img: Self)
        requires
            self.wf(),
            cell > 0,
            (self.w + 2 * pad) * cell <= usize::MAX,
            (self.h + 2 * pad) * cell <= usize::MAX,
            ((self.w + 2 * pad) * cell) * ((self.h + 2 * pad) * cell) <= usize::MAX,
            self.w + 2 * pad <= usize::MAX,
            self.h + 2 * pad <= usize::MAX,
        ensures
            img.wf(),
            img.w == (self.w + 2 * pad) * cell,
            img.h == (self.h + 2 * pad) * cell,
            forall|x: int, y: int|
                0 <= x < img.w && 0 <= y < img.h ==> #[trigger] img.pixel(x, y) == self.padded(
                    x / (cell as int) - pad,
                    y / (cell as int) - pad,
                    around,
                ),
            forall|cx: int, cy: int, dx: int, dy: int|
                0 <= cx < self.w && 0 <= cy < self.h && 0 <= dx < cell && 0 <= dy < cell
                    ==> #[trigger] img.pixel((cx + pad) * cell + dx, (cy + pad) * cell + dy)
                    == self.pixel(cx, cy),
    {
        let w: usize = (self.w + 2 * pad) * cell;
        let h: usize = (self.h + 2 * pad) * cell;
        let n: usize = w * h;
        let mut data: Vec<P> = Vec::new();
        let mut i: usize = 0;
        while i < n
            invariant
                self.wf(),
                cell > 0,
                self.w + 2 * pad <= usize::MAX,
                self.h + 2 * pad <= usize::MAX,
                n == w * h,
                i <= n,
                data@.len() == i,
                forall|c: int|
                    0 <= c < i ==> #[trigger] data@[c] == self.padded(
                        (c % (w as int)) / (cell as int) - pad,
                        (c / (w as int)) / (cell as int) - pad,
                        around,
                    ),
            decreases n - i,
        {
            proof {
                lemma_cell_split(w as int, h as int, i as int);
            }
            let cx: usize = (i % w) / cell;
            let cy: usize = (i / w) / cell;
            let inside: bool = cx >= pad && cy >= pad && cx - pad < self.w && cy - pad < self.h;
            data.push(
                if inside {
                    self.at(cx - pad, cy - pad)
                } else {
                    around
                },
            );
            i = i + 1;
        }
        let img = Image { w, h, data };
        proof {
            assert forall|x: int, y: int| 0 <= x < w && 0 <= y < h implies #[trigger] img.pixel(x, y)
                == self.padded(x / (cell as int) - pad, y / (cell as int) - pad, around) by {
                lemma_cell_inside(w as int, h as int, x, y);
                lemma_cell_unique(w as int, x, y);
                assert(img.data@[y * w + x] == self.padded(
                    x / (cell as int) - pad,
                    y / (cell as int) - pad,
                    around,
                ));
            }
            assert forall|cx: int, cy: int, dx: int, dy: int|
                0 <= cx < self.w && 0 <= cy < self.h && 0 <= dx < cell && 0 <= dy
                    < cell implies #[trigger] img.pixel(
                (cx + pad) * cell + dx,
                (cy + pad) * cell + dy,
            ) == self.pixel(cx, cy) by {
                lemma_cell_unique(cell as int, dx, cx + pad);
                lemma_cell_unique(cell as int, dy, cy + pad);
                lemma_cell_inside(cell as int, self.w + 2 * pad, dx, cx + pad);
                lemma_cell_inside(cell as int, self.h + 2 * pad, dy, cy + pad);
                assert(cell * (self.w + 2 * pad) == w && cell * (self.h + 2 * pad) == h)
                    by (nonlinear_arith)
                    requires
                        w == (self.w + 2 * pad) * cell,
                        h == (self.h + 2 * pad) * cell,
                ;
            }
        }
        img
    }
}

impl<P> Image<P> {
    /// Pixel `(x, y)`, or `around` outside the image.
    pub open spec fn padded(&self, x: int, y: int, around: P) -> P {
        if 0 <= x < self.w && 0 <= y < self.h {
            self.pixel(x, y)
        } else {
            around
        }
    }
}

/// A patch cut out of an image and pasted back at its place changes nothing.
pub proof fn lemma_crop_paste<P>(img: Image<P>, patch: Image<P>, x0: int, y0: int, x: int, y: int)
    requires
        0 <= x < img.w,
        0 <= y < img.h,
        forall|i: int, j: int|
            0 <= i < patch.w && 0 <= j < patch.h ==> #[trigger] patch.pixel(i, j) == img.pixel(
                x0 + i,
                y0 + j,
            ),
    ensures
        patch.padded(x - x0, y - y0, img.pixel(x, y)) == img.pixel(x, y),
{
}

} // verus!
