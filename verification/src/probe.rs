//! The bench of large colour patches: mappings, the reference block, the
//! layout of the scene and the classes of the patches.

use vstd::prelude::*;

use crate::grid::{lemma_cell_inside, lemma_cell_split, lemma_cell_unique};
use crate::sums::{lemma_sum_positive, lemma_sum_zero, sum_range};

verus! {

/// How a point of the unit disc is put into colour.
#[derive(Clone, Copy, Debug, PartialEq, Eq, Structural)]
pub enum Mapping {
    /// Luminance and a colour difference.
    M1,
    /// Colour alone, at constant luminance.
    M2,
    /// Luminance alone.
    M3,
    /// Colour alone, under a Gaussian aperture.
    M4,
    /// The first mapping with pilots spread over the payload.
    M1P,
}

impl Mapping {
    /// The four mappings without pilots.
    pub fn all() -> (r: [Mapping; 4])
        ensures
            r@ == seq![Mapping::M1, Mapping::M2, Mapping::M3, Mapping::M4],
    {
        let r: [Mapping; 4] = [Mapping::M1, Mapping::M2, Mapping::M3, Mapping::M4];
        assert(r@ =~= seq![Mapping::M1, Mapping::M2, Mapping::M3, Mapping::M4]);
        r
    }

    /// All the mappings, the one with pilots second.
    pub fn all_with_pilots() -> (r: [Mapping; 5])
        ensures
            r@ == seq![Mapping::M1, Mapping::M1P, Mapping::M2, Mapping::M3, Mapping::M4],
    {
        let r: [Mapping; 5] = [Mapping::M1, Mapping::M1P, Mapping::M2, Mapping::M3, Mapping::M4];
        assert(r@ =~= seq![Mapping::M1, Mapping::M1P, Mapping::M2, Mapping::M3, Mapping::M4]);
        r
    }

    /// Name in the tables.
    pub fn name(self) -> (s: &'static str)
        ensures
            s@ == match self {
                Mapping::M1 => "M1 spec§5.1"@,
                Mapping::M2 => "M2 const-lum"@,
                Mapping::M3 => "M3 luma-only"@,
                Mapping::M4 => "M4 const-lum+gauss"@,
                Mapping::M1P => "M1' spec§5.1+pilots"@,
            },
    {
        match self {
            Mapping::M1 => "M1 spec§5.1",
            Mapping::M2 => "M2 const-lum",
            Mapping::M3 => "M3 luma-only",
            Mapping::M4 => "M4 const-lum+gauss",
            Mapping::M1P => "M1' spec§5.1+pilots",
        }
    }

    /// Whether the mapping carries the second axis.
    pub fn has_im(self) -> (r: bool)
        ensures
            r == (self != Mapping::M3),
    {
        match self {
            Mapping::M3 => false,
            _ => true,
        }
    }

    /// Whether patches are shown under a Gaussian aperture.
    pub fn apodized(self) -> (r: bool)
        ensures
            r == (self == Mapping::M4),
    {
        match self {
            Mapping::M4 => true,
            _ => false,
        }
    }
}

/// Side of the mirrored reference block, in cells.
pub const REF_TILE: usize = 8;

/// Entries of the reference pattern.
pub const REF_N: usize = 16;

/// Drive of black.
pub const BLACK: u8 = 5;

/// Drive of white.
pub const WHITE: u8 = 255;

/// The smaller of two numbers.
pub open spec fn least(a: int, b: int) -> int {
    if a <= b {
        a
    } else {
        b
    }
}

/// The entry in a cell of the reference block. The mirrored block holds every
/// entry four times, symmetric about its centre.
pub open spec fn ref_entry(tile: int, row: int, col: int) -> int {
    if tile == REF_TILE {
        least(row, tile - 1 - row) * 4 + least(col, tile - 1 - col)
    } else {
        row * 4 + col
    }
}

/// The entry in a cell of the reference block.
pub fn ref_entry_at(tile: usize, row: usize, col: usize) -> (i: usize)
    requires
        tile == REF_TILE ==> row < tile && col < tile,
        row * 4 + col <= usize::MAX,
    ensures
        i == ref_entry(tile as int, row as int, col as int),
{
    if tile == REF_TILE {
        let r0: usize = if row <= tile - 1 - row { row } else { tile - 1 - row };
        let c0: usize = if col <= tile - 1 - col { col } else { tile - 1 - col };
        r0 * 4 + c0
    } else {
        row * 4 + col
    }
}

/// The cells that hold one entry of the mirrored block are `(r, c)`,
/// `(r, 7 - c)`, `(7 - r, c)` and `(7 - r, 7 - c)`, and no others.
pub proof fn lemma_ref_copies(i: int, row: int, col: int)
    requires
        0 <= i < REF_N,
        0 <= row < REF_TILE,
        0 <= col < REF_TILE,
    ensures
        ref_entry(8, row, col) == i <==> (row == i / 4 || row == 7 - i / 4) && (col == i % 4 || col
            == 7 - i % 4),
        0 <= ref_entry(8, row, col) < REF_N,
{
}

/// Any field that is linear in row and column averages out over the copies of
/// an entry: it adds up to four times its value in the centre of the block,
/// whatever the entry. Rows and columns are counted in half cells here, so
/// that the centre is a whole number.
pub proof fn lemma_linear_field_cancels(i: int, a: int, b: int, c: int)
    requires
        0 <= i < REF_N,
    ensures
        ({
            let field = |row: int, col: int| a * (2 * row) + b * (2 * col) + c;
            let (r, q) = (i / 4, i % 4);
            field(r, q) + field(r, 7 - q) + field(7 - r, q) + field(7 - r, 7 - q) == 4 * (a * 7 + b
                * 7 + c)
        }),
{
    let (r, q) = (i / 4, i % 4);
    assert(a * (2 * r) + a * (2 * (7 - r)) == a * 14) by (nonlinear_arith);
    assert(b * (2 * q) + b * (2 * (7 - q)) == b * 14) by (nonlinear_arith);
    assert(a * 14 == 2 * (a * 7) && b * 14 == 2 * (b * 7)) by (nonlinear_arith);
}

/// Drives of an entry: black, white, the primaries, their complements, black
/// and white again, and six steps of grey.
pub open spec fn ref_drive(i: int) -> Seq<u8> {
    let k = BLACK;
    let w = WHITE;
    if i == 0 || i == 8 {
        seq![k, k, k]
    } else if i == 1 || i == 9 {
        seq![w, w, w]
    } else if i == 2 {
        seq![w, k, k]
    } else if i == 3 {
        seq![k, w, k]
    } else if i == 4 {
        seq![k, k, w]
    } else if i == 5 {
        seq![k, w, w]
    } else if i == 6 {
        seq![w, k, w]
    } else if i == 7 {
        seq![w, w, k]
    } else {
        let d = (k + (w - k) * (i - 10) / 5) as u8;
        seq![d, d, d]
    }
}

/// Drives of an entry of the reference pattern.
pub fn ref_drives(i: usize) -> (d: [u8; 3])
    requires
        i < REF_N,
    ensures
        d@ == ref_drive(i as int),
{
    let k: u8 = BLACK;
    let w: u8 = WHITE;
    let d: [u8; 3] = if i == 0 || i == 8 {
        [k, k, k]
    } else if i == 1 || i == 9 {
        [w, w, w]
    } else if i == 2 {
        [w, k, k]
    } else if i == 3 {
        [k, w, k]
    } else if i == 4 {
        [k, k, w]
    } else if i == 5 {
        [k, w, w]
    } else if i == 6 {
        [w, k, w]
    } else if i == 7 {
        [w, w, k]
    } else {
        let g: u8 = 5 + 50 * (i - 10) as u8;
        [g, g, g]
    };
    assert(d@ =~= ref_drive(i as int));
    d
}

/// Whether an entry is black, white or grey.
pub fn ref_is_neutral(i: usize) -> (r: bool)
    ensures
        r == (i == 0 || i == 1 || 8 <= i <= 15),
{
    i == 0 || i == 1 || (8 <= i && i <= 15)
}

/// The neutral entries are those whose three drives are equal.
pub proof fn lemma_neutral_is_grey(i: int)
    requires
        0 <= i < REF_N,
    ensures
        (i == 0 || i == 1 || 8 <= i <= 15) <==> (ref_drive(i)[0] == ref_drive(i)[1] && ref_drive(
            i,
        )[1] == ref_drive(i)[2]),
{
}

/// A square window in the middle of a line of `size`: its start and its
/// width, which is one part in `den` but at least `min`, as far as there is room.
pub fn center_window(size: usize, den: usize, min: usize) -> (r: (usize, usize))
    requires
        den > 0,
    ensures
        r.1 == least(
            if size / den >= min {
                (size / den) as int
            } else {
                min as int
            },
            size as int,
        ),
        r.0 == (size - r.1) / 2,
        r.0 + r.1 <= size,
        size - (r.0 + r.1) <= r.0 + 1,
        r.0 <= size - (r.0 + r.1),
{
    let part: usize = size / den;
    let wide: usize = if part >= min { part } else { min };
    let ww: usize = if wide <= size { wide } else { size };
    ((size - ww) / 2, ww)
}

/// Where the parts of the scene lie.
#[derive(Clone, Copy, Debug)]
pub struct Layout {
    /// Guard around each block.
    pub margin: usize,
    /// Side of a reference cell.
    pub r_cell: usize,
    /// Cells along a side of the reference block.
    pub r_tile: usize,
    pub canvas_w: usize,
    pub canvas_h: usize,
    /// Where the picture of the reference begins on the canvas.
    pub ref_off: (usize, usize),
    /// Where the picture of the payload begins on the canvas.
    pub pay_off: (usize, usize),
    /// Side of the picture of the reference, with its guard.
    pub ref_size: usize,
    /// Side of the picture of the payload, with its guard.
    pub pay_size: usize,
}

/// The larger of two numbers.
pub open spec fn most(a: int, b: int) -> int {
    if a >= b {
        a
    } else {
        b
    }
}

impl Layout {
    /// The layout for `n` by `n` patches of side `w`, a reference block of
    /// `tile` by `tile` cells and a blur that reaches `reach` pixels out. The
    /// reference lies above the payload; both are centred.
    pub fn new(n: usize, w: usize, tile: usize, reach: usize) -> (lay: Layout)
        requires
            n * w + tile * (reach + 32) + 4 * (reach + 8) <= usize::MAX,
            n * w <= usize::MAX,
            tile * (reach + 32) <= usize::MAX,
            reach + 32 <= usize::MAX,
            4 * (reach + 8) <= usize::MAX,
        ensures
            lay.margin == most(reach as int, 8),
            lay.r_cell == most(reach as int, 32),
            lay.r_tile == tile,
            lay.ref_size == tile * lay.r_cell + 2 * lay.margin,
            lay.pay_size == n * w + 2 * lay.margin,
            lay.canvas_w == most(lay.ref_size as int, lay.pay_size as int),
            lay.canvas_h == lay.ref_size + lay.pay_size - lay.margin,
            lay.ref_off.0 == (lay.canvas_w - lay.ref_size) / 2,
            lay.ref_off.1 == 0,
            lay.pay_off.0 == (lay.canvas_w - lay.pay_size) / 2,
            lay.pay_off.1 == lay.ref_size - lay.margin,
            lay.fits(),
    {
        let margin: usize = if reach >= 8 { reach } else { 8 };
        let r_cell: usize = if reach >= 32 { reach } else { 32 };
        assert(tile * r_cell <= tile * (reach + 32)) by (nonlinear_arith)
            requires
                0 <= r_cell <= reach + 32,
                tile >= 0,
        ;
        let pay_block: usize = n * w;
        let ref_block: usize = tile * r_cell;
        let wide: usize = if pay_block >= ref_block { pay_block } else { ref_block };
        let canvas_w: usize = wide + 2 * margin;
        let canvas_h: usize = 3 * margin + ref_block + pay_block;
        let ref_x0: usize = margin + (wide - ref_block) / 2;
        let pay_x0: usize = margin + (wide - pay_block) / 2;
        let pay_y0: usize = 2 * margin + ref_block;
        Layout {
            margin,
            r_cell,
            r_tile: tile,
            canvas_w,
            canvas_h,
            ref_off: (ref_x0 - margin, 0),
            pay_off: (pay_x0 - margin, pay_y0 - margin),
            ref_size: ref_block + 2 * margin,
            pay_size: pay_block + 2 * margin,
        }
    }

    /// The parts fit the canvas, and between the blocks themselves lies one guard.
    pub open spec fn fits(&self) -> bool {
        &&& self.ref_off.0 + self.ref_size <= self.canvas_w
        &&& self.ref_off.1 + self.ref_size <= self.canvas_h
        &&& self.pay_off.0 + self.pay_size <= self.canvas_w
        &&& self.pay_off.1 + self.pay_size == self.canvas_h
        &&& self.ref_off.1 + self.ref_size - self.margin == self.pay_off.1
    }
}

/// What a patch counts as.
#[derive(Clone, Copy, Debug, PartialEq, Eq, Structural)]
pub enum Patch {
    /// A known patch.
    Pilot,
    /// A payload patch with payload or pilots on all sides.
    Interior,
    /// A payload patch at the rim.
    Edge,
}

/// What the patch in column `x` and row `y` of `n` by `n` patches counts as,
/// with pilots of the given period, 0 for none.
pub open spec fn patch_kind(x: int, y: int, n: int, period: int) -> Patch {
    if period > 0 && x % period == 0 && y % period == 0 {
        Patch::Pilot
    } else if 0 < x < n - 1 && 0 < y < n - 1 {
        Patch::Interior
    } else {
        Patch::Edge
    }
}

/// What a patch counts as. Only the mapping with pilots has any.
pub fn patch_at(mapping: Mapping, period: usize, x: usize, y: usize, n: usize) -> (k: Patch)
    requires
        x < n,
        y < n,
    ensures
        k == patch_kind(
            x as int,
            y as int,
            n as int,
            if mapping == Mapping::M1P {
                period as int
            } else {
                0
            },
        ),
{
    let active: bool = match mapping {
        Mapping::M1P => period > 0,
        _ => false,
    };
    if active && x % period == 0 && y % period == 0 {
        Patch::Pilot
    } else if x > 0 && x < n - 1 && y > 0 && y < n - 1 {
        Patch::Interior
    } else {
        Patch::Edge
    }
}

/// Number of pilots among `n` by `n` patches.
pub fn pilot_count(mapping: Mapping, period: usize, n: usize) -> (count: usize)
    requires
        n * n <= usize::MAX,
    ensures
        count == sum_range(
            0,
            (n * n) as nat,
            |c: int|
                if patch_kind(
                    c % (n as int),
                    c / (n as int),
                    n as int,
                    if mapping == Mapping::M1P {
                        period as int
                    } else {
                        0
                    },
                ) == Patch::Pilot {
                    1
                } else {
                    0
                },
        ),
        count <= n * n,
        mapping != Mapping::M1P || period == 0 ==> count == 0,
        mapping == Mapping::M1P && n > 0 && period > 0 ==> count >= 1,
{
    let ghost step = if mapping == Mapping::M1P {
        period as int
    } else {
        0
    };
    let ghost f = |c: int|
        if patch_kind(c % (n as int), c / (n as int), n as int, step) == Patch::Pilot {
            1int
        } else {
            0
        };
    let total: usize = n * n;
    let mut count: usize = 0;
    let mut i: usize = 0;
    while i < total
        invariant
            total == n * n,
            i <= total,
            step == if mapping == Mapping::M1P {
                period as int
            } else {
                0
            },
            f == (|c: int|
                if patch_kind(c % (n as int), c / (n as int), n as int, step) == Patch::Pilot {
                    1int
                } else {
                    0
                }),
            count == sum_range(0, i as nat, f),
            count <= i,
        decreases total - i,
    {
        proof {
            lemma_cell_split(n as int, n as int, i as int);
        }
        match patch_at(mapping, period, i % n, i / n, n) {
            Patch::Pilot => {
                count = count + 1;
            },
            _ => {},
        }
        i = i + 1;
    }
    assert(sum_range(0, total as nat, f) == sum_range(
        0,
        (n * n) as nat,
        |c: int|
            if patch_kind(
                c % (n as int),
                c / (n as int),
                n as int,
                if mapping == Mapping::M1P {
                    period as int
                } else {
                    0
                },
            ) == Patch::Pilot {
                1
            } else {
                0
            },
    )) by {
        crate::sums::lemma_sum_range_congruent(
            0,
            total as nat,
            f,
            |c: int|
                if patch_kind(
                    c % (n as int),
                    c / (n as int),
                    n as int,
                    if mapping == Mapping::M1P {
                        period as int
                    } else {
                        0
                    },
                ) == Patch::Pilot {
                    1
                } else {
                    0
                },
        );
    }
    proof {
        if step == 0 {
            lemma_sum_zero(0, total as nat, f);
        } else if n > 0 {
            assert(n * n >= 1) by (nonlinear_arith)
                requires
                    n >= 1,
            ;
            lemma_sum_positive(0, total as nat, f);
            vstd::arithmetic::div_mod::lemma_small_mod(0, n as nat);
            vstd::arithmetic::div_mod::lemma_small_mod(0, period as nat);
            vstd::arithmetic::div_mod::lemma_basic_div(0, n as int);
            assert(f(0) == 1);
        }
    }
    count
}

/// The pairs of neighbours that the first `c` patches begin: each patch with
/// the one to its right and the one below it, where both count.
pub open spec fn pairs_upto(counts: Seq<bool>, n: int, c: nat) -> Seq<(usize, usize)>
    decreases c,
{
    if c == 0 {
        Seq::empty()
    } else {
        let i = c - 1;
        let front = pairs_upto(counts, n, (c - 1) as nat);
        let right = if counts[i] && i % n + 1 < n && counts[i + 1] {
            front.push((i as usize, (i + 1) as usize))
        } else {
            front
        };
        if counts[i] && i / n + 1 < n && counts[i + n] {
            right.push((i as usize, (i + n) as usize))
        } else {
            right
        }
    }
}

/// The pairs of neighbouring patches, side by side or one above the other, of
/// which both count.
pub fn neighbour_pairs(counts: &Vec<bool>, n: usize) -> (out: Vec<(usize, usize)>)
    requires
        counts@.len() == n * n,
    ensures
        out@ == pairs_upto(counts@, n as int, (n * n) as nat),
{
    let total: usize = counts.len();
    let mut out: Vec<(usize, usize)> = Vec::new();
    let mut i: usize = 0;
    assert(out@ =~= Seq::<(usize, usize)>::empty());
    while i < total
        invariant
            total == n * n,
            counts@.len() == total,
            i <= total,
            out@ == pairs_upto(counts@, n as int, i as nat),
        decreases total - i,
    {
        proof {
            lemma_cell_split(n as int, n as int, i as int);
            let (x, y) = (i as int % n as int, i as int / n as int);
            if x + 1 < n {
                lemma_cell_inside(n as int, n as int, x + 1, y);
            }
            if y + 1 < n {
                lemma_cell_inside(n as int, n as int, x, y + 1);
                assert((y + 1) * n + x == y * n + x + n) by (nonlinear_arith);
            }
        }
        if counts[i] {
            if i % n < n - 1 && counts[i + 1] {
                out.push((i, i + 1));
            }
            if i / n < n - 1 && counts[i + n] {
                out.push((i, i + n));
            }
        }
        i = i + 1;
    }
    out
}

/// The plain block of four by four cells holds its entries row by row.
pub proof fn lemma_plain_block(i: int)
    requires
        0 <= i < 16,
    ensures
        ref_entry(4, i / 4, i % 4) == i,
{
}

/// The colours of the reference pattern. An entry and the one three further on
/// are complements among the six colours, of which the first three light one
/// channel each; black and white stand at the head and once more behind the
/// colours, and the last six entries are equal steps of grey from black to white.
pub proof fn lemma_reference_colours(i: int, c: int)
    requires
        0 <= i < 16,
        0 <= c < 3,
    ensures
        ref_drive(i).len() == 3,
        2 <= i <= 4 ==> ref_drive(i)[c] == (if c == i - 2 {
            255u8
        } else {
            5
        }),
        2 <= i <= 4 ==> ref_drive(i)[c] + ref_drive(i + 3)[c] == 5 + 255,
        i == 0 ==> ref_drive(i)[c] == 5 && ref_drive(i + 8) == ref_drive(i),
        i == 1 ==> ref_drive(i)[c] == 255 && ref_drive(i + 8) == ref_drive(i),
        10 <= i <= 15 ==> ref_drive(i)[c] == 5 + 50 * (i - 10),
{
}

/// Pilots are the patches in columns and rows that are multiples of the
/// period. Of the others those at the rim count as edge, all the rest as
/// interior. Without a period there are no pilots.
pub proof fn lemma_patch_kinds(x: int, y: int, n: int, period: int)
    requires
        0 <= x < n,
        0 <= y < n,
        period >= 0,
    ensures
        patch_kind(x, y, n, 0) != Patch::Pilot,
        period > 0 ==> (patch_kind(x, y, n, period) == Patch::Pilot <==> x == (x / period) * period
            && y == (y / period) * period),
        patch_kind(x, y, n, period) != Patch::Pilot ==> (patch_kind(x, y, n, period) == Patch::Edge
            <==> x == 0 || y == 0 || x == n - 1 || y == n - 1),
{
    if period > 0 {
        vstd::arithmetic::div_mod::lemma_fundamental_div_mod(x, period);
        vstd::arithmetic::div_mod::lemma_fundamental_div_mod(y, period);
        assert(period * (x / period) == (x / period) * period && period * (y / period) == (y
            / period) * period) by (nonlinear_arith);
    }
}

/// Two patches are neighbours in an array `n` wide: the second lies right of
/// the first in the same row, or below it in the same column.
pub open spec fn adjacent(n: int, a: int, b: int) -> bool {
    ||| b == a + 1 && b / n == a / n
    ||| b == a + n
}

/// The pairs are those of neighbours that both count, each once, the left or
/// upper patch first.
pub proof fn lemma_neighbour_pairs(counts: Seq<bool>, n: int, c: nat)
    requires
        0 < n <= usize::MAX,
        counts.len() == n * n,
        counts.len() <= usize::MAX,
        c <= counts.len(),
    ensures
        forall|k: int|
            0 <= k < pairs_upto(counts, n, c).len() ==> {
                let (a, b) = #[trigger] pairs_upto(counts, n, c)[k];
                a < c && b < counts.len() && adjacent(n, a as int, b as int) && counts[a as int]
                    && counts[b as int]
            },
        forall|a: usize, b: usize|
            a < c && b < counts.len() && adjacent(n, a as int, b as int) && counts[a as int]
                && counts[b as int] ==> #[trigger] pairs_upto(counts, n, c).contains((a, b)),
        pairs_upto(counts, n, c).no_duplicates(),
    decreases c,
{
    if c > 0 {
        let m = (c - 1) as nat;
        let i = c - 1;
        lemma_neighbour_pairs(counts, n, m);
        let front = pairs_upto(counts, n, m);
        let all = pairs_upto(counts, n, c);
        lemma_cell_split(n, n, i);
        let (x, y) = (i % n, i / n);
        // The right neighbour lies in the same row, the lower one below.
        if x + 1 < n {
            lemma_cell_inside(n, n, x + 1, y);
            lemma_cell_unique(n, x + 1, y);
        } else {
            assert((y + 1) * n + 0 == y * n + n) by (nonlinear_arith);
            lemma_cell_unique(n, 0, y + 1);
        }
        if y + 1 < n {
            lemma_cell_inside(n, n, x, y + 1);
            assert((y + 1) * n + x == y * n + x + n) by (nonlinear_arith);
        } else {
            assert(y * n + n == n * n) by (nonlinear_arith)
                requires
                    y == n - 1,
            ;
        }
        assert forall|k: int| 0 <= k < all.len() implies {
            let (a, b) = #[trigger] all[k];
            a < c && b < counts.len() && adjacent(n, a as int, b as int) && counts[a as int]
                && counts[b as int]
        } by {
            if k < front.len() {
                assert(all[k] == front[k]);
            }
        }
        assert forall|a: usize, b: usize|
            a < c && b < counts.len() && adjacent(n, a as int, b as int) && counts[a as int]
                && counts[b as int] implies #[trigger] all.contains((a, b)) by {
            if a < m {
                assert(front.contains((a, b)));
                let k = choose|k: int| 0 <= k < front.len() && front[k] == (a, b);
                assert(all[k] == (a, b));
            } else if b == a + 1 && b as int / n == a as int / n {
                assert(all[front.len() as int] == (a, b));
            } else {
                assert(all[all.len() - 1] == (a, b));
            }
        }
        assert forall|j: int, k: int| 0 <= j < all.len() && 0 <= k < all.len() && j != k implies all[j]
            != all[k] by {
            if j < front.len() {
                assert(all[j] == front[j]);
            }
            if k < front.len() {
                assert(all[k] == front[k]);
            }
            if n == 1 {
                assert(x + 1 >= n && y + 1 >= n);
            }
        }
    }
}

} // verus!
