//! Finder marks: the candidates, their cells, and the bookkeeping of the
//! correlation that looks for them.

use vstd::prelude::*;

use crate::bits::lemma_last_bit;
use crate::grid::{lemma_cell_inside, lemma_cell_split, lemma_cell_unique};
use crate::mask::Mask;
use crate::rng::{output, state_after, Rng};
use crate::symbol::{GRID, RING};
use crate::text::{decimal, push_decimal};

verus! {

/// Kind of a finder mark.
#[derive(Clone, Copy, Debug, PartialEq, Eq, Structural)]
pub enum Cand {
    /// A window of an M-array in the centre of the symbol.
    MArray,
    /// A binary zone plate in the centre.
    Chirp,
    /// Concentric square rings in the centre.
    Bullseye,
    /// The whole border as one template.
    V1Border,
    /// The upper left corner of the border.
    V1Corner,
}

impl Cand {
    /// Name of the mark.
    pub open spec fn name(self) -> Seq<char> {
        match self {
            Cand::MArray => "m-array"@,
            Cand::Chirp => "chirp"@,
            Cand::Bullseye => "bullseye"@,
            Cand::V1Border => "v1border"@,
            Cand::V1Corner => "v1corner"@,
        }
    }

    /// Name of the mark.
    pub fn label(self) -> (s: &'static str)
        ensures
            s@ == self.name(),
    {
        match self {
            Cand::MArray => "m-array",
            Cand::Chirp => "chirp",
            Cand::Bullseye => "bullseye",
            Cand::V1Border => "v1border",
            Cand::V1Corner => "v1corner",
        }
    }

    /// Whether the mark takes payload cells; the border and its corner do not.
    pub fn costs_payload(self) -> (r: bool)
        ensures
            r == (self != Cand::V1Border && self != Cand::V1Corner),
    {
        match self {
            Cand::V1Border => false,
            Cand::V1Corner => false,
            _ => true,
        }
    }

    /// Shape of the template of the mark, for a ring `off` pixels deep.
    pub fn mask(self, off: usize) -> (m: Mask)
        ensures
            m == match self {
                Cand::V1Border => Mask::Ring { off },
                Cand::V1Corner => Mask::Corner { off },
                _ => Mask::Box,
            },
    {
        match self {
            Cand::V1Border => Mask::Ring { off },
            Cand::V1Corner => Mask::Corner { off },
            _ => Mask::Box,
        }
    }

    /// Reach of the window around a peak that side lobes are counted outside
    /// of, for a template `tw` pixels wide.
    pub fn exclusion(self, tw: usize) -> (r: usize)
        ensures
            r == if self == Cand::V1Border {
                if tw / 4 > 8 {
                    tw / 4
                } else {
                    8
                }
            } else {
                tw / 2
            },
            self != Cand::V1Border ==> 2 * r <= tw <= 2 * r + 1,
            self == Cand::V1Border ==> r >= 8 && tw < 4 * r + 4 && (r > 8 ==> 4 * r <= tw),
    {
        match self {
            Cand::V1Border => {
                if tw / 4 > 8 {
                    tw / 4
                } else {
                    8
                }
            },
            _ => tw / 2,
        }
    }
}

/// Sizes of the marks in cells.
pub open spec fn mark_sizes() -> Seq<usize> {
    seq![9usize, 15usize, 21usize, 25usize]
}

/// All the rows of the tables: every central mark in every size, the corner in
/// every size, and the border.
pub open spec fn table_rows() -> Seq<(Cand, usize)> {
    Seq::new(
        17,
        |i: int|
            if i < 4 {
                (Cand::MArray, mark_sizes()[i % 4])
            } else if i < 8 {
                (Cand::Chirp, mark_sizes()[i % 4])
            } else if i < 12 {
                (Cand::Bullseye, mark_sizes()[i % 4])
            } else if i < 16 {
                (Cand::V1Corner, mark_sizes()[i % 4])
            } else {
                (Cand::V1Border, 0)
            },
    )
}

/// All the rows of the tables.
pub fn all_rows() -> (rows: Vec<(Cand, usize)>)
    ensures
        rows@ == table_rows(),
{
    let kinds: [Cand; 4] = [Cand::MArray, Cand::Chirp, Cand::Bullseye, Cand::V1Corner];
    let sizes: [usize; 4] = [9, 15, 21, 25];
    assert(sizes@ =~= mark_sizes());
    let mut rows: Vec<(Cand, usize)> = Vec::new();
    let mut i: usize = 0;
    while i < 16
        invariant
            i <= 16,
            kinds@ == seq![Cand::MArray, Cand::Chirp, Cand::Bullseye, Cand::V1Corner],
            sizes@ == mark_sizes(),
            rows@ == table_rows().subrange(0, i as int),
        decreases 16 - i,
    {
        rows.push((kinds[i / 4], sizes[i % 4]));
        i = i + 1;
        assert(rows@ =~= table_rows().subrange(0, i as int));
    }
    rows.push((Cand::V1Border, 0));
    assert(rows@ =~= table_rows());
    rows
}

/// Caption of a table row.
pub fn row_label(cand: Cand, n: usize) -> (s: String)
    ensures
        s@ == if cand == Cand::V1Border {
            "v1border 61×61"@
        } else {
            cand.name() + " "@ + decimal(n as nat) + "×"@ + decimal(n as nat)
        },
{
    match cand {
        Cand::V1Border => "v1border 61×61".to_owned(),
        _ => {
            let mut s: String = cand.label().to_owned();
            s.append(" ");
            push_decimal(&mut s, n);
            s.append("×");
            push_decimal(&mut s, n);
            assert(s@ =~= cand.name() + " "@ + decimal(n as nat) + "×"@ + decimal(n as nat));
            s
        },
    }
}

/// Payload cells of the symbol: all but the border ring.
pub fn payload_area() -> (n: usize)
    ensures
        n == GRID * GRID - (8 * GRID - 16),
        n == (GRID - 2 * RING) * (GRID - 2 * RING),
        n == 3249,
{
    assert((GRID - 2 * RING) * (GRID - 2 * RING) == 3249) by (nonlinear_arith)
        requires
            GRID == 61,
            RING == 2,
    ;
    GRID * GRID - (8 * GRID - 16)
}

/// Number of the square ring around the centre of an `n` by `n` mark in which
/// a cell lies; the distance is counted in half cells.
pub open spec fn ring_number(n: int, x: int, y: int) -> int {
    let dx = if 2 * x >= n - 1 {
        2 * x - (n - 1)
    } else {
        (n - 1) - 2 * x
    };
    let dy = if 2 * y >= n - 1 {
        2 * y - (n - 1)
    } else {
        (n - 1) - 2 * y
    };
    (if dx >= dy {
        dx
    } else {
        dy
    } + 1) / 2
}

/// Concentric square rings one cell wide, light in the centre.
pub fn bullseye_cells(n: usize) -> (cells: Vec<i8>)
    requires
        n * n <= usize::MAX,
        2 * n <= usize::MAX,
    ensures
        cells@.len() == n * n,
        forall|c: int|
            0 <= c < n * n ==> #[trigger] cells@[c] == if ring_number(
                n as int,
                c % (n as int),
                c / (n as int),
            ) % 2 == 0 {
                1i8
            } else {
                -1i8
            },
{
    let mut cells: Vec<i8> = Vec::new();
    let mut i: usize = 0;
    while i < n * n
        invariant
            n * n <= usize::MAX,
            2 * n <= usize::MAX,
            i <= n * n,
            cells@.len() == i,
            forall|c: int|
                0 <= c < i ==> #[trigger] cells@[c] == if ring_number(
                    n as int,
                    c % (n as int),
                    c / (n as int),
                ) % 2 == 0 {
                    1i8
                } else {
                    -1i8
                },
        decreases n * n - i,
    {
        proof {
            lemma_cell_split(n as int, n as int, i as int);
        }
        let x: usize = i % n;
        let y: usize = i / n;
        let dx: usize = if 2 * x >= n - 1 { 2 * x - (n - 1) } else { (n - 1) - 2 * x };
        let dy: usize = if 2 * y >= n - 1 { 2 * y - (n - 1) } else { (n - 1) - 2 * y };
        let far: usize = if dx >= dy { dx } else { dy };
        cells.push(if ((far + 1) / 2) % 2 == 0 { 1 } else { -1 });
        i = i + 1;
    }
    cells
}

/// The rings are symmetric about both axes and about the diagonal.
pub proof fn lemma_bullseye_symmetric(n: int, x: int, y: int)
    ensures
        ring_number(n, x, y) == ring_number(n, n - 1 - x, y),
        ring_number(n, x, y) == ring_number(n, x, n - 1 - y),
        ring_number(n, x, y) == ring_number(n, y, x),
{
}

/// Phase of a zone plate of `n` by `n` cells at a cell: half a turn times the
/// squared distance from the centre over `n`, in steps of `1 / (8 n)` of a turn.
pub open spec fn chirp_phase(n: int, x: int, y: int) -> int {
    (2 * x - (n - 1)) * (2 * x - (n - 1)) + (2 * y - (n - 1)) * (2 * y - (n - 1))
}

/// A cell of a zone plate is light where the cosine of its phase is positive.
pub open spec fn chirp_light(n: int, x: int, y: int) -> bool {
    let t = chirp_phase(n, x, y) % (8 * n);
    t < 2 * n || t > 6 * n
}

/// A zone plate in two levels, light in the centre.
pub fn chirp_cells(n: usize) -> (cells: Vec<i8>)
    requires
        8 * n * n <= usize::MAX,
        8 * n <= usize::MAX,
    ensures
        cells@.len() == n * n,
        forall|c: int|
            0 <= c < n * n ==> #[trigger] cells@[c] == if chirp_light(
                n as int,
                c % (n as int),
                c / (n as int),
            ) {
                1i8
            } else {
                -1i8
            },
{
    assert(8 * n * n == 8 * (n * n)) by (nonlinear_arith);
    let mut cells: Vec<i8> = Vec::new();
    let mut i: usize = 0;
    while i < n * n
        invariant
            8 * (n * n) <= usize::MAX,
            8 * n <= usize::MAX,
            i <= n * n,
            cells@.len() == i,
            forall|c: int|
                0 <= c < i ==> #[trigger] cells@[c] == if chirp_light(
                    n as int,
                    c % (n as int),
                    c / (n as int),
                ) {
                    1i8
                } else {
                    -1i8
                },
        decreases n * n - i,
    {
        proof {
            lemma_cell_split(n as int, n as int, i as int);
        }
        let x: usize = i % n;
        let y: usize = i / n;
        let dx: usize = if 2 * x >= n - 1 { 2 * x - (n - 1) } else { (n - 1) - 2 * x };
        let dy: usize = if 2 * y >= n - 1 { 2 * y - (n - 1) } else { (n - 1) - 2 * y };
        proof {
            let a = 2 * x - (n - 1);
            let b = 2 * y - (n - 1);
            assert(dx * dx == a * a && dy * dy == b * b) by (nonlinear_arith)
                requires
                    dx == a || dx == -a,
                    dy == b || dy == -b,
            ;
            assert(dx * dx <= n * n && dy * dy <= n * n) by (nonlinear_arith)
                requires
                    0 <= dx <= n,
                    0 <= dy <= n,
            ;
        }
        let t: usize = (dx * dx + dy * dy) % (8 * n);
        cells.push(if t < 2 * n || t > 6 * n { 1 } else { -1 });
        i = i + 1;
    }
    cells
}

/// No cell of a zone plate lies exactly on the edge between light and dark:
/// the cosine of its phase is never zero.
pub proof fn lemma_chirp_has_no_ties(n: int, x: int, y: int)
    requires
        n > 0,
    ensures
        chirp_phase(n, x, y) % (8 * n) != 2 * n,
        chirp_phase(n, x, y) % (8 * n) != 6 * n,
{
    let s = chirp_phase(n, x, y);
    let k = s / (8 * n);
    let m = n / 2;
    let turns = n * k;
    vstd::arithmetic::div_mod::lemma_fundamental_div_mod(s, 8 * n);
    assert((8 * n) * k == 8 * turns) by (nonlinear_arith)
        requires
            turns == n * k,
    ;
    if n % 2 == 0 {
        let p = x - m;
        let q = y - m;
        let r = p * (p + 1) + q * (q + 1);
        assert(s == 4 * r + 2) by (nonlinear_arith)
            requires
                s == (2 * x - (n - 1)) * (2 * x - (n - 1)) + (2 * y - (n - 1)) * (2 * y - (n - 1)),
                n == 2 * m,
                p == x - m,
                q == y - m,
                r == p * (p + 1) + q * (q + 1),
        ;
    } else {
        let p = x - m;
        let q = y - m;
        let r = p * p + q * q;
        assert(s == 4 * r) by (nonlinear_arith)
            requires
                s == (2 * x - (n - 1)) * (2 * x - (n - 1)) + (2 * y - (n - 1)) * (2 * y - (n - 1)),
                n == 2 * m + 1,
                p == x - m,
                q == y - m,
                r == p * p + q * q,
        ;
    }
}

/// The zone plate is symmetric about both axes and about the diagonal.
pub proof fn lemma_chirp_symmetric(n: int, x: int, y: int)
    ensures
        chirp_phase(n, x, y) == chirp_phase(n, n - 1 - x, y),
        chirp_phase(n, x, y) == chirp_phase(n, x, n - 1 - y),
        chirp_phase(n, x, y) == chirp_phase(n, y, x),
{
    let a = 2 * x - (n - 1);
    let b = 2 * y - (n - 1);
    assert(a * a == (-a) * (-a) && b * b == (-b) * (-b)) by (nonlinear_arith);
    assert(2 * (n - 1 - x) - (n - 1) == -a && 2 * (n - 1 - y) - (n - 1) == -b);
}

/// Offset of a centred mark of `n` cells.
pub open spec fn mark_offset(n: int) -> int {
    (GRID - n) / 2
}

/// The cell lies under a centred mark of `n` cells.
pub open spec fn under_mark(n: int, x: int, y: int) -> bool {
    let off = mark_offset(n);
    off <= x < off + n && off <= y < off + n
}

/// The sign of a symbol cell: that of the mark, else that of the border, else
/// a random one.
pub open spec fn symbol_sign(
    border: Seq<Option<bool>>,
    mark: Option<Seq<i8>>,
    n: int,
    seed_state: u64,
    c: int,
) -> bool {
    let x = c % (GRID as int);
    let y = c / (GRID as int);
    let off = mark_offset(n);
    if mark is Some && under_mark(n, x, y) {
        mark->0[(y - off) * n + (x - off)] >= 0
    } else if border[c] is Some {
        border[c]->0
    } else {
        output(state_after(seed_state, (c + 1) as nat)) & 1 != 0
    }
}

/// The cells of a symbol as signs: random payload, the border where it has a
/// sign, and in the centre the mark of `n` by `n` cells, if there is one.
pub fn symbol_cells(
    border: &Vec<Option<bool>>,
    mark: &Option<Vec<i8>>,
    n: usize,
    rng: &mut Rng,
) -> (cells: Vec<bool>)
    requires
        border@.len() == GRID * GRID,
        n <= GRID,
        mark matches Some(m) ==> m@.len() == n * n,
    ensures
        cells@.len() == GRID * GRID,
        forall|c: int|
            0 <= c < GRID * GRID ==> #[trigger] cells@[c] == symbol_sign(
                border@,
                match mark {
                    Some(m) => Some(m@),
                    None => None,
                },
                n as int,
                old(rng)@,
                c,
            ),
        final(rng)@ == state_after(old(rng)@, (GRID * GRID) as nat),
{
    let total: usize = GRID * GRID;
    let off: usize = (GRID - n) / 2;
    let ghost view = match mark {
        Some(m) => Some(m@),
        None => None,
    };
    let mut cells: Vec<bool> = Vec::new();
    let mut i: usize = 0;
    while i < total
        invariant
            total == GRID * GRID,
            border@.len() == total,
            n <= GRID,
            off == mark_offset(n as int),
            mark matches Some(m) ==> m@.len() == n * n,
            view == (match mark {
                Some(m) => Some(m@),
                None => None,
            }),
            i <= total,
            cells@.len() == i,
            rng@ == state_after(old(rng)@, i as nat),
            forall|c: int|
                0 <= c < i ==> #[trigger] cells@[c] == symbol_sign(
                    border@,
                    view,
                    n as int,
                    old(rng)@,
                    c,
                ),
        decreases total - i,
    {
        let random: bool = rng.next_u64() & 1 != 0;
        let x: usize = i % GRID;
        let y: usize = i / GRID;
        let mut sign: bool = match border[i] {
            Some(white) => white,
            None => random,
        };
        if let Some(m) = mark {
            if off <= x && x < off + n && off <= y && y < off + n {
                proof {
                    lemma_cell_inside(n as int, n as int, x - off, y - off);
                    assert(m.len() == n * n);
                }
                sign = m[(y - off) * n + (x - off)] >= 0;
            }
        }
        cells.push(sign);
        i = i + 1;
    }
    cells
}

/// The smallest of the primes 2, 3, 5 and 7 that divides `n`, or `n` itself.
pub open spec fn least_factor(n: int) -> int {
    if n % 2 == 0 {
        2
    } else if n % 3 == 0 {
        3
    } else if n % 5 == 0 {
        5
    } else if n % 7 == 0 {
        7
    } else {
        n
    }
}

/// Radix of the first step of a transform of length `n`.
pub fn smallest_factor(n: usize) -> (p: usize)
    ensures
        p == least_factor(n as int),
{
    if n % 2 == 0 {
        2
    } else if n % 3 == 0 {
        3
    } else if n % 5 == 0 {
        5
    } else if n % 7 == 0 {
        7
    } else {
        n
    }
}

/// What is left of `n` when it has been divided by `p` as often as that goes.
pub open spec fn stripped(n: nat, p: nat) -> nat
    decreases n,
{
    if n > 0 && p > 1 && n % p == 0 {
        proof {
            assert(n / p < n) by (nonlinear_arith)
                requires
                    n > 0,
                    p > 1,
            ;
        }
        stripped(n / p, p)
    } else {
        n
    }
}

/// `n` has no prime factors but 2, 3, 5 and 7.
pub open spec fn is_smooth(n: nat) -> bool {
    stripped(stripped(stripped(stripped(n, 2), 3), 5), 7) == 1
}

/// Divides `n` by `p` as often as that goes.
fn strip(n: usize, p: usize) -> (r: usize)
    requires
        n > 0,
        p > 1,
    ensures
        r == stripped(n as nat, p as nat),
        r > 0,
{
    let mut m: usize = n;
    while m % p == 0
        invariant
            m > 0,
            p > 1,
            stripped(m as nat, p as nat) == stripped(n as nat, p as nat),
        decreases m,
    {
        assert(0 < m / p < m) by (nonlinear_arith)
            requires
                m > 0,
                p > 1,
                m % p == 0,
        ;
        m = m / p;
    }
    m
}

/// Whether a transform of length `n` can be planned: whether it has no prime
/// factors but 2, 3, 5 and 7.
pub fn plannable(n: usize) -> (r: bool)
    requires
        n > 0,
    ensures
        r == is_smooth(n as nat),
{
    let a: usize = strip(n, 2);
    let b: usize = strip(a, 3);
    let c: usize = strip(b, 5);
    let d: usize = strip(c, 7);
    d == 1
}

/// Every step of a planned transform has radix 2, 3, 5 or 7 and leaves a
/// transform that can be planned.
pub proof fn lemma_radices_small(n: nat)
    requires
        n > 1,
        is_smooth(n),
    ensures
        2 <= least_factor(n as int) <= 7,
        n % (least_factor(n as int) as nat) == 0,
        is_smooth(n / (least_factor(n as int) as nat)),
        n / (least_factor(n as int) as nat) < n,
{
    lemma_planned_by_radices(n);
    let p = least_factor(n as int);
    lemma_radix_is_least_divisor(n as int, 2);
    assert(n as int / p < n) by (nonlinear_arith)
        requires
            n > 1,
            p >= 2,
    ;
}

/// Rows of each part when `rows` rows are shared out to `threads` workers:
/// the fewest that let the workers cover all rows, at least one.
pub fn rows_per_worker(rows: usize, threads: usize) -> (chunk: usize)
    requires
        threads > 0,
        rows + threads <= usize::MAX,
    ensures
        chunk >= 1,
        chunk * threads >= rows,
        chunk > 1 ==> (chunk - 1) * threads < rows,
{
    let up: usize = (rows + threads - 1) / threads;
    let ghost (r, t, u) = (rows as int, threads as int, up as int);
    assert(u * t >= r && (u > 0 ==> (u - 1) * t < r)) by (nonlinear_arith)
        requires
            u == (r + t - 1) / t,
            t > 0,
            r >= 0,
    ;
    if up > 1 {
        up
    } else {
        assert(1 * t >= r || u != 0) by (nonlinear_arith)
            requires
                u * t >= r,
                t > 0,
        ;
        1
    }
}

/// Windows of `n` by `n` pixels on a grid of step `stride` in a picture `w` by `h`.
pub fn window_count(w: usize, h: usize, n: usize, stride: usize) -> (r: usize)
    requires
        n <= w,
        n <= h,
        stride > 0,
        (w - n + 1) * (h - n + 1) <= usize::MAX,
        w - n < usize::MAX,
        h - n < usize::MAX,
    ensures
        r == ((w - n) / (stride as int) + 1) * ((h - n) / (stride as int) + 1),
        stride == 1 ==> r == (w - n + 1) * (h - n + 1),
        stride > w - n && stride > h - n ==> r == 1,
{
    let a: usize = (w - n) / stride + 1;
    let b: usize = (h - n) / stride + 1;
    proof {
        assert((w - n) / (stride as int) <= w - n && (h - n) / (stride as int) <= h - n)
            by (nonlinear_arith)
            requires
                stride > 0,
                w >= n,
                h >= n,
        ;
        assert(a * b <= (w - n + 1) * (h - n + 1)) by (nonlinear_arith)
            requires
                0 <= a <= w - n + 1,
                0 <= b <= h - n + 1,
        ;
        if stride > w - n && stride > h - n {
            vstd::arithmetic::div_mod::lemma_basic_div(w - n, stride as int);
            vstd::arithmetic::div_mod::lemma_basic_div(h - n, stride as int);
            assert(a * b == 1) by (nonlinear_arith)
                requires
                    a == 1,
                    b == 1,
            ;
        }
    }
    a * b
}

/// A cyclic shift by `i` of `n` as the shift of smallest magnitude.
pub fn wrap_shift(i: usize, n: usize) -> (r: isize)
    requires
        i < n <= isize::MAX,
    ensures
        r == if i > n / 2 {
            i - n
        } else {
            i as int
        },
        (r - i) % (n as int) == 0,
        -(n as int) <= 2 * r <= n,
{
    proof {
        vstd::arithmetic::div_mod::lemma_mod_self_0(n as int);
        vstd::arithmetic::div_mod::lemma_mod_multiples_basic(-1, n as int);
        vstd::arithmetic::div_mod::lemma_small_mod(0, n as nat);
    }
    if i > n / 2 {
        i as isize - n as isize
    } else {
        i as isize
    }
}

/// Cut out of the symbol at its offset, row by row, the mark shows its own
/// signs in its own order, whatever the border and the payload are.
pub proof fn lemma_mark_window(
    border: Seq<Option<bool>>,
    mark: Seq<i8>,
    n: int,
    seed_state: u64,
    u: int,
    v: int,
)
    requires
        0 <= u < n <= 61,
        0 <= v < n,
        mark.len() == n * n,
    ensures
        symbol_sign(
            border,
            Some(mark),
            n,
            seed_state,
            ((61 - n) / 2 + v) * 61 + (61 - n) / 2 + u,
        ) <==> mark[v * n + u] >= 0,
{
    lemma_cell_unique(61, (61 - n) / 2 + u, (61 - n) / 2 + v);
}

/// Outside the mark, and everywhere without one, a cell with a border sign
/// shows it, and any other cell the last bit of the draw with its own number.
pub proof fn lemma_around_mark(
    border: Seq<Option<bool>>,
    mark: Option<Seq<i8>>,
    n: int,
    seed_state: u64,
    x: int,
    y: int,
)
    requires
        0 <= x < 61,
        0 <= y < 61,
        0 <= n <= 61,
        mark is None || x < (61 - n) / 2 || y < (61 - n) / 2 || x >= (61 - n) / 2 + n || y >= (61
            - n) / 2 + n,
    ensures
        border[y * 61 + x] matches Some(white) ==> symbol_sign(
            border,
            mark,
            n,
            seed_state,
            y * 61 + x,
        ) == white,
        border[y * 61 + x] is None ==> (symbol_sign(border, mark, n, seed_state, y * 61 + x)
            <==> output(state_after(seed_state, (y * 61 + x + 1) as nat)) % 2 == 1),
{
    lemma_cell_unique(61, x, y);
    lemma_last_bit(output(state_after(seed_state, (y * 61 + x + 1) as nat)));
}

/// Rings are counted by the larger of the two distances from the centre: from
/// the central cell of a mark of odd size, and from the four central cells,
/// which are ring one, in a mark of even size.
pub proof fn lemma_ring_is_distance(m: int, i: int, j: int)
    requires
        0 <= j <= i,
    ensures
        ring_number(2 * m + 1, m + i, m + j) == i,
        ring_number(2 * m + 1, m + j, m + i) == i,
        ring_number(2 * m, m + i, m + j) == i + 1,
        ring_number(2 * m, m + j, m + i) == i + 1,
{
}

/// A cell of a zone plate is light where its phase is less than a quarter of a
/// turn, which is `8 n` steps, away from a whole number of turns.
pub proof fn lemma_light_near_whole_turns(n: int, x: int, y: int)
    requires
        n > 0,
    ensures
        chirp_light(n, x, y) <==> exists|k: int|
            -2 * n < chirp_phase(n, x, y) - #[trigger] (k * (8 * n)) < 2 * n,
{
    let s = chirp_phase(n, x, y);
    let turn = 8 * n;
    let q = s / turn;
    let t = s % turn;
    vstd::arithmetic::div_mod::lemma_fundamental_div_mod(s, turn);
    vstd::arithmetic::div_mod::lemma_mod_bound(s, turn);
    assert(turn * q == q * turn && (q + 1) * turn == q * turn + turn) by (nonlinear_arith);
    if chirp_light(n, x, y) {
        if t < 2 * n {
            assert(-2 * n < s - q * (8 * n) < 2 * n);
        } else {
            assert(-2 * n < s - (q + 1) * (8 * n) < 2 * n);
        }
    }
    if exists|k: int| -2 * n < s - #[trigger] (k * (8 * n)) < 2 * n {
        let k = choose|k: int| -2 * n < s - #[trigger] (k * (8 * n)) < 2 * n;
        assert(k == q || k == q + 1) by (nonlinear_arith)
            requires
                -2 * n < s - k * turn < 2 * n,
                s == q * turn + t,
                0 <= t < turn,
                turn == 8 * n,
                n > 0,
        ;
    }
}

/// The phase is zero in the centre and grows with the square of the distance:
/// from one column or row to the next its growth is eight steps more each time.
pub proof fn lemma_phase_growth(n: int, x: int, y: int)
    ensures
        chirp_phase(n, x + 1, y) - chirp_phase(n, x, y) == 8 * x - 4 * n + 8,
        chirp_phase(n, x, y + 1) - chirp_phase(n, x, y) == 8 * y - 4 * n + 8,
        n == 2 * x + 1 && x == y ==> chirp_phase(n, x, y) == 0,
{
    let a = 2 * x - (n - 1);
    let b = 2 * y - (n - 1);
    assert((a + 2) * (a + 2) == a * a + 4 * a + 4 && (b + 2) * (b + 2) == b * b + 4 * b + 4)
        by (nonlinear_arith);
    assert(2 * (x + 1) - (n - 1) == a + 2 && 2 * (y + 1) - (n - 1) == b + 2);
    if n == 2 * x + 1 && x == y {
        assert(a == 0 && b == 0);
        assert(a * a == 0 && b * b == 0) by (nonlinear_arith)
            requires
                a == 0,
                b == 0,
        ;
    }
}

/// The first radix divides the length, and nothing between one and it does; a
/// length that none of the four radices divides is its own.
pub proof fn lemma_radix_is_least_divisor(n: int, d: int)
    requires
        n > 0,
        2 <= d <= 7,
    ensures
        n % least_factor(n) == 0,
        d < least_factor(n) ==> n % d != 0,
        least_factor(n) > 7 ==> least_factor(n) == n,
{
    vstd::arithmetic::div_mod::lemma_mod_self_0(n);
    assert(n % 4 == 0 ==> n % 2 == 0);
    assert(n % 6 == 0 ==> n % 2 == 0);
    assert(d == 2 || d == 3 || d == 4 || d == 5 || d == 6 || d == 7);
    if n % d == 0 {
        assert(least_factor(n) <= d);
    }
}

/// Dividing out leaves nothing of the divisor.
pub proof fn lemma_nothing_left(n: nat, p: nat)
    requires
        n > 0,
        p > 1,
    ensures
        stripped(n, p) > 0,
        stripped(n, p) % p != 0,
        n % p != 0 ==> stripped(n, p) == n,
        stripped(n * p, p) == stripped(n, p),
    decreases n,
{
    vstd::arithmetic::div_mod::lemma_div_multiples_vanish(n as int, p as int);
    vstd::arithmetic::div_mod::lemma_mod_multiples_basic(n as int, p as int);
    assert(n * p > 0 && p * n == n * p) by (nonlinear_arith)
        requires
            n > 0,
            p > 1,
    ;
    if n % p == 0 {
        assert(0 < n / p < n) by (nonlinear_arith)
            requires
                n > 0,
                p > 1,
                n % p == 0,
        ;
        lemma_nothing_left(n / p, p);
    }
}

/// A divisor divides out once more, and what does not divide a length does not
/// divide what remains of it.
proof fn lemma_divided_once(n: nat, q: nat, p: nat)
    requires
        n > 0,
        q > 1,
        p > 1,
        n % q == 0,
    ensures
        n / q > 0,
        stripped(n, q) == stripped(n / q, q),
        n % p != 0 ==> (n / q) % p != 0,
        n % p != 0 ==> stripped(n, p) == n && stripped(n / q, p) == n / q,
{
    let m = n / q;
    vstd::arithmetic::div_mod::lemma_fundamental_div_mod(n as int, q as int);
    assert(m > 0) by (nonlinear_arith)
        requires
            n == q * m,
            n > 0,
    ;
    if m % p == 0 {
        let k = m / p;
        vstd::arithmetic::div_mod::lemma_fundamental_div_mod(m as int, p as int);
        assert(n == (q * k) * p) by (nonlinear_arith)
            requires
                n == q * m,
                m == p * k,
        ;
        vstd::arithmetic::div_mod::lemma_mod_multiples_basic((q * k) as int, p as int);
    }
}

/// Lengths that can be planned are built up from one: any other can be planned
/// exactly when its first radix is at most seven and what remains can be.
pub proof fn lemma_planned_by_radices(n: nat)
    requires
        n > 1,
    ensures
        is_smooth(1),
        is_smooth(n) <==> least_factor(n as int) <= 7 && is_smooth(
            n / (least_factor(n as int) as nat),
        ),
{
    assert(stripped(1, 2) == 1 && stripped(1, 3) == 1 && stripped(1, 5) == 1 && stripped(1, 7) == 1);
    if n % 2 == 0 {
        lemma_divided_once(n, 2, 2);
    } else if n % 3 == 0 {
        lemma_divided_once(n, 3, 2);
    } else if n % 5 == 0 {
        lemma_divided_once(n, 5, 2);
        lemma_divided_once(n, 5, 3);
    } else if n % 7 == 0 {
        lemma_divided_once(n, 7, 2);
        lemma_divided_once(n, 7, 3);
        lemma_divided_once(n, 7, 5);
    } else {
        lemma_nothing_left(n, 2);
        lemma_nothing_left(n, 3);
        lemma_nothing_left(n, 5);
        lemma_nothing_left(n, 7);
        assert(n != 2 && n != 3 && n != 4 && n != 5 && n != 6 && n != 7);
    }
}

/// The tables have four rows of rising size for each of the marks in the
/// centre and for the corner, and one row for the border.
pub proof fn lemma_rows_of_tables(kind: int, size: int)
    requires
        0 <= kind < 4,
        0 <= size < 4,
    ensures
        table_rows().len() == 17,
        table_rows()[4 * kind + size].0 == (if kind == 0 {
            Cand::MArray
        } else if kind == 1 {
            Cand::Chirp
        } else if kind == 2 {
            Cand::Bullseye
        } else {
            Cand::V1Corner
        }),
        table_rows()[4 * kind + size].1 == (if size == 0 {
            9usize
        } else if size == 1 {
            15
        } else if size == 2 {
            21
        } else {
            25
        }),
        table_rows()[16] == (Cand::V1Border, 0usize),
{
    assert((4 * kind + size) % 4 == size);
}

} // verus!
