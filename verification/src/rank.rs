//! Choosing the best of many measurements. A measurement is a floating-point
//! number elsewhere; here it is an integer key that orders as the number does.

use vstd::prelude::*;

use crate::grid::{lemma_cell_inside, lemma_cell_split, lemma_cell_unique};
use crate::sums::{lemma_sum_plus, sum_range};

verus! {

/// The sign bit of a 64-bit floating-point number is set.
pub open spec fn is_negative(bits: u64) -> bool {
    bits >= 0x8000_0000_0000_0000
}

/// The order of two 64-bit floating-point numbers that are not NaN, from
/// their bits: negative below positive, and by magnitude within a sign.
pub open spec fn float_less(a: u64, b: u64) -> bool {
    if is_negative(a) {
        !is_negative(b) || a > b
    } else {
        !is_negative(b) && a < b
    }
}

/// The key of a floating-point number.
pub open spec fn key_of(bits: u64) -> u64 {
    if is_negative(bits) {
        !bits
    } else {
        bits | 0x8000_0000_0000_0000
    }
}

/// A key that orders the bits of floating-point numbers as the numbers are ordered.
pub fn order_key(bits: u64) -> (key: u64)
    ensures
        key == key_of(bits),
{
    if bits >= 0x8000_0000_0000_0000 {
        !bits
    } else {
        bits | 0x8000_0000_0000_0000
    }
}

/// Keys order as the numbers do, and different bits have different keys.
pub proof fn lemma_keys_order(a: u64, b: u64)
    ensures
        key_of(a) < key_of(b) <==> float_less(a, b),
        key_of(a) == key_of(b) <==> a == b,
{
    let s = 0x8000_0000_0000_0000u64;
    assert((a >= s ==> !a < s && !a == 0xFFFF_FFFF_FFFF_FFFF - a) && (a < s ==> a | s >= s && a | s
        == a + s)) by (bit_vector)
        requires
            s == 0x8000_0000_0000_0000u64,
    ;
    assert((b >= s ==> !b < s && !b == 0xFFFF_FFFF_FFFF_FFFF - b) && (b < s ==> b | s >= s && b | s
        == b + s)) by (bit_vector)
        requires
            s == 0x8000_0000_0000_0000u64,
    ;
}

/// `i` is the first index of the largest key above `floor`.
pub open spec fn is_first_max(keys: Seq<u64>, floor: u64, i: int) -> bool {
    &&& 0 <= i < keys.len()
    &&& keys[i] > floor
    &&& forall|j: int| 0 <= j < keys.len() ==> #[trigger] keys[j] <= keys[i]
    &&& forall|j: int| 0 <= j < i ==> #[trigger] keys[j] < keys[i]
}

/// The first of the largest keys above `floor`.
pub fn first_max_above(keys: &[u64], floor: u64) -> (r: Option<usize>)
    ensures
        r matches Some(i) ==> is_first_max(keys@, floor, i as int),
        r is None ==> forall|j: int| 0 <= j < keys@.len() ==> #[trigger] keys@[j] <= floor,
{
    let mut best: Option<usize> = None;
    let mut top: u64 = floor;
    let mut i: usize = 0;
    while i < keys.len()
        invariant
            i <= keys@.len(),
            top >= floor,
            best is None ==> top == floor,
            best matches Some(b) ==> b < i && keys@[b as int] == top && top > floor && forall|j: int|
                0 <= j < b ==> #[trigger] keys@[j] < top,
            forall|j: int| 0 <= j < i ==> #[trigger] keys@[j] <= top,
        decreases keys@.len() - i,
    {
        if keys[i] > top {
            top = keys[i];
            best = Some(i);
        }
        i = i + 1;
    }
    best
}

/// `i` is the first index of the largest key.
pub open spec fn is_first_top(keys: Seq<u64>, i: int) -> bool {
    &&& 0 <= i < keys.len()
    &&& forall|j: int| 0 <= j < keys.len() ==> #[trigger] keys[j] <= keys[i]
    &&& forall|j: int| 0 <= j < i ==> #[trigger] keys[j] < keys[i]
}

/// The first of the largest keys.
pub fn first_max(keys: &[u64]) -> (r: usize)
    requires
        keys@.len() > 0,
    ensures
        is_first_top(keys@, r as int),
{
    let mut best: usize = 0;
    let mut i: usize = 1;
    while i < keys.len()
        invariant
            best < i <= keys@.len(),
            forall|j: int| 0 <= j < i ==> #[trigger] keys@[j] <= keys@[best as int],
            forall|j: int| 0 <= j < best ==> #[trigger] keys@[j] < keys@[best as int],
        decreases keys@.len() - i,
    {
        if keys[i] > keys[best] {
            best = i;
        }
        i = i + 1;
    }
    best
}

/// A square window around `(x, y)` that reaches `reach` cells out.
#[derive(Clone, Copy, Debug)]
pub struct Window {
    pub x: usize,
    pub y: usize,
    pub reach: usize,
}

impl Window {
    /// The cell lies in the window.
    pub open spec fn holds(self, x: int, y: int) -> bool {
        &&& self.x - self.reach <= x <= self.x + self.reach
        &&& self.y - self.reach <= y <= self.y + self.reach
    }

    /// Whether a cell lies in the window.
    pub fn contains(self, x: usize, y: usize) -> (r: bool)
        ensures
            r == self.holds(x as int, y as int),
    {
        let dx: usize = if x > self.x { x - self.x } else { self.x - x };
        let dy: usize = if y > self.y { y - self.y } else { self.y - y };
        dx <= self.reach && dy <= self.reach
    }
}

/// A correlation surface `w` wide whose first `vw` columns and `vh` rows count.
pub struct Surface {
    pub w: usize,
    pub vw: usize,
    pub vh: usize,
    pub keys: Vec<u64>,
}

impl Surface {
    /// The part that counts lies in the surface.
    pub open spec fn wf(&self) -> bool {
        &&& 0 < self.vw <= self.w
        &&& 0 < self.vh
        &&& self.w * self.vh <= self.keys@.len()
    }

    /// The key in column `x` and row `y`.
    pub open spec fn key(&self, x: int, y: int) -> u64 {
        self.keys@[y * self.w + x]
    }

    /// The key of position number `c`, counted row by row over the part that counts.
    pub open spec fn nth(&self, c: int) -> u64 {
        self.key(c % (self.vw as int), c / (self.vw as int))
    }

    /// Position number `c` takes part: it lies outside the window, if there is one.
    pub open spec fn eligible(&self, hole: Option<Window>, c: int) -> bool {
        match hole {
            Some(win) => !win.holds(c % (self.vw as int), c / (self.vw as int)),
            None => true,
        }
    }

    /// `c` is the first of the largest keys above `floor` outside the window.
    pub open spec fn is_top(&self, hole: Option<Window>, floor: u64, c: int) -> bool {
        &&& 0 <= c < self.vw * self.vh
        &&& self.eligible(hole, c)
        &&& self.nth(c) > floor
        &&& forall|d: int|
            0 <= d < self.vw * self.vh && self.eligible(hole, d) ==> #[trigger] self.nth(d)
                <= self.nth(c)
        &&& forall|d: int| 0 <= d < c && self.eligible(hole, d) ==> #[trigger] self.nth(d) < self.nth(c)
    }

    /// How many positions lie outside the window.
    pub open spec fn count_outside(&self, hole: Option<Window>) -> int {
        sum_range(
            0,
            (self.vw * self.vh) as nat,
            |c: int|
                if self.eligible(hole, c) {
                    1
                } else {
                    0
                },
        )
    }

    /// The key of one position.
    pub fn at(&self, x: usize, y: usize) -> (key: u64)
        requires
            self.wf(),
            x < self.vw,
            y < self.vh,
        ensures
            key == self.key(x as int, y as int),
    {
        proof {
            lemma_cell_inside(self.w as int, self.vh as int, x as int, y as int);
            assert(self.keys.len() == self.keys@.len());
        }
        self.keys[y * self.w + x]
    }

    /// The first of the largest keys above `floor` outside the window, as
    /// column and row, and the number of positions outside the window.
    pub fn top(&self, hole: Option<Window>, floor: u64) -> (r: (Option<(usize, usize)>, usize))
        requires
            self.wf(),
        ensures
            r.0 matches Some((x, y)) ==> x < self.vw && y < self.vh && self.is_top(
                hole,
                floor,
                y * self.vw + x,
            ),
            r.0 is None ==> forall|d: int|
                0 <= d < self.vw * self.vh && self.eligible(hole, d) ==> #[trigger] self.nth(d)
                    <= floor,
            r.1 == self.count_outside(hole),
    {
        proof {
            assert(self.keys.len() == self.keys@.len());
            assert(self.vw * self.vh <= self.w * self.vh) by (nonlinear_arith)
                requires
                    self.vw <= self.w,
                    self.vh >= 0,
            ;
        }
        let n: usize = self.vw * self.vh;
        let mut best: Option<(usize, usize)> = None;
        let mut top: u64 = floor;
        let mut count: usize = 0;
        let mut c: usize = 0;
        let ghost mut at: int = 0;
        let ghost f = |c: int|
            if self.eligible(hole, c) {
                1int
            } else {
                0
            };
        while c < n
            invariant
                self.wf(),
                n == self.vw * self.vh,
                c <= n,
                f == (|c: int|
                    if self.eligible(hole, c) {
                        1int
                    } else {
                        0
                    }),
                count == sum_range(0, c as nat, f),
                count <= c,
                top >= floor,
                best is None ==> top == floor,
                best matches Some((x, y)) ==> {
                    &&& x < self.vw
                    &&& y < self.vh
                    &&& at == y * self.vw + x
                    &&& 0 <= at < c
                    &&& self.eligible(hole, at)
                    &&& self.nth(at) == top
                    &&& top > floor
                    &&& forall|d: int|
                        0 <= d < at && self.eligible(hole, d) ==> #[trigger] self.nth(d) < top
                },
                forall|d: int|
                    0 <= d < c && self.eligible(hole, d) ==> #[trigger] self.nth(d) <= top,
            decreases n - c,
        {
            proof {
                lemma_cell_split(self.vw as int, self.vh as int, c as int);
            }
            let x: usize = c % self.vw;
            let y: usize = c / self.vw;
            let skip: bool = match hole {
                Some(win) => win.contains(x, y),
                None => false,
            };
            if !skip {
                let key: u64 = self.at(x, y);
                if key > top {
                    top = key;
                    best = Some((x, y));
                    proof {
                        at = c as int;
                    }
                }
                count = count + 1;
            }
            c = c + 1;
        }
        (best, count)
    }
}

/// The first distance from `at`, in one direction, at which the line ends, the
/// distance passes 400, or the key lies below `half`.
pub open spec fn is_fall(line: Seq<u64>, at: int, dir: int, half: u64, r: int) -> bool {
    let stops = |d: int| {
        let i = at + dir * d;
        i < 0 || i >= line.len() || d > 400 || line[i] < half
    };
    &&& r >= 1
    &&& stops(r)
    &&& forall|d: int| 1 <= d < r ==> !#[trigger] stops(d)
}

/// How far a lobe reaches to the right of `at`.
fn fall_right(line: &[u64], at: usize, half: u64) -> (r: usize)
    requires
        at < line@.len(),
    ensures
        is_fall(line@, at as int, 1, half, r as int),
{
    let len: usize = line.len();
    let mut r: usize = 1;
    while r <= 400 && r < len - at && line[at + r] >= half
        invariant
            len == line@.len(),
            at < len,
            1 <= r <= 401,
            r <= len - at,
            forall|d: int| 1 <= d < r ==> d <= 400 && at + d < len && line@[#[trigger] (at + d)] >= half,
        decreases 401 - r,
    {
        r = r + 1;
    }
    proof {
        let stops = |d: int| {
            let i = at + 1 * d;
            i < 0 || i >= line@.len() || d > 400 || line@[i] < half
        };
        assert(stops(r as int));
        assert forall|d: int| 1 <= d < r implies !#[trigger] stops(d) by {
            assert(line@[at + d] >= half);
        }
    }
    r
}

/// How far a lobe reaches to the left of `at`.
fn fall_left(line: &[u64], at: usize, half: u64) -> (r: usize)
    requires
        at < line@.len(),
    ensures
        is_fall(line@, at as int, -1, half, r as int),
{
    let mut r: usize = 1;
    while r <= 400 && r <= at && line[at - r] >= half
        invariant
            at < line@.len(),
            1 <= r <= 401,
            r <= at + 1,
            forall|d: int| 1 <= d < r ==> d <= 400 && d <= at && line@[#[trigger] (at - d)] >= half,
        decreases 401 - r,
    {
        r = r + 1;
    }
    proof {
        let stops = |d: int| {
            let i = at + (-1) * d;
            i < 0 || i >= line@.len() || d > 400 || line@[i] < half
        };
        assert(stops(r as int));
        assert forall|d: int| 1 <= d < r implies !#[trigger] stops(d) by {
            assert(line@[at - d] >= half);
        }
    }
    r
}

impl Surface {
    /// The keys of a row, over the part that counts.
    pub open spec fn row_line(&self, y: int) -> Seq<u64> {
        Seq::new(self.vw as nat, |x: int| self.key(x, y))
    }

    /// The keys of a column, over the part that counts.
    pub open spec fn column_line(&self, x: int) -> Seq<u64> {
        Seq::new(self.vh as nat, |y: int| self.key(x, y))
    }

    /// Half width of the lobe at `(x, y)` at the level `half`: the farthest of
    /// the four distances at which it falls below, left, right, up and down.
    pub fn lobe_half_width(&self, x: usize, y: usize, half: u64) -> (r: usize)
        requires
            self.wf(),
            x < self.vw,
            y < self.vh,
        ensures
            exists|a: int, b: int, c: int, d: int|
                {
                    &&& #[trigger] is_fall(self.row_line(y as int), x as int, -1, half, a)
                    &&& #[trigger] is_fall(self.row_line(y as int), x as int, 1, half, b)
                    &&& #[trigger] is_fall(self.column_line(x as int), y as int, -1, half, c)
                    &&& #[trigger] is_fall(self.column_line(x as int), y as int, 1, half, d)
                    &&& r >= a && r >= b && r >= c && r >= d
                    &&& r == a || r == b || r == c || r == d
                },
    {
        let mut row: Vec<u64> = Vec::new();
        let mut i: usize = 0;
        while i < self.vw
            invariant
                self.wf(),
                y < self.vh,
                i <= self.vw,
                row@.len() == i,
                forall|j: int| 0 <= j < i ==> #[trigger] row@[j] == self.key(j, y as int),
            decreases self.vw - i,
        {
            row.push(self.at(i, y));
            i = i + 1;
        }
        let mut column: Vec<u64> = Vec::new();
        let mut k: usize = 0;
        while k < self.vh
            invariant
                self.wf(),
                x < self.vw,
                k <= self.vh,
                column@.len() == k,
                forall|j: int| 0 <= j < k ==> #[trigger] column@[j] == self.key(x as int, j),
            decreases self.vh - k,
        {
            column.push(self.at(x, k));
            k = k + 1;
        }
        assert(row@ =~= self.row_line(y as int));
        assert(column@ =~= self.column_line(x as int));
        let a: usize = fall_left(row.as_slice(), x, half);
        let b: usize = fall_right(row.as_slice(), x, half);
        let c: usize = fall_left(column.as_slice(), y, half);
        let d: usize = fall_right(column.as_slice(), y, half);
        let across: usize = if a > b { a } else { b };
        let along: usize = if c > d { c } else { d };
        if across > along {
            across
        } else {
            along
        }
    }
}

/// The first that holds.
pub fn first_true(flags: &[bool]) -> (r: Option<usize>)
    ensures
        r matches Some(i) ==> i < flags@.len() && flags@[i as int] && forall|j: int|
            0 <= j < i ==> !#[trigger] flags@[j],
        r is None ==> forall|j: int| 0 <= j < flags@.len() ==> !#[trigger] flags@[j],
{
    let mut i: usize = 0;
    while i < flags.len()
        invariant
            i <= flags@.len(),
            forall|j: int| 0 <= j < i ==> !#[trigger] flags@[j],
        decreases flags@.len() - i,
    {
        if flags[i] {
            return Some(i);
        }
        i = i + 1;
    }
    None
}

/// The last that holds.
pub fn last_true(flags: &[bool]) -> (r: Option<usize>)
    ensures
        r matches Some(i) ==> i < flags@.len() && flags@[i as int] && forall|j: int|
            i < j < flags@.len() ==> !#[trigger] flags@[j],
        r is None ==> forall|j: int| 0 <= j < flags@.len() ==> !#[trigger] flags@[j],
{
    let mut i: usize = flags.len();
    while i > 0
        invariant
            i <= flags@.len(),
            forall|j: int| i <= j < flags@.len() ==> !#[trigger] flags@[j],
        decreases i,
    {
        i = i - 1;
        if flags[i] {
            return Some(i);
        }
    }
    None
}

impl Surface {
    /// The positions that count run through the rows from left to right, and
    /// a window leaves out those within its reach in both directions.
    pub proof fn lemma_positions(&self, win: Window, x: int, y: int)
        requires
            self.wf(),
            0 <= x < self.vw,
            0 <= y < self.vh,
        ensures
            self.nth(y * self.vw + x) == self.keys@[y * self.w + x],
            0 <= y * self.vw + x < self.vw * self.vh,
            self.eligible(None, y * self.vw + x),
            self.eligible(Some(win), y * self.vw + x) <==> x < win.x - win.reach || x > win.x
                + win.reach || y < win.y - win.reach || y > win.y + win.reach,
    {
        lemma_cell_inside(self.vw as int, self.vh as int, x, y);
        lemma_cell_unique(self.vw as int, x, y);
    }

    /// The top of a surface beats every position outside the window, and those
    /// in rows above it or further left in its row strictly.
    pub proof fn lemma_top_beats(
        &self,
        win: Window,
        floor: u64,
        x: int,
        y: int,
        u: int,
        v: int,
    )
        requires
            self.wf(),
            0 <= x < self.vw,
            0 <= y < self.vh,
            0 <= u < self.vw,
            0 <= v < self.vh,
            self.is_top(Some(win), floor, y * self.vw + x),
            u < win.x - win.reach || u > win.x + win.reach || v < win.y - win.reach || v > win.y
                + win.reach,
        ensures
            self.keys@[v * self.w + u] <= self.keys@[y * self.w + x],
            self.keys@[y * self.w + x] > floor,
            v < y || v == y && u < x ==> self.keys@[v * self.w + u] < self.keys@[y * self.w + x],
    {
        self.lemma_positions(win, x, y);
        self.lemma_positions(win, u, v);
        if v < y {
            lemma_cell_inside(self.vw as int, y, u, v);
            assert(self.vw * y == y * self.vw) by (nonlinear_arith);
        }
        assert(self.nth(v * self.vw + u) <= self.nth(y * self.vw + x));
    }

    /// Positions lie inside the window or outside: both counts together are
    /// all positions, and without a window all are outside.
    pub proof fn lemma_outside_counted(&self, win: Window)
        ensures
            self.count_outside(Some(win)) + sum_range(
                0,
                (self.vw * self.vh) as nat,
                |c: int|
                    if win.holds(c % (self.vw as int), c / (self.vw as int)) {
                        1
                    } else {
                        0
                    },
            ) == self.vw * self.vh,
            self.count_outside(None) == self.vw * self.vh,
    {
        let n = (self.vw * self.vh) as nat;
        assert(self.vw * self.vh >= 0) by (nonlinear_arith)
            requires
                self.vw >= 0,
                self.vh >= 0,
        ;
        let f = |c: int|
            if self.eligible(Some(win), c) {
                1int
            } else {
                0
            };
        let g = |c: int|
            if win.holds(c % (self.vw as int), c / (self.vw as int)) {
                1int
            } else {
                0
            };
        let all = |c: int|
            if self.eligible(None, c) {
                1int
            } else {
                0
            };
        lemma_sum_plus(0, n, f, g, all);
        lemma_positions_all(n, all);
    }
}

/// A sum of ones is their number.
proof fn lemma_positions_all(n: nat, f: spec_fn(int) -> int)
    requires
        forall|i: int| 0 <= i < n ==> #[trigger] f(i) == 1,
    ensures
        sum_range(0, n, f) == n,
    decreases n,
{
    if n > 0 {
        lemma_positions_all((n - 1) as nat, f);
    }
}

/// A lobe stays at the level up to the place before its fall, and has fallen
/// below it, or the line has ended, or 400 places are passed, at the fall.
/// There is only one such distance.
pub proof fn lemma_fall(line: Seq<u64>, at: int, right: bool, half: u64, r: int, d: int, other: int)
    requires
        0 <= at < line.len(),
        is_fall(line, at, if right { 1 } else { -1 }, half, r),
    ensures
        1 <= d < r && right ==> d <= 400 && at + d < line.len() && line[at + d] >= half,
        1 <= d < r && !right ==> d <= 400 && at - d >= 0 && line[at - d] >= half,
        right ==> at + r >= line.len() || r > 400 || line[at + r] < half,
        !right ==> at - r < 0 || r > 400 || line[at - r] < half,
        is_fall(line, at, if right { 1 } else { -1 }, half, other) ==> other == r,
{
    let dir: int = if right { 1 } else { -1 };
    let stops = |e: int| {
        let i = at + dir * e;
        i < 0 || i >= line.len() || e > 400 || line[i] < half
    };
    assert(stops(r));
    if 1 <= d < r {
        assert(!stops(d));
    }
    if is_fall(line, at, dir, half, other) {
        assert(stops(other));
        if other < r {
            assert(!stops(other));
        }
    }
}

/// Positive numbers order as their bits do, changing both signs turns the
/// order round, and every number with the sign set lies below all without it.
pub proof fn lemma_float_order(a: u64, b: u64)
    requires
        a < 0x8000_0000_0000_0000,
        b < 0x8000_0000_0000_0000,
    ensures
        float_less(a, b) <==> a < b,
        float_less((b + 0x8000_0000_0000_0000) as u64, (a + 0x8000_0000_0000_0000) as u64)
            <==> float_less(a, b),
        float_less((a + 0x8000_0000_0000_0000) as u64, b),
        !float_less(a, (b + 0x8000_0000_0000_0000) as u64),
{
}

/// Of equal keys the first is chosen, no key is larger, and there is only one
/// choice. The floor itself is never reached by the choice above it.
pub proof fn lemma_first_of_equals(keys: Seq<u64>, floor: u64, i: int, j: int)
    requires
        0 <= j < keys.len(),
    ensures
        is_first_max(keys, floor, i) ==> floor < keys[i] && keys[j] <= keys[i] && (keys[j] == keys[i]
            ==> i <= j),
        is_first_top(keys, i) ==> keys[j] <= keys[i] && (keys[j] == keys[i] ==> i <= j),
        is_first_max(keys, floor, i) && is_first_max(keys, floor, j) ==> i == j,
        is_first_top(keys, i) && is_first_top(keys, j) ==> i == j,
{
    if is_first_top(keys, i) && is_first_top(keys, j) {
        assert(keys[i] <= keys[j] && keys[j] <= keys[i]);
    }
}

impl Surface {
    /// A row is read from left to right and a column downwards.
    pub proof fn lemma_lines(&self, x: int, y: int)
        requires
            0 <= x < self.vw,
            0 <= y < self.vh,
        ensures
            self.row_line(y).len() == self.vw,
            self.column_line(x).len() == self.vh,
            self.row_line(y)[x] == self.keys@[y * self.w + x],
            self.column_line(x)[y] == self.keys@[y * self.w + x],
    {
    }
}

} // verus!
