//! Camera dumps: the text that describes one, and its planes.

use vstd::prelude::*;

use crate::grid::{lemma_cell_split, lemma_cell_unique};
use crate::image::Image;
use crate::text::{parse_usize, parsed};

verus! {

/// Characters that separate words: the white space of Unicode.
pub open spec fn is_space(c: char) -> bool {
    let u = c as u32;
    ||| 0x09 <= u <= 0x0D
    ||| u == 0x20
    ||| u == 0x85
    ||| u == 0xA0
    ||| u == 0x1680
    ||| 0x2000 <= u <= 0x200A
    ||| u == 0x2028
    ||| u == 0x2029
    ||| u == 0x202F
    ||| u == 0x205F
    ||| u == 0x3000
}

/// The words that have ended, and the word that has begun.
pub open spec fn scan_words(s: Seq<char>) -> (Seq<Seq<char>>, Seq<char>)
    decreases s.len(),
{
    if s.len() == 0 {
        (Seq::empty(), Seq::empty())
    } else {
        let (done, word) = scan_words(s.drop_last());
        if !is_space(s.last()) {
            (done, word.push(s.last()))
        } else if word.len() > 0 {
            (done.push(word), Seq::empty())
        } else {
            (done, word)
        }
    }
}

/// The words of a text.
pub open spec fn words(s: Seq<char>) -> Seq<Seq<char>> {
    let (done, word) = scan_words(s);
    if word.len() > 0 {
        done.push(word)
    } else {
        done
    }
}

/// The numbers among words, in order.
pub open spec fn numbers(ws: Seq<Seq<char>>) -> Seq<usize>
    decreases ws.len(),
{
    if ws.len() == 0 {
        Seq::empty()
    } else {
        let front = numbers(ws.drop_last());
        match parsed(ws.last()) {
            Some(n) => front.push(n),
            None => front,
        }
    }
}

/// Whether a character separates words.
fn is_white(c: char) -> (r: bool)
    ensures
        r == is_space(c),
{
    let u: u32 = c as u32;
    (0x09 <= u && u <= 0x0D) || u == 0x20 || u == 0x85 || u == 0xA0 || u == 0x1680 || (0x2000 <= u
        && u <= 0x200A) || u == 0x2028 || u == 0x2029 || u == 0x202F || u == 0x205F || u == 0x3000
}

/// Appends the number that a word spells, if it spells one.
fn push_word(out: &mut Vec<usize>, word: &Vec<char>, Ghost(done): Ghost<Seq<Seq<char>>>)
    requires
        old(out)@ == numbers(done),
    ensures
        final(out)@ == numbers(done.push(word@)),
{
    proof {
        assert(done.push(word@).drop_last() =~= done);
    }
    match parse_usize(word.as_slice()) {
        Some(n) => out.push(n),
        None => {},
    }
}

/// The numbers in a text; words that are no numbers are passed over.
pub fn read_numbers(text: &[char]) -> (out: Vec<usize>)
    ensures
        out@ == numbers(words(text@)),
{
    let mut out: Vec<usize> = Vec::new();
    let mut word: Vec<char> = Vec::new();
    let mut i: usize = 0;
    proof {
        assert(text@.subrange(0, 0) =~= Seq::<char>::empty());
        assert(word@ =~= Seq::<char>::empty());
        assert(out@ =~= numbers(Seq::<Seq<char>>::empty()));
    }
    while i < text.len()
        invariant
            i <= text@.len(),
            word@ == scan_words(text@.subrange(0, i as int)).1,
            out@ == numbers(scan_words(text@.subrange(0, i as int)).0),
        decreases text@.len() - i,
    {
        let ghost next = text@.subrange(0, i + 1);
        let ghost done = scan_words(text@.subrange(0, i as int)).0;
        assert(next.drop_last() =~= text@.subrange(0, i as int));
        assert(next.last() == text@[i as int]);
        let c: char = text[i];
        if !is_white(c) {
            word.push(c);
        } else if word.len() > 0 {
            push_word(&mut out, &word, Ghost(done));
            word = Vec::new();
            assert(word@ =~= Seq::<char>::empty());
        }
        i = i + 1;
    }
    assert(text@.subrange(0, text@.len() as int) =~= text@);
    let ghost done = scan_words(text@).0;
    if word.len() > 0 {
        push_word(&mut out, &word, Ghost(done));
    }
    out
}

/// What a dump description says: the size of the picture, the row stride of
/// its luminance, and the row and pixel strides of either chrominance plane.
#[derive(Clone, Copy, Debug, PartialEq, Eq, Structural)]
pub struct DumpMeta {
    pub w: usize,
    pub h: usize,
    pub y_stride: usize,
    pub u_stride: usize,
    pub u_step: usize,
    pub v_stride: usize,
    pub v_step: usize,
}

/// Reads a dump description: at least seven numbers, the first seven of which count.
pub fn parse_meta(text: &[char]) -> (r: Option<DumpMeta>)
    ensures
        ({
            let f = numbers(words(text@));
            &&& r is None <==> f.len() < 7
            &&& r matches Some(m) ==> m.w == f[0] && m.h == f[1] && m.y_stride == f[2] && m.u_stride
                == f[3] && m.u_step == f[4] && m.v_stride == f[5] && m.v_step == f[6]
        }),
{
    let f: Vec<usize> = read_numbers(text);
    if f.len() < 7 {
        return None;
    }
    Some(
        DumpMeta {
            w: f[0],
            h: f[1],
            y_stride: f[2],
            u_stride: f[3],
            u_step: f[4],
            v_stride: f[5],
            v_step: f[6],
        },
    )
}

/// Sample `c` of a plane `w` wide whose rows lie `row` bytes apart and whose
/// samples lie `step` bytes apart; `missing` past the end of the bytes.
pub open spec fn plane_byte(bytes: Seq<u8>, w: int, row: int, step: int, missing: u8, c: int) -> u8 {
    let i = (c / w) * row + (c % w) * step;
    if i < bytes.len() {
        bytes[i]
    } else {
        missing
    }
}

/// Unpacks a plane `w` wide and `h` high whose rows lie `row` bytes apart and
/// whose samples lie `step` bytes apart; what the dump lacks is `missing`.
pub fn unpack_plane(
    bytes: &[u8],
    w: usize,
    h: usize,
    row: usize,
    step: usize,
    missing: u8,
) -> (plane: Vec<u8>)
    requires
        w * h <= usize::MAX,
        h * row + w * step <= usize::MAX,
    ensures
        plane@.len() == w * h,
        forall|c: int|
            0 <= c < w * h ==> #[trigger] plane@[c] == plane_byte(
                bytes@,
                w as int,
                row as int,
                step as int,
                missing,
                c,
            ),
{
    let n: usize = w * h;
    let mut plane: Vec<u8> = Vec::new();
    let mut i: usize = 0;
    while i < n
        invariant
            n == w * h,
            h * row + w * step <= usize::MAX,
            i <= n,
            plane@.len() == i,
            forall|c: int|
                0 <= c < i ==> #[trigger] plane@[c] == plane_byte(
                    bytes@,
                    w as int,
                    row as int,
                    step as int,
                    missing,
                    c,
                ),
        decreases n - i,
    {
        proof {
            lemma_cell_split(w as int, h as int, i as int);
            let r = i as int / w as int;
            let c = i as int % w as int;
            assert(r * row <= h * row && c * step <= w * step && 0 <= r * row && 0 <= c * step)
                by (nonlinear_arith)
                requires
                    0 <= r < h,
                    0 <= c < w,
                    row >= 0,
                    step >= 0,
            ;
        }
        let at: usize = (i / w) * row + (i % w) * step;
        plane.push(if at < bytes.len() { bytes[at] } else { missing });
        i = i + 1;
    }
    plane
}

/// Whether the samples of a plane, its rows and its samples lying that far
/// apart, are within reach of an index.
fn in_reach(w: usize, h: usize, row: usize, step: usize) -> (r: bool)
    ensures
        r == (h * row + w * step <= usize::MAX),
{
    proof {
        assert(h * row >= 0 && w * step >= 0) by (nonlinear_arith)
            requires
                h >= 0,
                row >= 0,
                w >= 0,
                step >= 0,
        ;
    }
    match (h.checked_mul(row), w.checked_mul(step)) {
        (Some(down), Some(across)) => down.checked_add(across).is_some(),
        _ => false,
    }
}

impl DumpMeta {
    /// The places of the planes' samples are within reach of an index.
    pub open spec fn fits(self) -> bool {
        &&& self.w * self.h <= usize::MAX
        &&& self.h * self.y_stride + self.w <= usize::MAX
        &&& (self.h / 2) * self.u_stride + (self.w / 2) * self.u_step <= usize::MAX
        &&& (self.h / 2) * self.v_stride + (self.w / 2) * self.v_step <= usize::MAX
    }

    /// Whether every sample of the planes has an index.
    pub fn addressable(&self) -> (r: bool)
        ensures
            r == self.fits(),
    {
        let cw: usize = self.w / 2;
        let ch: usize = self.h / 2;
        self.w.checked_mul(self.h).is_some() && in_reach(self.w, self.h, self.y_stride, 1)
            && in_reach(cw, ch, self.u_stride, self.u_step) && in_reach(
            cw,
            ch,
            self.v_stride,
            self.v_step,
        )
    }
}

/// The planes of a dumped picture; chrominance has half the width and height.
pub struct DumpPlanes {
    pub y: Image<u8>,
    pub u: Image<u8>,
    pub v: Image<u8>,
}

/// Unpacks the planes of a dumped picture, each by its own strides. What a
/// dump lacks is black in luminance and neutral in chrominance.
pub fn unpack_dump(meta: &DumpMeta, y: &[u8], u: &[u8], v: &[u8]) -> (r: DumpPlanes)
    requires
        meta.fits(),
    ensures
        r.y.wf() && r.y.w == meta.w && r.y.h == meta.h,
        r.u.wf() && r.u.w == meta.w / 2 && r.u.h == meta.h / 2,
        r.v.wf() && r.v.w == meta.w / 2 && r.v.h == meta.h / 2,
        forall|c: int|
            0 <= c < r.y.data@.len() ==> #[trigger] r.y.data@[c] == plane_byte(
                y@,
                meta.w as int,
                meta.y_stride as int,
                1,
                0,
                c,
            ),
        forall|c: int|
            0 <= c < r.u.data@.len() ==> #[trigger] r.u.data@[c] == plane_byte(
                u@,
                (meta.w / 2) as int,
                meta.u_stride as int,
                meta.u_step as int,
                128,
                c,
            ),
        forall|c: int|
            0 <= c < r.v.data@.len() ==> #[trigger] r.v.data@[c] == plane_byte(
                v@,
                (meta.w / 2) as int,
                meta.v_stride as int,
                meta.v_step as int,
                128,
                c,
            ),
{
    let cw: usize = meta.w / 2;
    let ch: usize = meta.h / 2;
    assert(cw * ch <= meta.w * meta.h) by (nonlinear_arith)
        requires
            0 <= cw <= meta.w,
            0 <= ch <= meta.h,
    ;
    let luma: Vec<u8> = unpack_plane(y, meta.w, meta.h, meta.y_stride, 1, 0);
    let blue: Vec<u8> = unpack_plane(u, cw, ch, meta.u_stride, meta.u_step, 128);
    let red: Vec<u8> = unpack_plane(v, cw, ch, meta.v_stride, meta.v_step, 128);
    DumpPlanes {
        y: Image { w: meta.w, h: meta.h, data: luma },
        u: Image { w: cw, h: ch, data: blue },
        v: Image { w: cw, h: ch, data: red },
    }
}

/// Counts how often each level occurs.
pub fn histogram(levels: &[u8]) -> (hist: Vec<usize>)
    ensures
        hist@.len() == 256,
        forall|b: int| 0 <= b < 256 ==> #[trigger] hist@[b] == occurrences(levels@, b),
{
    let mut hist: Vec<usize> = vec![0usize; 256];
    let mut i: usize = 0;
    proof {
        assert(levels@.subrange(0, 0) =~= Seq::<u8>::empty());
    }
    while i < levels.len()
        invariant
            i <= levels@.len(),
            hist@.len() == 256,
            forall|b: int|
                0 <= b < 256 ==> #[trigger] hist@[b] == occurrences(
                    levels@.subrange(0, i as int),
                    b,
                ),
            forall|b: int| 0 <= b < 256 ==> #[trigger] hist@[b] <= i,
        decreases levels@.len() - i,
    {
        let ghost next = levels@.subrange(0, i + 1);
        assert(next.drop_last() =~= levels@.subrange(0, i as int));
        assert(next.last() == levels@[i as int]);
        let b: usize = levels[i] as usize;
        let ghost before = hist@;
        let count: usize = hist[b];
        hist.set(b, count + 1);
        proof {
            assert forall|c: int| 0 <= c < 256 implies #[trigger] hist@[c] == occurrences(next, c)
                && hist@[c] <= i + 1 by {
                assert(before[c] == occurrences(levels@.subrange(0, i as int), c));
                assert(before[c] <= i);
            }
        }
        i = i + 1;
    }
    assert(levels@.subrange(0, levels@.len() as int) =~= levels@);
    hist
}

/// How often `b` occurs.
pub open spec fn occurrences(levels: Seq<u8>, b: int) -> int
    decreases levels.len(),
{
    if levels.len() == 0 {
        0
    } else {
        occurrences(levels.drop_last(), b) + if levels.last() == b {
            1int
        } else {
            0
        }
    }
}

/// The sum of the first `n` counts.
pub open spec fn cumulative(hist: Seq<usize>, n: nat) -> int {
    crate::sums::sum_range(0, n, |i: int| hist[i] as int)
}

/// The first level up to which at least `target` samples lie, or the last
/// level where there are fewer.
pub fn percentile_bin(hist: &[usize], target: usize) -> (b: usize)
    requires
        hist@.len() == 256,
        cumulative(hist@, 256) <= usize::MAX,
    ensures
        b < 256,
        cumulative(hist@, 256) >= target ==> cumulative(hist@, (b + 1) as nat) >= target,
        cumulative(hist@, 256) < target ==> b == 255,
        forall|a: nat| a < b ==> #[trigger] cumulative(hist@, a + 1) < target,
{
    let ghost f = |i: int| hist@[i] as int;
    let mut acc: usize = 0;
    let mut b: usize = 0;
    while b < 256
        invariant
            hist@.len() == 256,
            f == (|i: int| hist@[i] as int),
            cumulative(hist@, 256) <= usize::MAX,
            b <= 256,
            acc == cumulative(hist@, b as nat),
            forall|a: nat| a < b ==> #[trigger] cumulative(hist@, a + 1) < target,
        decreases 256 - b,
    {
        proof {
            crate::sums::lemma_sum_prefix((b + 1) as nat, 256, f);
        }
        acc = acc + hist[b];
        if acc >= target {
            return b;
        }
        assert(cumulative(hist@, b as nat + 1) < target);
        b = b + 1;
    }
    assert(cumulative(hist@, 255nat + 1) < target);
    255
}

/// Space between two texts ends the words of the first: the words of the whole
/// are those of the first and then those of the second.
pub proof fn lemma_words_split(a: Seq<char>, space: char, b: Seq<char>)
    requires
        is_space(space),
    ensures
        words(a.push(space) + b) == words(a) + words(b),
{
    lemma_scan_split(a, space, b);
    let (done, word) = scan_words(b);
    if word.len() > 0 {
        assert((words(a) + done).push(word) =~= words(a) + done.push(word));
    }
}

/// Behind a space the scan begins anew.
proof fn lemma_scan_split(a: Seq<char>, space: char, b: Seq<char>)
    requires
        is_space(space),
    ensures
        scan_words(a.push(space) + b).0 == words(a) + scan_words(b).0,
        scan_words(a.push(space) + b).1 == scan_words(b).1,
    decreases b.len(),
{
    let whole = a.push(space) + b;
    if b.len() == 0 {
        assert(whole =~= a.push(space));
        assert(a.push(space).drop_last() =~= a);
        assert(scan_words(b).0 =~= Seq::<Seq<char>>::empty());
        assert(words(a) + scan_words(b).0 =~= words(a));
        let word = scan_words(a).1;
        if word.len() == 0 {
            assert(word =~= Seq::<char>::empty());
        }
    } else {
        let front = b.drop_last();
        lemma_scan_split(a, space, front);
        assert(whole.drop_last() =~= a.push(space) + front);
        assert(whole.last() == b.last());
        let (done, word) = scan_words(front);
        if is_space(b.last()) && word.len() > 0 {
            assert((words(a) + done).push(word) =~= words(a) + done.push(word));
        }
    }
}

/// A text without space is one word, and an empty one has none.
pub proof fn lemma_single_word(s: Seq<char>)
    requires
        forall|i: int| 0 <= i < s.len() ==> !is_space(#[trigger] s[i]),
    ensures
        s.len() > 0 ==> words(s) == seq![s],
        s.len() == 0 ==> words(s) == Seq::<Seq<char>>::empty(),
{
    lemma_scan_single(s);
    if s.len() > 0 {
        assert(words(s) =~= seq![s]);
    }
}

/// Without space the scan gathers the whole text.
proof fn lemma_scan_single(s: Seq<char>)
    requires
        forall|i: int| 0 <= i < s.len() ==> !is_space(#[trigger] s[i]),
    ensures
        scan_words(s) == (Seq::<Seq<char>>::empty(), s),
    decreases s.len(),
{
    if s.len() == 0 {
        assert(s =~= Seq::<char>::empty());
    } else {
        lemma_scan_single(s.drop_last());
        assert(s.drop_last().push(s.last()) =~= s);
    }
}

/// Each word stands for its number, or for nothing if it spells none, and the
/// numbers keep the order of the words.
pub proof fn lemma_numbers_in_order(a: Seq<Seq<char>>, word: Seq<char>)
    ensures
        numbers(Seq::empty()) == Seq::<usize>::empty(),
        parsed(word) is None ==> numbers(a.push(word)) == numbers(a),
        parsed(word) matches Some(n) ==> numbers(a.push(word)) == numbers(a).push(n),
{
    assert(a.push(word).drop_last() =~= a);
}

/// The sample in column `x` and row `y` of a plane lies `y` rows and `x` steps
/// into its bytes.
pub proof fn lemma_sample_place(
    bytes: Seq<u8>,
    w: int,
    row: int,
    step: int,
    missing: u8,
    x: int,
    y: int,
)
    requires
        0 <= x < w,
        0 <= y,
        0 <= row,
        0 <= step,
    ensures
        y * row + x * step < bytes.len() ==> plane_byte(bytes, w, row, step, missing, y * w + x)
            == bytes[y * row + x * step],
        y * row + x * step >= bytes.len() ==> plane_byte(bytes, w, row, step, missing, y * w + x)
            == missing,
{
    lemma_cell_unique(w, x, y);
}

/// Every sample occurs at one level, and each level is counted on its own.
pub proof fn lemma_occurrences(levels: Seq<u8>, last: u8, b: int)
    ensures
        occurrences(Seq::empty(), b) == 0,
        occurrences(levels.push(last), b) == occurrences(levels, b) + if last == b {
            1int
        } else {
            0
        },
        crate::sums::sum_range(0, 256, |c: int| occurrences(levels, c)) == levels.len(),
    decreases levels.len(),
{
    assert(levels.push(last).drop_last() =~= levels);
    let f = |c: int| occurrences(levels, c);
    if levels.len() == 0 {
        crate::sums::lemma_sum_zero(0, 256, f);
    } else {
        let front = levels.drop_last();
        lemma_occurrences(front, levels.last(), b);
        let g = |c: int| occurrences(front, c);
        crate::sums::lemma_sum_changed(0, 256, f, g, levels.last() as int);
    }
}

/// Counts are added up level by level.
pub proof fn lemma_cumulative_steps(hist: Seq<usize>, n: nat)
    requires
        n < hist.len(),
    ensures
        cumulative(hist, 0) == 0,
        cumulative(hist, n + 1) == cumulative(hist, n) + hist[n as int],
{
}

} // verus!
