//! Output: rows of markdown tables and binary PPM images.

use vstd::prelude::*;

use crate::text::{
    decimal, is_digit, lemma_canonical_is_decimal, lemma_decimal_canonical, lemma_decimal_digits,
    value,
};

verus! {

/// Cells of a table row, each behind its separator.
pub open spec fn row_cells(cells: Seq<String>) -> Seq<char>
    decreases cells.len(),
{
    if cells.len() == 0 {
        Seq::empty()
    } else {
        row_cells(cells.drop_last()) + " | "@ + cells.last()@
    }
}

/// A rule cell for each column.
pub open spec fn rule_cells(n: nat) -> Seq<char>
    decreases n,
{
    if n == 0 {
        Seq::empty()
    } else {
        rule_cells((n - 1) as nat) + "|---"@
    }
}

/// Appends the cells of a table row.
fn push_cells(s: &mut String, cells: &[String])
    ensures
        final(s)@ == old(s)@ + row_cells(cells@),
{
    let mut i: usize = 0;
    assert(cells@.subrange(0, 0) =~= Seq::<String>::empty());
    assert(s@ =~= old(s)@ + row_cells(cells@.subrange(0, 0)));
    while i < cells.len()
        invariant
            i <= cells@.len(),
            s@ == old(s)@ + row_cells(cells@.subrange(0, i as int)),
        decreases cells@.len() - i,
    {
        let ghost next = cells@.subrange(0, i + 1);
        assert(next.drop_last() =~= cells@.subrange(0, i as int));
        s.append(" | ");
        s.append(cells[i].as_str());
        i = i + 1;
        assert(s@ =~= old(s)@ + row_cells(next));
    }
    assert(cells@.subrange(0, cells@.len() as int) =~= cells@);
}

/// A row of a markdown table: the label and every cell between bars.
pub fn table_row(label: &str, cells: &[String]) -> (s: String)
    ensures
        s@ == "| "@ + label@ + row_cells(cells@) + " |"@,
{
    let mut s: String = String::new();
    s.append("| ");
    s.append(label);
    push_cells(&mut s, cells);
    s.append(" |");
    assert(s@ =~= "| "@ + label@ + row_cells(cells@) + " |"@);
    s
}

/// Head of a markdown table: the captions, and the rule below them.
pub fn head(first: &str, cols: &[String]) -> (s: String)
    ensures
        s@ == "| "@ + first@ + row_cells(cols@) + " |\n|---"@ + rule_cells(cols@.len()) + "|"@,
{
    let mut s: String = String::new();
    s.append("| ");
    s.append(first);
    push_cells(&mut s, cols);
    s.append(" |\n|---");
    let ghost top = s@;
    assert(top =~= "| "@ + first@ + row_cells(cols@) + " |\n|---"@);
    let mut i: usize = 0;
    assert(s@ =~= top + rule_cells(0));
    while i < cols.len()
        invariant
            i <= cols@.len(),
            s@ == top + rule_cells(i as nat),
        decreases cols@.len() - i,
    {
        s.append("|---");
        i = i + 1;
        assert(s@ =~= top + rule_cells(i as nat));
    }
    s.append("|");
    s
}

/// Decimal places that show four significant digits of a number whose decimal
/// exponent is `exp`, at most twelve.
pub fn sig4_decimals(exp: i32) -> (n: usize)
    ensures
        n == if exp > 3 {
            0
        } else if exp < -9 {
            12
        } else {
            3 - exp
        },
{
    if exp > 3 {
        0
    } else if exp < -9 {
        12
    } else {
        (3 - exp) as usize
    }
}

/// Decimal notation in bytes.
pub open spec fn decimal_bytes(n: nat) -> Seq<u8> {
    decimal(n).map_values(|c: char| c as u8)
}

/// Header of a binary PPM image with 255 levels.
pub open spec fn ppm_header(w: nat, h: nat) -> Seq<u8> {
    seq![80u8, 54u8, 10u8] + decimal_bytes(w) + seq![32u8] + decimal_bytes(h) + seq![
        10u8,
        50u8,
        53u8,
        53u8,
        10u8,
    ]
}

/// The bytes of pixels, channel by channel.
pub open spec fn pixel_bytes(pixels: Seq<[u8; 3]>) -> Seq<u8> {
    Seq::new(3 * pixels.len(), |i: int| pixels[i / 3]@[i % 3])
}

/// A binary PPM image.
pub open spec fn ppm_file(w: nat, h: nat, pixels: Seq<[u8; 3]>) -> Seq<u8> {
    ppm_header(w, h) + pixel_bytes(pixels)
}

/// Appends the decimal notation of `n`.
fn push_number(bytes: &mut Vec<u8>, n: usize)
    ensures
        final(bytes)@ == old(bytes)@ + decimal_bytes(n as nat),
    decreases n,
{
    if n >= 10 {
        push_number(bytes, n / 10);
    }
    bytes.push((48 + n % 10) as u8);
    assert(bytes@ =~= old(bytes)@ + decimal_bytes(n as nat));
}

/// Appends bytes.
fn push_all(bytes: &mut Vec<u8>, more: &[u8])
    ensures
        final(bytes)@ == old(bytes)@ + more@,
{
    let mut i: usize = 0;
    assert(bytes@ =~= old(bytes)@ + more@.subrange(0, 0));
    while i < more.len()
        invariant
            i <= more@.len(),
            bytes@ == old(bytes)@ + more@.subrange(0, i as int),
        decreases more@.len() - i,
    {
        bytes.push(more[i]);
        i = i + 1;
        assert(bytes@ =~= old(bytes)@ + more@.subrange(0, i as int));
    }
    assert(more@.subrange(0, more@.len() as int) =~= more@);
}

/// The bytes of a binary PPM image.
pub fn encode_ppm(w: usize, h: usize, pixels: &[[u8; 3]]) -> (bytes: Vec<u8>)
    requires
        pixels@.len() == w * h,
    ensures
        bytes@ == ppm_file(w as nat, h as nat, pixels@),
{
    let mut bytes: Vec<u8> = Vec::new();
    push_all(&mut bytes, &[80u8, 54u8, 10u8]);
    push_number(&mut bytes, w);
    push_all(&mut bytes, &[32u8]);
    push_number(&mut bytes, h);
    push_all(&mut bytes, &[10u8, 50u8, 53u8, 53u8, 10u8]);
    let ghost top = bytes@;
    assert(top =~= ppm_header(w as nat, h as nat));
    let mut i: usize = 0;
    assert(bytes@ =~= top + pixel_bytes(pixels@.subrange(0, 0)));
    while i < pixels.len()
        invariant
            i <= pixels@.len(),
            bytes@ == top + pixel_bytes(pixels@.subrange(0, i as int)),
        decreases pixels@.len() - i,
    {
        let p: [u8; 3] = pixels[i];
        bytes.push(p[0]);
        bytes.push(p[1]);
        bytes.push(p[2]);
        i = i + 1;
        assert(bytes@ =~= top + pixel_bytes(pixels@.subrange(0, i as int)));
    }
    assert(pixels@.subrange(0, pixels@.len() as int) =~= pixels@);
    bytes
}

/// The byte is a decimal digit.
pub open spec fn is_digit_byte(b: u8) -> bool {
    48 <= b <= 57
}

/// Bytes as characters.
spec fn as_chars(bytes: Seq<u8>) -> Seq<char> {
    bytes.map_values(|b: u8| b as char)
}

/// The bytes from `pos` up to `end` are the decimal notation of `n`, and no
/// further digit follows.
spec fn number_at(bytes: Seq<u8>, pos: int, n: nat, end: int) -> bool {
    &&& 0 <= pos <= end <= bytes.len()
    &&& bytes.subrange(pos, end) == decimal_bytes(n)
    &&& end < bytes.len() ==> !is_digit_byte(bytes[end])
}

/// Decimal notation in bytes is made of digits and goes back to characters.
proof fn lemma_decimal_bytes(n: nat)
    ensures
        decimal_bytes(n).len() == decimal(n).len(),
        decimal_bytes(n).len() > 0,
        forall|i: int|
            0 <= i < decimal_bytes(n).len() ==> is_digit_byte(#[trigger] decimal_bytes(n)[i]),
        as_chars(decimal_bytes(n)) == decimal(n),
{
    lemma_decimal_digits(n);
    assert forall|i: int| 0 <= i < decimal_bytes(n).len() implies is_digit_byte(
        #[trigger] decimal_bytes(n)[i],
    ) by {
        assert(is_digit(decimal(n)[i]));
    }
    assert forall|i: int| 0 <= i < decimal(n).len() implies as_chars(decimal_bytes(n))[i] == decimal(
        n,
    )[i] by {
        assert(is_digit(decimal(n)[i]));
    }
    assert(as_chars(decimal_bytes(n)) =~= decimal(n));
}

/// A number ends where its digits end, and has one value.
proof fn lemma_number_unique(bytes: Seq<u8>, pos: int, m: nat, a: int, n: nat, b: int)
    requires
        number_at(bytes, pos, m, a),
        number_at(bytes, pos, n, b),
    ensures
        a == b,
        m == n,
{
    lemma_decimal_bytes(m);
    lemma_decimal_bytes(n);
    if a < b {
        assert(bytes.subrange(pos, b)[a - pos] == bytes[a]);
    }
    if b < a {
        assert(bytes.subrange(pos, a)[b - pos] == bytes[b]);
    }
    lemma_decimal_digits(m);
    lemma_decimal_digits(n);
    assert(decimal(m) == decimal(n));
}

/// Reads the number that begins at `pos`.
fn read_number(bytes: &[u8], pos: usize) -> (r: Option<(usize, usize)>)
    requires
        pos <= bytes@.len(),
    ensures
        r matches Some((n, end)) ==> number_at(bytes@, pos as int, n as nat, end as int),
        r is None ==> forall|n: usize, end: int|
            !#[trigger] number_at(bytes@, pos as int, n as nat, end),
{
    let len: usize = bytes.len();
    let mut acc: usize = 0;
    let mut i: usize = pos;
    let mut fits: bool = true;
    while i < len && 48 <= bytes[i] && bytes[i] <= 57
        invariant
            len == bytes@.len(),
            pos <= i <= len,
            forall|j: int| pos <= j < i ==> is_digit_byte(#[trigger] bytes@[j]),
            fits ==> acc == value(as_chars(bytes@.subrange(pos as int, i as int))),
            !fits ==> value(as_chars(bytes@.subrange(pos as int, i as int))) > usize::MAX,
        decreases len - i,
    {
        let d: usize = (bytes[i] - 48) as usize;
        let ghost here = as_chars(bytes@.subrange(pos as int, i as int));
        let ghost next = as_chars(bytes@.subrange(pos as int, i + 1));
        proof {
            assert(next.drop_last() =~= here);
            assert(next.last() == bytes@[i as int] as char);
            assert(value(next) == value(here) * 10 + d);
        }
        if fits {
            match acc.checked_mul(10) {
                Some(m) => {
                    match m.checked_add(d) {
                        Some(a) => {
                            acc = a;
                        },
                        None => {
                            fits = false;
                        },
                    }
                },
                None => {
                    fits = false;
                },
            }
        }
        i = i + 1;
    }
    let ghost run = bytes@.subrange(pos as int, i as int);
    let ghost cs = as_chars(run);
    proof {
        assert forall|n: usize, end: int|
            #[trigger] number_at(bytes@, pos as int, n as nat, end) implies end == i && decimal(
            n as nat,
        ) == cs by {
            lemma_decimal_bytes(n as nat);
            if end < i {
                assert(is_digit_byte(bytes@[end]));
            }
            if end > i {
                assert(bytes@.subrange(pos as int, end)[i - pos] == bytes@[i as int]);
                assert(is_digit_byte(decimal_bytes(n as nat)[i - pos]));
            }
        }
    }
    if i == pos || !fits || (i - pos > 1 && bytes[pos] == 48) {
        proof {
            assert forall|n: usize, end: int| !#[trigger] number_at(
                bytes@,
                pos as int,
                n as nat,
                end,
            ) by {
                if number_at(bytes@, pos as int, n as nat, end) {
                    lemma_decimal_bytes(n as nat);
                    lemma_decimal_digits(n as nat);
                    lemma_decimal_canonical(n as nat);
                    if i - pos > 1 && bytes@[pos as int] == 48 {
                        assert(cs[0] == run[0] as char);
                    }
                }
            }
        }
        return None;
    }
    proof {
        assert forall|j: int| 0 <= j < cs.len() implies #[trigger] is_digit(cs[j]) by {
            assert(is_digit_byte(bytes@[pos + j]));
        }
        if cs.len() > 1 {
            assert(run[0] == bytes@[pos as int]);
            assert(cs[0] != '0');
        }
        lemma_canonical_is_decimal(cs);
        assert(run =~= decimal_bytes(acc as nat)) by {
            assert forall|j: int| 0 <= j < run.len() implies run[j] == decimal_bytes(acc as nat)[j] by {
                assert(cs[j] == run[j] as char);
                assert(is_digit_byte(bytes@[pos + j]));
            }
        }
    }
    Some((acc, i))
}

/// Whether `bytes` hold `part` at `pos`.
fn has_at(bytes: &[u8], pos: usize, part: &[u8]) -> (r: bool)
    requires
        pos <= bytes@.len(),
    ensures
        r == (pos + part@.len() <= bytes@.len() && bytes@.subrange(
            pos as int,
            pos + part@.len(),
        ) == part@),
{
    let len: usize = bytes.len();
    if len - pos < part.len() {
        return false;
    }
    let mut i: usize = 0;
    while i < part.len()
        invariant
            len == bytes@.len(),
            pos + part@.len() <= len,
            i <= part@.len(),
            forall|j: int| 0 <= j < i ==> bytes@[pos + j] == #[trigger] part@[j],
        decreases part@.len() - i,
    {
        if bytes[pos + i] != part[i] {
            assert(bytes@.subrange(pos as int, pos + part@.len())[i as int] != part@[i as int]);
            return false;
        }
        i = i + 1;
    }
    assert(bytes@.subrange(pos as int, pos + part@.len()) =~= part@);
    true
}

/// Where the parts of an image file lie.
proof fn lemma_ppm_layout(bytes: Seq<u8>, w: nat, h: nat, pixels: Seq<[u8; 3]>) -> (r: (int, int))
    requires
        bytes == ppm_file(w, h, pixels),
    ensures
        bytes.len() >= 3,
        bytes.subrange(0, 3) == seq![80u8, 54u8, 10u8],
        number_at(bytes, 3, w, r.0),
        r.0 + 1 <= bytes.len(),
        bytes.subrange(r.0, r.0 + 1) == seq![32u8],
        number_at(bytes, r.0 + 1, h, r.1),
        r.1 + 5 <= bytes.len(),
        bytes.subrange(r.1, r.1 + 5) == seq![10u8, 50u8, 53u8, 53u8, 10u8],
        bytes.len() == r.1 + 5 + 3 * pixels.len(),
        bytes.subrange(r.1 + 5, bytes.len() as int) == pixel_bytes(pixels),
{
    lemma_decimal_bytes(w);
    lemma_decimal_bytes(h);
    let a = 3 + decimal_bytes(w).len() as int;
    let b = a + 1 + decimal_bytes(h).len();
    assert(bytes.subrange(0, 3) =~= seq![80u8, 54u8, 10u8]);
    assert(bytes.subrange(3, a) =~= decimal_bytes(w));
    assert(bytes.subrange(a, a + 1) =~= seq![32u8]);
    assert(bytes[a] == bytes.subrange(a, a + 1)[0]);
    assert(bytes.subrange(a + 1, b) =~= decimal_bytes(h));
    assert(bytes.subrange(b, b + 5) =~= seq![10u8, 50u8, 53u8, 53u8, 10u8]);
    assert(bytes[b] == bytes.subrange(b, b + 5)[0]);
    assert(bytes.subrange(b + 5, bytes.len() as int) =~= pixel_bytes(pixels));
    (a, b)
}

/// Reads a binary PPM image, exactly as `encode_ppm` writes it: width, height and pixels.
pub fn parse_ppm(bytes: &[u8]) -> (r: Option<(usize, usize, Vec<[u8; 3]>)>)
    ensures
        r matches Some((w, h, pixels)) ==> pixels@.len() == w * h && bytes@ == ppm_file(
            w as nat,
            h as nat,
            pixels@,
        ),
        r is None ==> forall|w: usize, h: usize, pixels: Seq<[u8; 3]>|
            pixels.len() == w * h ==> bytes@ != #[trigger] ppm_file(w as nat, h as nat, pixels),
{
    let len: usize = bytes.len();
    proof {
        assert forall|w: usize, h: usize, pixels: Seq<[u8; 3]>|
            bytes@ == #[trigger] ppm_file(w as nat, h as nat, pixels) implies is_ppm_layout(
            bytes@,
            w,
            h,
            pixels,
        ) by {
            let (a, b) = lemma_ppm_layout(bytes@, w as nat, h as nat, pixels);
            assert(ppm_layout(bytes@, w, h, pixels, a, b));
        }
    }
    if !has_at(bytes, 0, &[80u8, 54u8, 10u8]) {
        return None;
    }
    match read_number(bytes, 3) {
        None => None,
        Some((w, a)) => {
            proof {
                assert forall|v: usize, h: usize, pixels: Seq<[u8; 3]>, c: int, d: int|
                    #[trigger] ppm_layout(bytes@, v, h, pixels, c, d) implies v == w && c == a by {
                    lemma_number_unique(bytes@, 3, w as nat, a as int, v as nat, c);
                }
            }
            let gap: [u8; 1] = [32u8];
            assert(gap@ =~= seq![32u8]);
            if !has_at(bytes, a, &gap) {
                return None;
            }
            match read_number(bytes, a + 1) {
                None => None,
                Some((h, b)) => {
                    proof {
                        assert forall|v: usize, g: usize, pixels: Seq<[u8; 3]>, c: int, d: int|
                            #[trigger] ppm_layout(bytes@, v, g, pixels, c, d) implies g == h && d
                            == b by {
                            lemma_number_unique(bytes@, a + 1, h as nat, b as int, g as nat, d);
                        }
                    }
                    if !has_at(bytes, b, &[10u8, 50u8, 53u8, 53u8, 10u8]) {
                        return None;
                    }
                    read_pixels(bytes, w, h, a, b)
                },
            }
        },
    }
}

/// The parts of an image file lie where its header ends them.
spec fn ppm_layout(
    bytes: Seq<u8>,
    w: usize,
    h: usize,
    pixels: Seq<[u8; 3]>,
    a: int,
    b: int,
) -> bool {
    &&& bytes.len() >= 3
    &&& bytes.subrange(0, 3) == seq![80u8, 54u8, 10u8]
    &&& number_at(bytes, 3, w as nat, a)
    &&& a + 1 <= bytes.len()
    &&& bytes.subrange(a, a + 1) == seq![32u8]
    &&& number_at(bytes, a + 1, h as nat, b)
    &&& b + 5 <= bytes.len()
    &&& bytes.subrange(b, b + 5) == seq![10u8, 50u8, 53u8, 53u8, 10u8]
    &&& bytes.len() == b + 5 + 3 * pixels.len()
    &&& bytes.subrange(b + 5, bytes.len() as int) == pixel_bytes(pixels)
}

/// The parts of an image file lie somewhere.
spec fn is_ppm_layout(bytes: Seq<u8>, w: usize, h: usize, pixels: Seq<[u8; 3]>) -> bool {
    exists|a: int, b: int| #[trigger] ppm_layout(bytes, w, h, pixels, a, b)
}

/// Reads the pixels behind a header that has been read.
fn read_pixels(bytes: &[u8], w: usize, h: usize, a: usize, b: usize) -> (r: Option<
    (usize, usize, Vec<[u8; 3]>),
>)
    requires
        bytes@.len() >= 3,
        bytes@.subrange(0, 3) == seq![80u8, 54u8, 10u8],
        number_at(bytes@, 3, w as nat, a as int),
        a + 1 <= bytes@.len(),
        bytes@.subrange(a as int, a + 1) == seq![32u8],
        number_at(bytes@, a + 1, h as nat, b as int),
        b + 5 <= bytes@.len(),
        bytes@.subrange(b as int, b + 5) == seq![10u8, 50u8, 53u8, 53u8, 10u8],
    ensures
        r matches Some((v, g, pixels)) ==> v == w && g == h && pixels@.len() == w * h && bytes@
            == ppm_file(w as nat, h as nat, pixels@),
        r is None ==> bytes@.len() != b + 5 + 3 * (w * h),
{
    let len: usize = bytes.len();
    let start: usize = b + 5;
    let body: usize = len - start;
    let n: usize = match w.checked_mul(h) {
        Some(n) => n,
        None => {
            return None;
        },
    };
    if body / 3 != n || body % 3 != 0 {
        return None;
    }
    let mut pixels: Vec<[u8; 3]> = Vec::new();
    let mut i: usize = 0;
    while i < n
        invariant
            len == bytes@.len(),
            start + 3 * n == len,
            i <= n,
            pixels@.len() == i,
            forall|j: int|
                0 <= j < i ==> (#[trigger] pixels@[j])@ == bytes@.subrange(
                    start + 3 * j,
                    start + 3 * j + 3,
                ),
        decreases n - i,
    {
        let p: usize = start + 3 * i;
        let px: [u8; 3] = [bytes[p], bytes[p + 1], bytes[p + 2]];
        assert(px@ =~= bytes@.subrange(start + 3 * i, start + 3 * i + 3));
        pixels.push(px);
        i = i + 1;
    }
    proof {
        let body = pixel_bytes(pixels@);
        assert forall|j: int| 0 <= j < body.len() implies body[j] == bytes@[start + j] by {
            assert(pixels@[j / 3]@ == bytes@.subrange(
                start + 3 * (j / 3),
                start + 3 * (j / 3) + 3,
            ));
        }
        let file = ppm_file(w as nat, h as nat, pixels@);
        lemma_decimal_bytes(w as nat);
        lemma_decimal_bytes(h as nat);
        assert(a == 3 + decimal_bytes(w as nat).len());
        assert(b == a + 1 + decimal_bytes(h as nat).len());
        assert(file.len() == len);
        assert forall|j: int| 0 <= j < len implies file[j] == bytes@[j] by {
            if j < 3 {
                assert(bytes@.subrange(0, 3)[j] == bytes@[j]);
            } else if j < a {
                assert(bytes@.subrange(3, a as int)[j - 3] == bytes@[j]);
            } else if j < a + 1 {
                assert(bytes@.subrange(a as int, a + 1)[0] == bytes@[j]);
            } else if j < b {
                assert(bytes@.subrange(a + 1, b as int)[j - a - 1] == bytes@[j]);
            } else if j < b + 5 {
                assert(bytes@.subrange(b as int, b + 5)[j - b] == bytes@[j]);
            } else {
                assert(body[j - start] == bytes@[j]);
            }
        }
        assert(file =~= bytes@);
    }
    Some((w, h, pixels))
}

/// What is written is read back: an image file holds one image.
pub proof fn lemma_ppm_roundtrip(
    w: usize,
    h: usize,
    pixels: Seq<[u8; 3]>,
    v: usize,
    g: usize,
    others: Seq<[u8; 3]>,
)
    requires
        pixels.len() == w * h,
        others.len() == v * g,
        ppm_file(w as nat, h as nat, pixels) == ppm_file(v as nat, g as nat, others),
    ensures
        w == v,
        h == g,
        pixels == others,
{
    let bytes = ppm_file(w as nat, h as nat, pixels);
    let (a, b) = lemma_ppm_layout(bytes, w as nat, h as nat, pixels);
    let (c, d) = lemma_ppm_layout(bytes, v as nat, g as nat, others);
    lemma_number_unique(bytes, 3, w as nat, a, v as nat, c);
    lemma_number_unique(bytes, a + 1, h as nat, b, g as nat, d);
    lemma_pixel_bytes_injective(pixels, others);
}

/// The bytes of pixels determine the pixels.
proof fn lemma_pixel_bytes_injective(pixels: Seq<[u8; 3]>, others: Seq<[u8; 3]>)
    requires
        pixels.len() == others.len(),
        pixel_bytes(pixels) == pixel_bytes(others),
    ensures
        pixels == others,
{
    assert forall|i: int| 0 <= i < pixels.len() implies pixels[i] == others[i] by {
        assert forall|k: int| 0 <= k < 3 implies pixels[i]@[k] == others[i]@[k] by {
            let j = 3 * i + k;
            assert(j / 3 == i && j % 3 == k);
            assert(pixel_bytes(pixels)[j] == pixels[j / 3]@[j % 3]);
            assert(pixel_bytes(others)[j] == others[j / 3]@[j % 3]);
        }
        assert(pixels[i]@ =~= others[i]@);
        assert(pixels[i] =~= others[i]);
    }
    assert(pixels =~= others);
}

/// Channel `k` of pixel `i` is byte `3 i + k` of the pixels.
pub proof fn lemma_pixel_byte(pixels: Seq<[u8; 3]>, i: int, k: int)
    requires
        0 <= i < pixels.len(),
        0 <= k < 3,
    ensures
        pixel_bytes(pixels).len() == 3 * pixels.len(),
        pixel_bytes(pixels)[3 * i + k] == pixels[i]@[k],
{
    assert((3 * i + k) / 3 == i && (3 * i + k) % 3 == k);
}

/// The header of an image file spells the format, the width, the height and
/// the highest level, each number in decimal.
pub proof fn lemma_header_spelled(w: nat, h: nat)
    ensures
        ppm_header(w, h) == ("P6\n"@ + decimal(w) + " "@ + decimal(h) + "\n255\n"@).map_values(
            |c: char| c as u8,
        ),
{
    reveal_strlit("P6\n");
    reveal_strlit(" ");
    reveal_strlit("\n255\n");
    assert(ppm_header(w, h) =~= ("P6\n"@ + decimal(w) + " "@ + decimal(h) + "\n255\n"@).map_values(
        |c: char| c as u8,
    ));
}

/// Every cell of a row stands behind its own bar, in order, and the rule below
/// a head has one part of four characters for each column.
pub proof fn lemma_cells_between_bars(cells: Seq<String>, cell: String, n: nat)
    ensures
        row_cells(Seq::empty()) == Seq::<char>::empty(),
        row_cells(cells.push(cell)) == row_cells(cells) + " | "@ + cell@,
        rule_cells(n).len() == 4 * n,
        forall|i: int|
            0 <= i < 4 * n ==> #[trigger] rule_cells(n)[i] == (if i % 4 == 0 {
                '|'
            } else {
                '-'
            }),
    decreases n,
{
    reveal_strlit("|---");
    assert(cells.push(cell).drop_last() =~= cells);
    if n > 0 {
        lemma_cells_between_bars(cells, cell, (n - 1) as nat);
    }
}

} // verus!
