//! Numbers as text, and text as numbers.

use vstd::prelude::*;

verus! {

/// The character of a decimal digit.
pub open spec fn digit_char(d: nat) -> char {
    (48 + d) as char
}

/// Decimal notation of `n`, without leading zeros.
pub open spec fn decimal(n: nat) -> Seq<char>
    decreases n,
{
    if n < 10 {
        seq![digit_char(n)]
    } else {
        decimal(n / 10).push(digit_char(n % 10))
    }
}

/// `c` is a decimal digit.
pub open spec fn is_digit(c: char) -> bool {
    '0' <= c <= '9'
}

/// Value of a sequence of decimal digits.
pub open spec fn value(s: Seq<char>) -> nat
    decreases s.len(),
{
    if s.len() == 0 {
        0
    } else {
        value(s.drop_last()) * 10 + (s.last() as nat - 48) as nat
    }
}

/// The digits of a number, without the plus sign that may stand before them.
pub open spec fn unsigned_part(s: Seq<char>) -> Seq<char> {
    if s.len() > 0 && s[0] == '+' {
        s.subrange(1, s.len() as int)
    } else {
        s
    }
}

/// The text is a number: one digit or more, behind at most one plus sign.
pub open spec fn is_number(s: Seq<char>) -> bool {
    let t = unsigned_part(s);
    t.len() > 0 && forall|i: int| 0 <= i < t.len() ==> #[trigger] is_digit(t[i])
}

/// What parsing the text gives: its value, where it is a number that fits a word.
pub open spec fn parsed(s: Seq<char>) -> Option<usize> {
    if is_number(s) && value(unsigned_part(s)) <= usize::MAX {
        Some(value(unsigned_part(s)) as usize)
    } else {
        None
    }
}

/// The digit as text.
fn digit_text(d: usize) -> (r: &'static str)
    requires
        d < 10,
    ensures
        r@ == seq![digit_char(d as nat)],
{
    proof {
        reveal_strlit("0");
        reveal_strlit("1");
        reveal_strlit("2");
        reveal_strlit("3");
        reveal_strlit("4");
        reveal_strlit("5");
        reveal_strlit("6");
        reveal_strlit("7");
        reveal_strlit("8");
        reveal_strlit("9");
    }
    let r: &'static str = if d == 0 {
        "0"
    } else if d == 1 {
        "1"
    } else if d == 2 {
        "2"
    } else if d == 3 {
        "3"
    } else if d == 4 {
        "4"
    } else if d == 5 {
        "5"
    } else if d == 6 {
        "6"
    } else if d == 7 {
        "7"
    } else if d == 8 {
        "8"
    } else {
        "9"
    };
    assert(r@ =~= seq![digit_char(d as nat)]);
    r
}

/// Appends the decimal notation of `n`.
pub fn push_decimal(s: &mut String, n: usize)
    ensures
        final(s)@ == old(s)@ + decimal(n as nat),
    decreases n,
{
    if n >= 10 {
        push_decimal(s, n / 10);
    }
    s.append(digit_text(n % 10));
    proof {
        if n >= 10 {
            assert(s@ =~= old(s)@ + decimal(n as nat));
        } else {
            assert(s@ =~= old(s)@ + decimal(n as nat));
        }
    }
}

/// Whether two texts are the same.
pub fn same_text(a: &str, b: &str) -> (r: bool)
    ensures
        r == (a@ == b@),
{
    let n: usize = a.unicode_len();
    if n != b.unicode_len() {
        return false;
    }
    let mut i: usize = 0;
    while i < n
        invariant
            n == a@.len(),
            n == b@.len(),
            i <= n,
            forall|j: int| 0 <= j < i ==> #[trigger] a@[j] == b@[j],
        decreases n - i,
    {
        if a.get_char(i) != b.get_char(i) {
            return false;
        }
        i = i + 1;
    }
    assert(a@ =~= b@);
    true
}

/// The longer a run of digits, the larger its value.
proof fn lemma_value_grows(s: Seq<char>, i: int)
    requires
        0 <= i <= s.len(),
        forall|j: int| 0 <= j < s.len() ==> #[trigger] is_digit(s[j]),
    ensures
        value(s.subrange(0, i)) <= value(s),
    decreases s.len() - i,
{
    if i < s.len() {
        let a = s.subrange(0, i);
        let b = s.subrange(0, i + 1);
        assert(b.drop_last() =~= a);
        assert(is_digit(s[i]));
        assert(value(b) >= value(a));
        lemma_value_grows(s, i + 1);
    } else {
        assert(s.subrange(0, i) =~= s);
    }
}

/// The number that characters spell, if they spell one that fits.
pub fn parse_usize(s: &[char]) -> (r: Option<usize>)
    ensures
        r == parsed(s@),
{
    let n: usize = s.len();
    let start: usize = if n > 0 && s[0] == '+' { 1 } else { 0 };
    let ghost t = unsigned_part(s@);
    proof {
        assert(t =~= s@.subrange(start as int, n as int));
    }
    if start == n {
        return None;
    }
    let mut acc: usize = 0;
    let mut i: usize = start;
    while i < n
        invariant
            n == s@.len(),
            start <= i <= n,
            t == s@.subrange(start as int, n as int),
            t == unsigned_part(s@),
            acc == value(t.subrange(0, i - start)),
            forall|j: int| 0 <= j < i - start ==> #[trigger] is_digit(t[j]),
        decreases n - i,
    {
        let c: char = s[i];
        assert(c == t[i - start]);
        if c < '0' || c > '9' {
            assert(!is_digit(t[i - start]));
            return None;
        }
        let d: usize = (c as u32 - 48) as usize;
        let ghost next = t.subrange(0, i - start + 1);
        proof {
            assert(next.drop_last() =~= t.subrange(0, i - start));
            assert(next.last() == c);
            assert(value(next) == acc * 10 + d);
        }
        match acc.checked_mul(10) {
            Some(m) => {
                match m.checked_add(d) {
                    Some(a) => {
                        acc = a;
                    },
                    None => {
                        proof {
                            if is_number(s@) {
                                lemma_value_grows(t, i - start + 1);
                            }
                        }
                        return None;
                    },
                }
            },
            None => {
                proof {
                    if is_number(s@) {
                        lemma_value_grows(t, i - start + 1);
                    }
                }
                return None;
            },
        }
        i = i + 1;
    }
    assert(t.subrange(0, n - start) =~= t);
    Some(acc)
}

/// Decimal notation is read back as the number it was written for.
pub proof fn lemma_decimal_roundtrip(n: usize)
    ensures
        parsed(decimal(n as nat)) == Some(n),
{
    lemma_decimal_digits(n as nat);
    let s = decimal(n as nat);
    assert(is_digit(s[0]));
    assert(unsigned_part(s) == s);
}

/// Decimal notation is made of digits and has the value of the number.
pub proof fn lemma_decimal_digits(n: nat)
    ensures
        decimal(n).len() > 0,
        forall|i: int| 0 <= i < decimal(n).len() ==> #[trigger] is_digit(decimal(n)[i]),
        value(decimal(n)) == n,
    decreases n,
{
    if n < 10 {
        let s = seq![digit_char(n)];
        assert(s.drop_last() =~= Seq::<char>::empty());
        reveal_with_fuel(value, 2);
    } else {
        lemma_decimal_digits(n / 10);
        let s = decimal(n / 10).push(digit_char(n % 10));
        assert(s.drop_last() =~= decimal(n / 10));
        assert forall|i: int| 0 <= i < s.len() implies #[trigger] is_digit(s[i]) by {
            if i < s.len() - 1 {
                assert(s[i] == decimal(n / 10)[i]);
            }
        }
    }
}

/// Digits without a leading zero, or the single digit zero.
pub open spec fn is_canonical(s: Seq<char>) -> bool {
    &&& s.len() > 0
    &&& forall|i: int| 0 <= i < s.len() ==> #[trigger] is_digit(s[i])
    &&& s.len() > 1 ==> s[0] != '0'
}

/// Decimal notation has no leading zero.
pub proof fn lemma_decimal_canonical(n: nat)
    ensures
        is_canonical(decimal(n)),
        n > 0 ==> decimal(n)[0] != '0',
    decreases n,
{
    lemma_decimal_digits(n);
    if n >= 10 {
        lemma_decimal_canonical(n / 10);
        lemma_decimal_digits(n / 10);
        assert(decimal(n)[0] == decimal(n / 10)[0]);
    }
}

/// Digits that do not begin with zero have a positive value.
proof fn lemma_value_positive(s: Seq<char>)
    requires
        s.len() > 0,
        forall|i: int| 0 <= i < s.len() ==> #[trigger] is_digit(s[i]),
        s[0] != '0',
    ensures
        value(s) > 0,
    decreases s.len(),
{
    assert(is_digit(s[0]));
    if s.len() > 1 {
        let t = s.drop_last();
        assert forall|i: int| 0 <= i < t.len() implies #[trigger] is_digit(t[i]) by {
            assert(is_digit(s[i]));
        }
        lemma_value_positive(t);
    } else {
        reveal_with_fuel(value, 2);
    }
}

/// Canonical digits are the decimal notation of their value.
pub proof fn lemma_canonical_is_decimal(s: Seq<char>)
    requires
        is_canonical(s),
    ensures
        decimal(value(s)) == s,
    decreases s.len(),
{
    assert(is_digit(s.last()));
    let d = (s.last() as nat - 48) as nat;
    let t = s.drop_last();
    if s.len() == 1 {
        reveal_with_fuel(value, 2);
        assert(t =~= Seq::<char>::empty());
        assert(decimal(value(s)) =~= s);
    } else {
        assert forall|i: int| 0 <= i < t.len() implies #[trigger] is_digit(t[i]) by {
            assert(is_digit(s[i]));
        }
        lemma_canonical_is_decimal(t);
        lemma_value_positive(t);
        assert(value(s) == value(t) * 10 + d);
        assert(decimal(value(s)) =~= s);
    }
}

/// A plus sign before digits changes nothing, and alone it is no number.
pub proof fn lemma_plus_sign(s: Seq<char>)
    requires
        s.len() > 0 ==> s[0] != '+',
    ensures
        parsed(seq!['+'] + s) == parsed(s),
        s.len() == 0 ==> parsed(s) is None,
{
    let t = seq!['+'] + s;
    assert(t.subrange(1, t.len() as int) =~= s);
    assert(unsigned_part(t) == s);
    assert(unsigned_part(s) == s);
}

/// A zero before digits changes nothing of their value.
pub proof fn lemma_leading_zero(s: Seq<char>)
    ensures
        value(seq!['0'] + s) == value(s),
    decreases s.len(),
{
    let t = seq!['0'] + s;
    if s.len() == 0 {
        assert(t.drop_last() =~= Seq::<char>::empty());
        reveal_with_fuel(value, 2);
    } else {
        assert(t.drop_last() =~= seq!['0'] + s.drop_last());
        assert(t.last() == s.last());
        lemma_leading_zero(s.drop_last());
    }
}

/// A text with anything but digits behind the sign is no number.
pub proof fn lemma_no_number(s: Seq<char>, i: int)
    requires
        0 <= i < s.len(),
        s[i] < '0' || s[i] > '9',
        i > 0 || s[0] != '+',
    ensures
        parsed(s) is None,
{
    let t = unsigned_part(s);
    if s[0] == '+' {
        assert(t[i - 1] == s[i]);
        assert(!is_digit(t[i - 1]));
    } else {
        assert(!is_digit(t[i]));
    }
}

/// One digit more makes the value ten times as large, and adds the digit.
pub proof fn lemma_next_digit(s: Seq<char>, d: nat)
    requires
        d < 10,
    ensures
        value(s.push(digit_char(d))) == 10 * value(s) + d,
        value(Seq::empty()) == 0,
{
    let t = s.push(digit_char(d));
    assert(t.drop_last() =~= s);
}

} // verus!
