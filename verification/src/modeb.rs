//! The bench of Hermite-Gauss modes on a small block: the modes, their roles,
//! and the verdict against plain cells.

use vstd::prelude::*;

use crate::bits::{lemma_last_bit, lemma_second_bit};
use crate::rng::{output, state_after, Rng};
use crate::sums::{lemma_sum_prefix, lemma_sum_zero, sum_range};

verus! {

/// Highest total order of a mode.
pub const MAX_ORDER: u32 = 4;

/// What a mode is for.
#[derive(Clone, Copy, Debug, PartialEq, Eq, Structural)]
pub enum Role {
    /// Amplitude and phase reference.
    Pilot,
    /// Probe of the blur.
    Probe,
    /// Two bits of data.
    Data,
}

/// The modes of total order at most four, by order, and within an order by
/// the first index.
pub open spec fn modes() -> Seq<(u32, u32)> {
    seq![
        (0u32, 0u32),
        (0u32, 1u32),
        (1u32, 0u32),
        (0u32, 2u32),
        (1u32, 1u32),
        (2u32, 0u32),
        (0u32, 3u32),
        (1u32, 2u32),
        (2u32, 1u32),
        (3u32, 0u32),
        (0u32, 4u32),
        (1u32, 3u32),
        (2u32, 2u32),
        (3u32, 1u32),
        (4u32, 0u32),
    ]
}

/// Number of modes of an order below `o`.
pub open spec fn modes_below(o: int) -> int {
    o * (o + 1) / 2
}

/// The modes in use.
pub fn mode_list() -> (v: Vec<(u32, u32)>)
    ensures
        v@ == modes(),
{
    let mut v: Vec<(u32, u32)> = Vec::new();
    let mut order: u32 = 0;
    assert(v@ =~= modes().subrange(0, 0));
    while order <= MAX_ORDER
        invariant
            order <= MAX_ORDER + 1,
            v@ == modes().subrange(0, modes_below(order as int)),
        decreases MAX_ORDER + 1 - order,
    {
        let mut m: u32 = 0;
        assert(modes_below(0) == 0 && modes_below(1) == 1 && modes_below(2) == 3 && modes_below(3)
            == 6 && modes_below(4) == 10 && modes_below(5) == 15);
        while m <= order
            invariant
                order <= MAX_ORDER,
                m <= order + 1,
                modes_below(0) == 0 && modes_below(1) == 1 && modes_below(2) == 3 && modes_below(3)
                    == 6 && modes_below(4) == 10 && modes_below(5) == 15,
                v@ == modes().subrange(0, modes_below(order as int) + m),
            decreases order + 1 - m,
        {
            v.push((m, order - m));
            assert(modes()[modes_below(order as int) + m] == (m, (order - m) as u32));
            m = m + 1;
            assert(v@ =~= modes().subrange(0, modes_below(order as int) + m));
        }
        order = order + 1;
    }
    assert(modes_below(5) == 15);
    assert(v@ =~= modes());
    v
}

/// Role of a mode.
pub open spec fn role(m: u32, n: u32) -> Role {
    if m == 0 && n == 0 {
        Role::Pilot
    } else if m == 2 && n == 0 || m == 0 && n == 2 {
        Role::Probe
    } else {
        Role::Data
    }
}

/// Role of a mode: the lowest is the pilot, the two of order two along one
/// axis probe the blur, the others carry data.
pub fn role_of(m: u32, n: u32) -> (r: Role)
    ensures
        r == role(m, n),
{
    if m == 0 && n == 0 {
        Role::Pilot
    } else if m == 2 && n == 0 || m == 0 && n == 2 {
        Role::Probe
    } else {
        Role::Data
    }
}

/// Every mode of order at most four is listed, once.
pub proof fn lemma_modes_complete(m: u32, n: u32)
    requires
        m + n <= MAX_ORDER,
    ensures
        exists|k: int| 0 <= k < 15 && #[trigger] modes()[k] == (m, n),
        forall|j: int, k: int|
            0 <= j < 15 && 0 <= k < 15 && #[trigger] modes()[j] == (m, n) && #[trigger] modes()[k] == (
            m,
            n,
        ) ==> j == k,
        modes().len() == 15,
{
    let k = modes_below((m + n) as int) + m;
    assert(modes_below(0) == 0 && modes_below(1) == 1 && modes_below(2) == 3 && modes_below(3) == 6
        && modes_below(4) == 10);
    assert(modes()[k] == (m, n));
}

/// The modes in use are one pilot, two probes and twelve carriers of data.
pub proof fn lemma_role_counts()
    ensures
        sum_range(
            0,
            15,
            |k: int|
                if role(modes()[k].0, modes()[k].1) == Role::Pilot {
                    1
                } else {
                    0
                },
        ) == 1,
        sum_range(
            0,
            15,
            |k: int|
                if role(modes()[k].0, modes()[k].1) == Role::Probe {
                    1
                } else {
                    0
                },
        ) == 2,
        sum_range(
            0,
            15,
            |k: int|
                if role(modes()[k].0, modes()[k].1) == Role::Data {
                    1
                } else {
                    0
                },
        ) == 12,
{
    reveal_with_fuel(sum_range, 16);
}

/// Position of mode `(m, n)` among `list`.
pub fn mode_index(list: &[(u32, u32)], m: u32, n: u32) -> (r: Option<usize>)
    ensures
        r matches Some(k) ==> k < list@.len() && list@[k as int] == (m, n) && forall|j: int|
            0 <= j < k ==> #[trigger] list@[j] != (m, n),
        r is None ==> forall|j: int| 0 <= j < list@.len() ==> #[trigger] list@[j] != (m, n),
{
    let mut k: usize = 0;
    while k < list.len()
        invariant
            k <= list@.len(),
            forall|j: int| 0 <= j < k ==> #[trigger] list@[j] != (m, n),
        decreases list@.len() - k,
    {
        let (a, b) = list[k];
        if a == m && b == n {
            return Some(k);
        }
        k = k + 1;
    }
    None
}

/// The modes of order `o` among the first `n` of a list, by position.
pub open spec fn of_order(list: Seq<(u32, u32)>, o: int, n: nat) -> Seq<usize>
    decreases n,
{
    if n == 0 {
        Seq::empty()
    } else if list[n - 1].0 + list[n - 1].1 == o {
        of_order(list, o, (n - 1) as nat).push((n - 1) as usize)
    } else {
        of_order(list, o, (n - 1) as nat)
    }
}

/// The modes of a list by order.
pub fn order_groups(list: &[(u32, u32)]) -> (groups: Vec<Vec<usize>>)
    requires
        forall|k: int|
            0 <= k < list@.len() ==> (#[trigger] list@[k]).0 + list@[k].1 <= MAX_ORDER,
    ensures
        groups@.len() == 5,
        forall|o: int|
            0 <= o < 5 ==> (#[trigger] groups@[o])@ == of_order(list@, o, list@.len()),
{
    let mut groups: Vec<Vec<usize>> = Vec::new();
    let mut o: u32 = 0;
    while o < 5
        invariant
            o <= 5,
            groups@.len() == o,
            forall|k: int|
                0 <= k < list@.len() ==> (#[trigger] list@[k]).0 + list@[k].1 <= MAX_ORDER,
            forall|p: int|
                0 <= p < o ==> (#[trigger] groups@[p])@ == of_order(list@, p, list@.len()),
        decreases 5 - o,
    {
        let mut group: Vec<usize> = Vec::new();
        let mut k: usize = 0;
        assert(group@ =~= Seq::<usize>::empty());
        while k < list.len()
            invariant
                k <= list@.len(),
                forall|k: int|
                    0 <= k < list@.len() ==> (#[trigger] list@[k]).0 + list@[k].1 <= MAX_ORDER,
                group@ == of_order(list@, o as int, k as nat),
            decreases list@.len() - k,
        {
            let (m, n) = list[k];
            assert(list@[k as int].0 + list@[k as int].1 <= MAX_ORDER);
            if m + n == o {
                group.push(k);
            }
            k = k + 1;
        }
        groups.push(group);
        o = o + 1;
    }
    groups
}

/// Errors are rarer than one in `per`; never so without trials.
pub fn rarer_than(errors: usize, trials: usize, per: usize) -> (r: bool)
    requires
        errors * per <= usize::MAX,
    ensures
        r == (errors * per < trials),
{
    errors * per < trials
}

/// The signs that a word gives to a value, true for plus: that of the real
/// part in the lowest bit, that of the imaginary part in the next.
pub open spec fn signs(word: u64) -> (bool, bool) {
    (word & 1 != 0, word & 2 != 0)
}

/// Whether the signs of a mode are drawn: those of every mode where all carry
/// data, else those of the modes for data.
pub open spec fn is_drawn(mode: (u32, u32), uniform: bool) -> bool {
    uniform || role(mode.0, mode.1) == Role::Data
}

/// How many of the first `n` modes have their signs drawn.
pub open spec fn drawn_before(list: Seq<(u32, u32)>, uniform: bool, n: nat) -> nat
    decreases n,
{
    if n == 0 {
        0
    } else if is_drawn(list[n - 1], uniform) {
        drawn_before(list, uniform, (n - 1) as nat) + 1
    } else {
        drawn_before(list, uniform, (n - 1) as nat)
    }
}

/// Draws the signs of the modes that carry data, one word each; the others
/// are sent as they are.
pub fn draw_signs(list: &[(u32, u32)], uniform: bool, rng: &mut Rng) -> (out: Vec<
    Option<(bool, bool)>,
>)
    ensures
        out@.len() == list@.len(),
        forall|k: int|
            0 <= k < out@.len() ==> #[trigger] out@[k] == if is_drawn(list@[k], uniform) {
                Some(
                    signs(output(state_after(old(rng)@, drawn_before(list@, uniform, k as nat) + 1))),
                )
            } else {
                None
            },
        final(rng)@ == state_after(old(rng)@, drawn_before(list@, uniform, list@.len())),
{
    let mut out: Vec<Option<(bool, bool)>> = Vec::new();
    let mut k: usize = 0;
    while k < list.len()
        invariant
            k <= list@.len(),
            out@.len() == k,
            rng@ == state_after(old(rng)@, drawn_before(list@, uniform, k as nat)),
            forall|j: int|
                0 <= j < k ==> #[trigger] out@[j] == if is_drawn(list@[j], uniform) {
                    Some(
                        signs(
                            output(
                                state_after(old(rng)@, drawn_before(list@, uniform, j as nat) + 1),
                            ),
                        ),
                    )
                } else {
                    None
                },
        decreases list@.len() - k,
    {
        let (m, n) = list[k];
        if uniform || role_of(m, n) == Role::Data {
            let word: u64 = rng.next_u64();
            out.push(Some((word & 1 != 0, word & 2 != 0)));
        } else {
            out.push(None);
        }
        k = k + 1;
    }
    out
}

/// The bits of a value that came out with the wrong sign.
pub fn sign_errors(sent: (bool, bool), got: (bool, bool)) -> (n: usize)
    ensures
        n == (if sent.0 == got.0 {
            0int
        } else {
            1
        }) + (if sent.1 == got.1 {
            0int
        } else {
            1
        }),
        n == 0 <==> sent == got,
        n == 2 <==> sent.0 != got.0 && sent.1 != got.1,
{
    let re: usize = if sent.0 == got.0 {
        0
    } else {
        1
    };
    let im: usize = if sent.1 == got.1 {
        0
    } else {
        1
    };
    re + im
}

/// Whether a mode for data gets fewer than one bit in a hundred wrong; one
/// that sent no bit gets none wrong.
pub open spec fn is_usable(mode: (u32, u32), errors: int, bits: int) -> bool {
    role(mode.0, mode.1) == Role::Data && (bits == 0 || errors * 100 < bits)
}

/// The bits of a block that the usable modes carry, two each.
pub fn usable_bits(list: &[(u32, u32)], errors: &[usize], bits: &[usize]) -> (n: usize)
    requires
        errors@.len() == list@.len(),
        bits@.len() == list@.len(),
        list@.len() * 2 <= usize::MAX,
        forall|k: int| 0 <= k < list@.len() ==> #[trigger] errors@[k] * 100 <= usize::MAX,
    ensures
        n == sum_range(
            0,
            list@.len(),
            |k: int|
                if is_usable(list@[k], errors@[k] as int, bits@[k] as int) {
                    2
                } else {
                    0
                },
        ),
        n <= 2 * list@.len(),
        (forall|k: int|
            0 <= k < list@.len() ==> role(
                (#[trigger] list@[k]).0,
                list@[k].1,
            ) != Role::Data) ==> n == 0,
{
    let ghost f = |k: int|
        if is_usable(list@[k], errors@[k] as int, bits@[k] as int) {
            2int
        } else {
            0
        };
    let mut n: usize = 0;
    let mut k: usize = 0;
    while k < list.len()
        invariant
            errors@.len() == list@.len(),
            bits@.len() == list@.len(),
            list@.len() * 2 <= usize::MAX,
            forall|k: int| 0 <= k < list@.len() ==> #[trigger] errors@[k] * 100 <= usize::MAX,
            k <= list@.len(),
            f == (|k: int|
                if is_usable(list@[k], errors@[k] as int, bits@[k] as int) {
                    2int
                } else {
                    0
                }),
            n == sum_range(0, k as nat, f),
            n <= 2 * k,
        decreases list@.len() - k,
    {
        let (m, o) = list[k];
        assert(errors@[k as int] * 100 <= usize::MAX);
        if role_of(m, o) == Role::Data && (bits[k] == 0 || rarer_than(errors[k], bits[k], 100)) {
            n = n + 2;
        }
        k = k + 1;
    }
    proof {
        if forall|k: int|
            0 <= k < list@.len() ==> role((#[trigger] list@[k]).0, list@[k].1) != Role::Data {
            lemma_sum_zero(0, list@.len(), f);
        }
    }
    n
}

/// Errors in a group of modes, and bits sent by it.
pub fn group_errors(group: &[usize], errors: &[usize], bits: &[usize]) -> (r: (usize, usize))
    requires
        forall|i: int|
            0 <= i < group@.len() ==> (#[trigger] group@[i]) < errors@.len() && group@[i]
                < bits@.len(),
        sum_range(0, group@.len(), |i: int| errors@[group@[i] as int] as int) <= usize::MAX,
        sum_range(0, group@.len(), |i: int| bits@[group@[i] as int] as int) <= usize::MAX,
    ensures
        r.0 == sum_range(0, group@.len(), |i: int| errors@[group@[i] as int] as int),
        r.1 == sum_range(0, group@.len(), |i: int| bits@[group@[i] as int] as int),
        group@.len() == 0 ==> r == (0usize, 0usize),
        group@.len() == 1 ==> r.0 == errors@[group@[0] as int] && r.1 == bits@[group@[0] as int],
{
    let ghost f = |i: int| errors@[group@[i] as int] as int;
    let ghost g = |i: int| bits@[group@[i] as int] as int;
    let mut e: usize = 0;
    let mut b: usize = 0;
    let mut i: usize = 0;
    while i < group.len()
        invariant
            i <= group@.len(),
            forall|i: int|
                0 <= i < group@.len() ==> (#[trigger] group@[i]) < errors@.len() && group@[i]
                    < bits@.len(),
            f == (|i: int| errors@[group@[i] as int] as int),
            g == (|i: int| bits@[group@[i] as int] as int),
            sum_range(0, group@.len(), f) <= usize::MAX,
            sum_range(0, group@.len(), g) <= usize::MAX,
            e == sum_range(0, i as nat, f),
            b == sum_range(0, i as nat, g),
        decreases group@.len() - i,
    {
        proof {
            lemma_sum_prefix((i + 1) as nat, group@.len(), f);
            lemma_sum_prefix((i + 1) as nat, group@.len(), g);
        }
        let k: usize = group[i];
        e = e + errors[k];
        b = b + bits[k];
        i = i + 1;
    }
    proof {
        reveal_with_fuel(sum_range, 2);
    }
    (e, b)
}

/// How many of the trials got cell `c` wrong.
pub open spec fn cell_errors(trials: Seq<Vec<bool>>, c: int) -> int {
    sum_range(
        0,
        trials.len(),
        |t: int|
            if trials[t]@[c] {
                0
            } else {
                1
            },
    )
}

/// The cells that fewer than one trial in a hundred got wrong.
pub fn reliable_cells(trials: &Vec<Vec<bool>>, cells: usize) -> (n: usize)
    requires
        forall|t: int| 0 <= t < trials@.len() ==> (#[trigger] trials@[t])@.len() == cells,
        trials@.len() * 100 <= usize::MAX,
    ensures
        n == sum_range(
            0,
            cells as nat,
            |c: int|
                if cell_errors(trials@, c) * 100 < trials@.len() {
                    1
                } else {
                    0
                },
        ),
        n <= cells,
        trials@.len() == 0 ==> n == 0,
        trials@.len() > 0 && (forall|t: int, c: int|
            0 <= t < trials@.len() && 0 <= c < cells ==> #[trigger] trials@[t]@[c]) ==> n == cells,
        trials@.len() <= 100 && (forall|c: int|
            0 <= c < cells ==> #[trigger] cell_errors(trials@, c) >= 1) ==> n == 0,
{
    let ghost f = |c: int|
        if cell_errors(trials@, c) * 100 < trials@.len() {
            1int
        } else {
            0
        };
    let mut n: usize = 0;
    let mut c: usize = 0;
    while c < cells
        invariant
            forall|t: int| 0 <= t < trials@.len() ==> (#[trigger] trials@[t])@.len() == cells,
            trials@.len() * 100 <= usize::MAX,
            c <= cells,
            f == (|c: int|
                if cell_errors(trials@, c) * 100 < trials@.len() {
                    1int
                } else {
                    0
                }),
            n == sum_range(0, c as nat, f),
            n <= c,
        decreases cells - c,
    {
        let ghost g = |t: int|
            if trials@[t]@[c as int] {
                0int
            } else {
                1
            };
        let mut errors: usize = 0;
        let mut t: usize = 0;
        while t < trials.len()
            invariant
                c < cells,
                forall|t: int| 0 <= t < trials@.len() ==> (#[trigger] trials@[t])@.len() == cells,
                t <= trials@.len(),
                g == (|t: int|
                    if trials@[t]@[c as int] {
                        0int
                    } else {
                        1
                    }),
                errors == sum_range(0, t as nat, g),
                errors <= t,
            decreases trials@.len() - t,
        {
            assert(trials@[t as int]@.len() == cells);
            if !trials[t][c] {
                errors = errors + 1;
            }
            t = t + 1;
        }
        if rarer_than(errors, trials.len(), 100) {
            n = n + 1;
        }
        c = c + 1;
    }
    proof {
        if trials@.len() == 0 {
            lemma_sum_zero(0, cells as nat, f);
        }
        if trials@.len() > 0 && (forall|t: int, c: int|
            0 <= t < trials@.len() && 0 <= c < cells ==> #[trigger] trials@[t]@[c]) {
            assert forall|c: int| 0 <= c < cells implies #[trigger] f(c) + 0 == 1 by {
                lemma_sum_zero(
                    0,
                    trials@.len(),
                    |t: int|
                        if trials@[t]@[c] {
                            0
                        } else {
                            1
                        },
                );
            }
            let none = |c: int| 0int;
            assert forall|c: int| 0 <= c < cells implies #[trigger] f(c) + none(c) == 1 by {
                assert(f(c) + 0 == 1);
            }
            lemma_halves_counted(cells as nat, f, none);
            lemma_sum_zero(0, cells as nat, none);
        }
        if trials@.len() <= 100 && (forall|c: int|
            0 <= c < cells ==> #[trigger] cell_errors(trials@, c) >= 1) {
            assert forall|c: int| 0 <= c < cells implies #[trigger] f(c) == 0 by {
                assert(cell_errors(trials@, c) >= 1);
            }
            lemma_sum_zero(0, cells as nat, f);
        }
    }
    n
}

/// Who carries more.
#[derive(Clone, Copy, Debug, PartialEq, Eq, Structural)]
pub enum Winner {
    Modes,
    Tie,
    Cells,
}

/// Compares the usable bits of the modes with the reliable bits of the cells.
pub fn winner(mode_bits: usize, cell_bits: usize) -> (r: Winner)
    ensures
        r == Winner::Modes <==> mode_bits > cell_bits,
        r == Winner::Tie <==> mode_bits == cell_bits,
        r == Winner::Cells <==> mode_bits < cell_bits,
{
    if mode_bits > cell_bits {
        Winner::Modes
    } else if mode_bits == cell_bits {
        Winner::Tie
    } else {
        Winner::Cells
    }
}

/// The modes are listed by total order, and within an order by the first index.
pub proof fn lemma_modes_sorted(j: int, k: int)
    requires
        0 <= j < k < 15,
    ensures
        modes()[j].0 + modes()[j].1 <= modes()[k].0 + modes()[k].1 <= 4,
        modes()[j].0 + modes()[j].1 == modes()[k].0 + modes()[k].1 ==> modes()[j].0 < modes()[k].0,
{
}

/// The two axes have the same roles: the pilot is the mode of order zero, the
/// probes are those of order two along one axis, all others carry data.
pub proof fn lemma_roles(m: u32, n: u32)
    ensures
        role(m, n) == role(n, m),
        role(m, n) == Role::Pilot <==> m + n == 0,
        role(m, n) == Role::Probe <==> m + n == 2 && m != n,
{
}

/// A group holds the positions of all modes of its order, each once, in
/// ascending order.
pub proof fn lemma_group_members(list: Seq<(u32, u32)>, o: int, n: nat)
    requires
        n <= usize::MAX,
        n <= list.len(),
    ensures
        forall|i: int, j: int|
            0 <= i < j < of_order(list, o, n).len() ==> #[trigger] of_order(list, o, n)[i]
                < #[trigger] of_order(list, o, n)[j],
        forall|i: int|
            0 <= i < of_order(list, o, n).len() ==> {
                let k = #[trigger] of_order(list, o, n)[i] as int;
                k < n && list[k].0 + list[k].1 == o
            },
        forall|k: usize|
            k < n && list[k as int].0 + list[k as int].1 == o ==> #[trigger] of_order(
                list,
                o,
                n,
            ).contains(k),
    decreases n,
{
    if n > 0 {
        let m = (n - 1) as nat;
        lemma_group_members(list, o, m);
        let before = of_order(list, o, m);
        let after = of_order(list, o, n);
        assert forall|k: usize|
            k < n && list[k as int].0 + list[k as int].1 == o implies #[trigger] after.contains(
            k,
        ) by {
            if k < m {
                assert(before.contains(k));
                let i = choose|i: int| 0 <= i < before.len() && before[i] == k;
                assert(after[i] == k);
            } else {
                assert(after[after.len() - 1] == k);
            }
        }
    }
}

/// The sign of the real part is plus where the word is odd, that of the
/// imaginary part where its half is.
pub proof fn lemma_signs_from_word(word: u64)
    ensures
        signs(word).0 <==> word % 2 == 1,
        signs(word).1 <==> (word / 2) % 2 == 1,
{
    lemma_last_bit(word);
    lemma_second_bit(word);
}

/// Modes are drawn or sent as they are: each mode that is drawn counts one.
/// Where all modes carry data all are drawn, else the pilot and the probes are not.
pub proof fn lemma_drawn_counted(list: Seq<(u32, u32)>, uniform: bool, n: nat)
    requires
        n <= list.len(),
    ensures
        drawn_before(list, true, n) == n,
        drawn_before(list, uniform, n) + sum_range(
            0,
            n,
            |k: int|
                if !uniform && role(list[k].0, list[k].1) != Role::Data {
                    1
                } else {
                    0
                },
        ) == n,
    decreases n,
{
    if n > 0 {
        lemma_drawn_counted(list, uniform, (n - 1) as nat);
    }
}

/// A mode is usable if its errors are rarer than one bit in a hundred, and not
/// if they are just as frequent; without bits there is nothing to get wrong.
/// Only modes for data are usable.
pub proof fn lemma_usable_limit(mode: (u32, u32), errors: int)
    requires
        errors >= 0,
    ensures
        is_usable(mode, errors, 0) <==> role(mode.0, mode.1) == Role::Data,
        is_usable(mode, errors, 100 * errors + 1) <==> role(mode.0, mode.1) == Role::Data,
        errors > 0 ==> !is_usable(mode, errors, 100 * errors),
        forall|fewer: int, bits: int|
            0 <= fewer <= errors && bits > 100 * errors && role(mode.0, mode.1) == Role::Data
                ==> #[trigger] is_usable(mode, fewer, bits),
{
}

/// Every trial got a cell right or wrong.
pub proof fn lemma_right_and_wrong(trials: Seq<Vec<bool>>, c: int)
    ensures
        cell_errors(trials, c) + sum_range(
            0,
            trials.len(),
            |t: int|
                if trials[t]@[c] {
                    1
                } else {
                    0
                },
        ) == trials.len(),
{
    let f = |t: int|
        if trials[t]@[c] {
            0int
        } else {
            1
        };
    let g = |t: int|
        if trials[t]@[c] {
            1int
        } else {
            0
        };
    lemma_halves_counted(trials.len(), f, g);
}

/// Two counts that never meet and miss nothing add up to the number of terms.
proof fn lemma_halves_counted(n: nat, f: spec_fn(int) -> int, g: spec_fn(int) -> int)
    requires
        forall|i: int| 0 <= i < n ==> #[trigger] f(i) + g(i) == 1,
    ensures
        sum_range(0, n, f) + sum_range(0, n, g) == n,
    decreases n,
{
    if n > 0 {
        lemma_halves_counted((n - 1) as nat, f, g);
        assert(f(n - 1) + g(n - 1) == 1);
    }
}

} // verus!
