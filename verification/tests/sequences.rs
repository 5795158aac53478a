use psicode_sim::lfsr::{lfsr_period, m_sequence, primitive_mask};
use psicode_sim::marray::{folding_for, marray_cells, MAX_WINDOW};

#[test]
fn m_sequence_has_full_period_and_balance() {
    for k in [6usize, 8, 10] {
        let s = m_sequence(k);
        assert_eq!(s.len(), (1 << k) - 1);
        let sum: i32 = s.iter().map(|&v| v as i32).sum();
        assert_eq!(sum.abs(), 1, "k={k} sum={sum}");
    }
}

#[test]
fn marray_folding_is_a_bijection() {
    let (k, n1, n2) = folding_for(15);
    assert_eq!(k, 8);
    let s = m_sequence(k);
    let mut seen = vec![false; n1 * n2];
    for t in 0..s.len() {
        let idx = (t % n2) * n1 + (t % n1);
        assert!(!seen[idx], "folding collides at t={t}");
        seen[idx] = true;
    }
    assert!(seen.iter().all(|b| *b));
}

#[test]
fn periods_of_known_registers() {
    assert_eq!(lfsr_period(3, 0b011), 7);
    assert_eq!(lfsr_period(4, 0b1001), 15);
    // Feedback that only rotates the word: it comes back too early.
    assert_eq!(lfsr_period(4, 0b0001), 0);
    assert_eq!(lfsr_period(2, 0b01), 0);
    // No feedback: the register empties and never comes back.
    assert_eq!(lfsr_period(4, 0), 0);
    assert_eq!(lfsr_period(1, 1), 1);
}

#[test]
fn m_sequence_of_three_places() {
    // States 1, 4, 2, 5, 6, 7, 3 of the register with mask 011.
    assert_eq!(m_sequence(3), vec![1, -1, -1, 1, -1, 1, 1]);
}

#[test]
fn m_sequence_has_two_valued_autocorrelation() {
    for k in [6usize, 8, 10, 12] {
        let s = m_sequence(k);
        let n = s.len();
        for shift in [1usize, 2, 3, n / 2, n - 1] {
            let c: i32 = (0..n).map(|t| s[t] as i32 * s[(t + shift) % n] as i32).sum();
            assert_eq!(c, -1, "k={k} shift={shift}");
        }
    }
}

#[test]
fn foldings_grow_with_the_window() {
    assert_eq!(folding_for(7), (6, 7, 9));
    assert_eq!(folding_for(8), (8, 15, 17));
    assert_eq!(folding_for(16), (10, 31, 33));
    assert_eq!(folding_for(32), (12, 63, 65));
    assert_eq!(folding_for(MAX_WINDOW), (12, 63, 65));
    for need in 0..=MAX_WINDOW {
        let (k, n1, n2) = folding_for(need);
        assert_eq!(n1 * n2, (1 << k) - 1);
        assert!(n1.min(n2) >= need);
        assert!((2..=n1).all(|d| n1 % d != 0 || n2 % d != 0));
    }
}

#[test]
fn marray_window_is_read_off_the_sequence() {
    let (k, n1, n2) = folding_for(15);
    let s = m_sequence(k);
    let w = marray_cells(15);
    assert_eq!(w.len(), 15 * 15);
    for t in 0..s.len() {
        let (x, y) = (t % n1, t % n2);
        if x < 15 && y < 15 {
            assert_eq!(w[y * 15 + x], s[t], "t={t}");
        }
    }
}

#[test]
fn marray_torus_has_two_valued_autocorrelation() {
    let (k, n1, n2) = folding_for(15);
    let s = m_sequence(k);
    let mut a = vec![0i32; n1 * n2];
    for t in 0..s.len() {
        a[(t % n2) * n1 + t % n1] = s[t] as i32;
    }
    for (dx, dy) in [(1usize, 0usize), (0, 1), (3, 5), (14, 16)] {
        let mut c = 0;
        for y in 0..n2 {
            for x in 0..n1 {
                c += a[y * n1 + x] * a[((y + dy) % n2) * n1 + (x + dx) % n1];
            }
        }
        assert_eq!(c, -1, "shift {dx},{dy}");
    }
}

#[test]
fn the_smallest_mask_of_full_period_is_found() {
    assert_eq!(primitive_mask(1), Some(1));
    assert_eq!(primitive_mask(2), Some(3));
    assert_eq!(primitive_mask(3), Some(3));
    for k in [6usize, 7, 8] {
        let taps = primitive_mask(k).unwrap();
        let full = (1usize << k) - 1;
        assert_eq!(lfsr_period(k, taps), full);
        assert!((1..taps).all(|t| lfsr_period(k, t) == 0));
        assert_eq!(m_sequence(k).len(), full);
    }
}
