use psicode_sim::finder::{
    all_rows, bullseye_cells, chirp_cells, payload_area, plannable, row_label, rows_per_worker, smallest_factor,
    symbol_cells, window_count, wrap_shift, Cand,
};
use psicode_sim::rng::Rng;

#[test]
fn candidates_and_rows() {
    let rows = all_rows();
    assert_eq!(rows.len(), 17);
    assert_eq!(rows[16], (Cand::V1Border, 0));
    assert_eq!(row_label(Cand::V1Border, 0), "v1border 61×61");
    assert_eq!(row_label(Cand::Chirp, 15), format!("{} 15×15", Cand::Chirp.label()));
    assert!(Cand::MArray.costs_payload() && !Cand::V1Corner.costs_payload());
    assert_eq!(Cand::V1Border.exclusion(244), 61);
    assert_eq!(Cand::V1Border.exclusion(20), 8);
    assert_eq!(Cand::Chirp.exclusion(31), 15);
    assert_eq!(payload_area(), 3249);
}

#[test]
fn bullseyes_are_rings() {
    // Odd side: the centre cell, then rings of alternating sign.
    assert_eq!(
        bullseye_cells(3),
        vec![-1, -1, -1, -1, 1, -1, -1, -1, -1]
    );
    let b = bullseye_cells(5);
    assert_eq!(b[12], 1);
    assert_eq!(b[11], -1);
    assert_eq!(b[0], 1);
    let n = 8usize;
    let b = bullseye_cells(n);
    for y in 0..n {
        for x in 0..n {
            assert_eq!(b[y * n + x], b[x * n + y]);
            assert_eq!(b[y * n + x], b[y * n + n - 1 - x]);
        }
    }
}

#[test]
fn symbols_put_marks_over_borders_over_payload() {
    let mut border = vec![None; 61 * 61];
    for x in 0..61 {
        border[x] = Some(x % 2 == 0);
    }
    let mark = Some(vec![-1i8; 9]);
    let mut rng = Rng::new(4);
    let cells = symbol_cells(&border, &mark, 3, &mut rng);
    assert_eq!(cells.len(), 61 * 61);
    for x in 0..61 {
        assert_eq!(cells[x], x % 2 == 0);
    }
    for y in 29..32 {
        for x in 29..32 {
            assert!(!cells[y * 61 + x]);
        }
    }
    let mut draws = Rng::new(4);
    for c in 0..61 * 61 {
        let bit = draws.next_u64() & 1 != 0;
        let (x, y) = (c % 61, c / 61);
        if y > 0 && !((29..32).contains(&x) && (29..32).contains(&y)) {
            assert_eq!(cells[c], bit, "cell {c}");
        }
    }
    assert_eq!(rng.next_u64(), draws.next_u64());
}

#[test]
fn factors_and_plans() {
    assert_eq!(smallest_factor(12), 2);
    assert_eq!(smallest_factor(15), 3);
    assert_eq!(smallest_factor(25), 5);
    assert_eq!(smallest_factor(1), 1);
    assert!(plannable(60) && plannable(1) && plannable(1920) && plannable(14));
    assert!(!plannable(11) && !plannable(26));
}

#[test]
fn work_is_shared_out() {
    assert_eq!(rows_per_worker(10, 4), 3);
    assert_eq!(rows_per_worker(8, 4), 2);
    assert_eq!(rows_per_worker(0, 4), 1);
    assert_eq!(window_count(10, 6, 4, 2), 8);
    assert_eq!(window_count(4, 4, 4, 3), 1);
    assert_eq!(wrap_shift(3, 8), 3);
    assert_eq!(wrap_shift(4, 8), 4);
    assert_eq!(wrap_shift(5, 8), -3);
}

#[test]
fn zone_plates_follow_the_cosine() {
    assert_eq!(chirp_cells(1), vec![1]);
    for n in [2usize, 3, 9, 15, 16, 21, 25, 40] {
        let cells = chirp_cells(n);
        let c = (n as f64 - 1.0) * 0.5;
        for y in 0..n {
            for x in 0..n {
                let (dx, dy) = (x as f64 - c, y as f64 - c);
                let phase = std::f64::consts::PI * (dx * dx + dy * dy) / n as f64;
                let sign = if phase.cos() >= 0.0 { 1 } else { -1 };
                assert_eq!(cells[y * n + x], sign, "n={n} ({x}, {y})");
            }
        }
    }
}
