use psicode_sim::pipeline::{
    compare_cells, draw_cells, drive_to_linear, score_trial, Ratio, TrialResult,
};
use psicode_sim::rng::Rng;

fn value(r: Ratio) -> f64 {
    r.num as f64 / r.den as f64
}

#[test]
fn trial_result_rates() {
    let r = TrialResult { wrong_cells: 1, total_cells: 4, wrong_bits: 3, total_bits: 20 };
    assert!((value(r.ser()) - 0.25).abs() < 1e-12);
    assert!((value(r.ber()) - 0.15).abs() < 1e-12);
    let z = TrialResult::default();
    assert_eq!(value(z.ser()), 0.0);
    assert_eq!(value(z.ber()), 0.0);
}

#[test]
fn drawn_cells_are_known() {
    let mut rng = Rng::new(1);
    assert_eq!(draw_cells(&mut rng, 5, 8), vec![29, 29, 23, 29, 0, 25, 1, 13]);
    // One draw per cell.
    let mut other = Rng::new(1);
    for _ in 0..8 {
        other.next_u64();
    }
    assert_eq!(rng.next_u64(), other.next_u64());
    assert_eq!(draw_cells(&mut rng, 0, 3), vec![0, 0, 0]);
}

#[test]
fn comparison_counts_cells_and_bits() {
    let sent = [0b000u8, 0b101, 0b111, 0b010];
    let got = [0b000u8, 0b100, 0b000, 0b010];
    assert_eq!(compare_cells(&sent, &got, 3), (2, 4, 12));
    // Bits above the width of a cell do not count.
    assert_eq!(compare_cells(&[0b1000], &[0b0001], 3), (1, 1, 3));
    // The shorter side decides.
    assert_eq!(compare_cells(&sent, &got[..1], 3), (0, 0, 3));
    assert_eq!(compare_cells(&[], &got, 3), (0, 0, 0));
}

#[test]
fn a_perfect_trial_scores_zero() {
    let mut rng = Rng::new(5);
    let cells = draw_cells(&mut rng, 5, 100);
    let r = score_trial(&cells, &cells, 5);
    assert_eq!(r.ser(), Ratio { num: 0, den: 100 });
    assert_eq!(r.ber(), Ratio { num: 0, den: 500 });
}

#[test]
fn tables_turn_drive_into_light() {
    let mut lut = [[0u32; 256]; 3];
    for v in 0..256usize {
        lut[0][v] = v as u32;
        lut[1][v] = 1000 + v as u32;
        lut[2][v] = 2000 + v as u32;
    }
    let drive = [[1u8, 2, 3], [255, 0, 128], [9, 9, 9]];
    let img = drive_to_linear(&drive, 2, 2, &lut, [7; 3]);
    assert_eq!((img.w, img.h), (2, 2));
    assert_eq!(
        img.data,
        vec![[1, 1002, 2003], [255, 1000, 2128], [9, 1009, 2009], [7, 7, 7]]
    );
    // Drive past the image is not read.
    assert_eq!(drive_to_linear(&drive, 1, 1, &lut, [7; 3]).data, vec![[1, 1002, 2003]]);
}
