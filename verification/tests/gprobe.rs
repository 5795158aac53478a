use psicode_sim::gprobe::{
    bits_per_axis, calibration_map, calibration_modes, delivered_bits, draw_pairs, is_pilot,
    local_window, midx, morder, order_pool, pam_bit_errors, payload_places, pilot_map,
    window_start, FieldFit, FieldMode, CELLS, NMODES,
};
use psicode_sim::rng::Rng;

#[test]
fn gray_errors() {
    let mut table = Vec::new();
    for a in 0..4usize {
        for b in 0..4usize {
            table.push(pam_bit_errors(a, b));
        }
    }
    assert_eq!(table, vec![0, 1, 2, 1, 1, 0, 1, 2, 2, 1, 0, 1, 1, 2, 1, 0]);
    // Neighbouring levels differ in one bit.
    for a in 0..1000usize {
        assert_eq!(pam_bit_errors(a, a + 1), 1);
    }
}

#[test]
fn bits_of_an_axis() {
    assert_eq!(bits_per_axis(1), 0);
    assert_eq!(bits_per_axis(2), 1);
    assert_eq!(bits_per_axis(4), 2);
    assert_eq!(bits_per_axis(7), 2);
    assert_eq!(bits_per_axis(8), 3);
}

#[test]
fn pilots_lie_on_a_lattice() {
    assert!(is_pilot(0, 6, Some(3)));
    assert!(!is_pilot(1, 6, Some(3)));
    assert!(!is_pilot(0, 0, None));
    let map = pilot_map(Some(4));
    assert_eq!(map.len(), CELLS * CELLS);
    assert_eq!(map.iter().filter(|&&p| p).count(), 36);
    assert_eq!(payload_places(&map).len(), CELLS * CELLS - 36);
    assert_eq!(payload_places(&vec![true, false, true, false]), vec![1, 3]);
}

#[test]
fn drawn_pairs_skip_pilots() {
    let skip = vec![true, false, false, true, false];
    let mut rng = Rng::new(9);
    let pairs = draw_pairs(&skip, 4, &mut rng);
    assert_eq!(pairs, vec![None, Some((3, 3)), Some((2, 1)), None, Some((1, 1))]);
    let mut other = Rng::new(9);
    for _ in 0..6 {
        other.next_u64();
    }
    assert_eq!(rng.next_u64(), other.next_u64());
}

#[test]
fn modes_and_their_orders() {
    assert_eq!(midx(2, 5), 53);
    assert_eq!(morder(53), 7);
    assert_eq!(morder(NMODES - 1), 46);
    let cal = calibration_map();
    for (mx, my) in calibration_modes() {
        assert!(mx + my <= 2 && cal[midx(mx, my)]);
    }
    assert_eq!(cal.iter().filter(|&&c| c).count(), 6);
    assert!(cal[midx(1, 1)] && cal[midx(0, 2)] && !cal[midx(1, 2)]);
}

#[test]
fn pools_widen_until_they_hold_eight_modes() {
    let cal = calibration_map();
    // Order 20 has 21 modes of its own.
    let pool = order_pool(&cal, 20);
    assert_eq!(pool.len(), 21);
    assert!(pool.iter().all(|&k| morder(k) == 20));
    // Order 3 has four, and with order 4 nine; order 2 is all calibration.
    let pool = order_pool(&cal, 3);
    assert_eq!(pool.len(), 9);
    assert!(pool.iter().all(|&k| morder(k) == 3 || morder(k) == 4));
    // The last order has one mode; three orders down it still has ten.
    let pool = order_pool(&cal, 46);
    assert_eq!(pool.len(), 10);
    // Beyond all modes nothing is left.
    assert!(order_pool(&cal, 60).is_empty());
}

#[test]
fn fields_and_fits() {
    assert_eq!(FieldMode::Uniform.label(), "нет");
    assert_eq!(FieldFit::Flat.terms(), 0);
    assert_eq!(FieldFit::Local(2).terms(), 0);
    assert_eq!(FieldFit::Affine.terms(), 3);
    assert_eq!(FieldFit::Quad.terms(), 6);
    assert_eq!(local_window(0, 2, 24), (0, 2));
    assert_eq!(local_window(12, 2, 24), (10, 14));
    assert_eq!(local_window(23, 2, 24), (21, 23));
    assert_eq!(window_start(3, 12, 8), 38);
    assert_eq!(window_start(3, 12, 12), 36);
    assert_eq!(delivered_bits(&[true, false, true], 2), 4);
    assert_eq!(delivered_bits(&[], 2), 0);
}
