use psicode_sim::rank::{
    first_max, first_max_above, first_true, last_true, order_key, Surface, Window,
};

fn key(x: f64) -> u64 {
    order_key(x.to_bits())
}

#[test]
fn keys_order_as_numbers_do() {
    let xs = [f64::NEG_INFINITY, -2.5, -1.0, -1e-300, 0.0, 1e-300, 0.5, 1.0, 3.0, f64::INFINITY];
    for a in 0..xs.len() {
        for b in 0..xs.len() {
            assert_eq!(key(xs[a]) < key(xs[b]), xs[a] < xs[b]);
        }
    }
}

#[test]
fn ties_go_to_the_first() {
    let keys = [key(0.2), key(0.9), key(0.9), key(-1.0)];
    assert_eq!(first_max(&keys), 1);
    assert_eq!(first_max_above(&keys, key(0.5)), Some(1));
    assert_eq!(first_max_above(&keys, key(0.9)), None);
    assert_eq!(first_max_above(&[], 0), None);
    assert_eq!(first_max(&[0]), 0);
}

#[test]
fn windows_are_inclusive() {
    let w = Window { x: 5, y: 2, reach: 3 };
    assert!(w.contains(2, 0) && w.contains(8, 5));
    assert!(!w.contains(9, 2) && !w.contains(5, 6) && !w.contains(1, 2));
}

#[test]
fn peaks_and_side_lobes() {
    // Five columns, of which four are valid, by three rows.
    let vals = [
        0.0, 0.1, 0.2, 0.1, 9.0, //
        0.1, 0.8, 0.5, 0.7, 9.0, //
        0.0, 0.3, 0.2, 0.1, 9.0,
    ];
    let s = Surface { w: 5, vw: 4, vh: 3, keys: vals.iter().map(|&v| key(v)).collect() };
    assert_eq!(s.at(1, 1), key(0.8));
    assert_eq!(s.top(None, key(f64::NEG_INFINITY)).0, Some((1, 1)));
    // Around the peak one cell out; what is left is the last column.
    let hole = Window { x: 1, y: 1, reach: 1 };
    assert_eq!(s.top(Some(hole), key(f64::NEG_INFINITY)), (Some((3, 1)), 3));
    let all = Window { x: 1, y: 1, reach: 9 };
    assert_eq!(s.top(Some(all), 0), (None, 0));
    assert_eq!(s.lobe_half_width(1, 1, key(0.4)), 3);
    assert_eq!(s.lobe_half_width(1, 1, key(0.55)), 1);
}

#[test]
fn runs_of_flags() {
    let f = [false, true, true, false, true];
    assert_eq!(first_true(&f), Some(1));
    assert_eq!(last_true(&f), Some(4));
    assert_eq!(first_true(&[false]), None);
    assert_eq!(last_true(&[]), None);
}
