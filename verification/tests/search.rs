use psicode_sim::rank::order_key;
use psicode_sim::search::{crossing, hold_zone, place_in_table, Place, CAP, UNIT};

#[test]
fn crossings_are_found_to_a_fraction_of_a_pixel() {
    for c in [1u32, 300_000, UNIT, 3 * UNIT + 77, 40 * UNIT, CAP] {
        let r = crossing(|x| x < c);
        assert!(r.abs_diff(c) <= 128, "{c}: {r}");
    }
    assert_eq!(crossing(|_| true), CAP);
    // Never above: the lowest middle that is left.
    assert_eq!(crossing(|_| false), 2);
}

#[test]
fn a_crossing_matches_the_same_search_on_numbers() {
    let curve = |s: f64| 20.0 / (1.0 + s * s);
    let thresh = 5.0;
    let mut hi = 1.0f64;
    while curve(hi) >= thresh && hi < 64.0 {
        hi *= 2.0;
    }
    let mut lo = hi / 2.0;
    if curve(lo) < thresh {
        lo = 0.0;
    }
    for _ in 0..18 {
        let mid = 0.5 * (lo + hi);
        if curve(mid) >= thresh {
            lo = mid;
        } else {
            hi = mid;
        }
    }
    let steps = crossing(|x| curve(x as f64 / UNIT as f64) >= thresh);
    assert_eq!(steps as f64 / UNIT as f64, 0.5 * (lo + hi));
}

#[test]
fn places_in_a_falling_table() {
    let key = |x: f64| order_key(x.to_bits());
    let table: Vec<u64> = [1.0, 0.8, 0.5, 0.1].iter().map(|&x| key(x)).collect();
    assert_eq!(place_in_table(&table, key(1.5)), Place::First);
    assert_eq!(place_in_table(&table, key(1.0)), Place::First);
    assert_eq!(place_in_table(&table, key(0.9)), Place::Between { i: 0 });
    assert_eq!(place_in_table(&table, key(0.8)), Place::Between { i: 0 });
    assert_eq!(place_in_table(&table, key(0.3)), Place::Between { i: 2 });
    assert_eq!(place_in_table(&table, key(0.1)), Place::Last);
    assert_eq!(place_in_table(&table, key(-3.0)), Place::Last);
    assert_eq!(place_in_table(&table[..1], key(0.3)), Place::Last);
}

#[test]
fn zones_stop_at_the_first_failure() {
    assert_eq!(hold_zone(16, |j| j != 3 && j != -2), (-1, 2));
    assert_eq!(hold_zone(4, |_| true), (-4, 4));
    assert_eq!(hold_zone(4, |j| j == 0), (0, 0));
    assert_eq!(hold_zone(0, |_| true), (0, 0));
}
