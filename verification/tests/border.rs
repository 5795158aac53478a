use psicode_sim::border::{
    beacon_cells, border_cells, has_beacons, render_border, Level, Sides, Variant, LAST,
};

fn sides() -> Sides {
    let bits = |k: usize| (0..61usize).map(|i| (i * i * k + i) % 7 < 3).collect::<Vec<bool>>();
    Sides { top: bits(1), right: bits(2), bottom: bits(4), left: bits(5) }
}

fn level(white: bool) -> Level {
    if white {
        Level::White
    } else {
        Level::Black
    }
}

#[test]
fn the_outer_ring_shows_the_sides() {
    let s = sides();
    let img = border_cells(Variant::RingInverted, &s);
    assert_eq!((img.w, img.h), (61, 61));
    for i in 0..61 {
        assert_eq!(img.at(i, 0), level(s.top[i]), "top {i}");
    }
    // Each side runs on clockwise. Corners belong to the top, then the right,
    // then the bottom.
    for i in 1..61 {
        assert_eq!(img.at(LAST, i), level(s.right[i]), "right {i}");
    }
    for i in 0..60 {
        assert_eq!(img.at(i, LAST), level(s.bottom[LAST - i]), "bottom {i}");
    }
    for i in 1..60 {
        assert_eq!(img.at(0, i), level(s.left[LAST - i]), "left {i}");
    }
}

#[test]
fn the_inner_ring_inverts_or_repeats() {
    let s = sides();
    let inv = border_cells(Variant::RingInverted, &s);
    let rep = border_cells(Variant::RingRepeated, &s);
    for i in 2..59 {
        assert_ne!(inv.at(i, 1), inv.at(i, 0));
        assert_eq!(rep.at(i, 1), rep.at(i, 0));
        assert_ne!(inv.at(i, 59), inv.at(i, 60));
        assert_ne!(inv.at(1, i), inv.at(0, i));
        assert_ne!(inv.at(59, i), inv.at(60, i));
    }
    assert_eq!(inv.at(30, 30), Level::Grey);
    assert_eq!(inv.at(2, 2), Level::Grey);
}

#[test]
fn solid_rings_and_beacons() {
    let s = sides();
    let solid = border_cells(Variant::SolidEdge, &s);
    assert_eq!(solid.at(7, 0), Level::White);
    assert_eq!(solid.at(7, 1), Level::Black);
    assert_eq!(solid.at(7, 2), Level::Grey);
    let none = border_cells(Variant::BeaconsOnly, &s);
    assert!(none.data.iter().all(|&l| l == Level::Grey));
    assert!(has_beacons(Variant::BeaconsOnly) && has_beacons(Variant::RingBeacons));
    assert!(!has_beacons(Variant::RingInverted));
    assert_eq!(beacon_cells(10), [(8, 8), (72, 8), (8, 72), (72, 72)]);
    assert_eq!(beacon_cells(0)[0], (-2, -2));
}

#[test]
fn rendering_enlarges_and_pads() {
    let s = sides();
    let img = render_border(Variant::RingInverted, &s, 2, 3);
    assert_eq!((img.w, img.h), (134, 134));
    assert_eq!(img.at(5, 5), Level::Grey);
    for i in 0..61 {
        assert_eq!(img.at(6 + 2 * i, 6), level(s.top[i]));
        assert_eq!(img.at(7 + 2 * i, 7), level(s.top[i]));
    }
}
