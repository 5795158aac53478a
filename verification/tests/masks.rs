use psicode_sim::finder::Cand;
use psicode_sim::mask::{mask_support, ring_offset, Mask};

#[test]
fn mask_support_matches_denominator_footprint() {
    for cand in [Cand::MArray, Cand::Chirp, Cand::Bullseye] {
        let (tw, th) = (110usize, 110usize);
        let mask = cand.mask(9);
        assert_eq!(mask, Mask::Box);
        assert_eq!(mask_support(mask, tw, th).1, tw * th);
    }
    let (tw, th) = (244usize, 244usize);
    match Cand::V1Border.mask(ring_offset(8, tw)) {
        Mask::Ring { off } => {
            let m = mask_support(Mask::Ring { off }, tw, th).1;
            assert_eq!(m, tw * th - (tw - 2 * off) * (th - 2 * off));
        }
        _ => panic!("the border must be a ring"),
    }
    let (tw, th) = (90usize, 90usize);
    match Cand::V1Corner.mask(12) {
        Mask::Corner { off } => {
            let m = mask_support(Mask::Corner { off }, tw, th).1;
            assert_eq!(m, tw * th - (tw - off) * (th - off));
        }
        _ => panic!("the corner must be a corner"),
    }
}

#[test]
fn support_is_the_mask_cell_by_cell() {
    for mask in [Mask::Box, Mask::Ring { off: 2 }, Mask::Corner { off: 3 }] {
        let (cells, n) = mask_support(mask, 7, 5);
        assert_eq!(cells.len(), 35);
        assert_eq!(cells.iter().filter(|&&c| c).count(), n);
        for y in 0..5 {
            for x in 0..7 {
                assert_eq!(cells[y * 7 + x], mask.keeps(x, y, 7, 5));
            }
        }
    }
}

#[test]
fn the_hole_is_what_the_mask_leaves_out() {
    assert_eq!(Mask::Box.hole(7, 5), None);
    for mask in [Mask::Ring { off: 2 }, Mask::Corner { off: 3 }] {
        let (x0, y0, w, h) = mask.hole(9, 8).unwrap();
        for y in 0..8 {
            for x in 0..9 {
                let inside = x >= x0 && x < x0 + w && y >= y0 && y < y0 + h;
                assert_eq!(mask.keeps(x, y, 9, 8), !inside);
            }
        }
    }
}

#[test]
fn ring_depth_stays_within_the_template() {
    assert_eq!(ring_offset(0, 10), 1);
    assert_eq!(ring_offset(3, 10), 3);
    assert_eq!(ring_offset(9, 10), 5);
}
