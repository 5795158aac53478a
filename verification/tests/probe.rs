use psicode_sim::probe::{
    center_window, neighbour_pairs, patch_at, pilot_count, ref_drives, ref_entry_at,
    ref_is_neutral, Layout, Mapping, Patch, BLACK, REF_N, REF_TILE, WHITE,
};

const GRAY_STEPS: usize = 6;

#[test]
fn ref_pattern_shape() {
    assert_eq!(ref_drives(0), [BLACK; 3]);
    assert_eq!(ref_drives(1), [WHITE; 3]);
    assert_eq!(ref_drives(10), [BLACK; 3]);
    assert_eq!(ref_drives(15), [WHITE; 3]);
    let mut lv: Vec<u8> = (0..REF_N)
        .filter(|&i| ref_is_neutral(i))
        .map(|i| ref_drives(i)[0])
        .collect();
    lv.sort();
    lv.dedup();
    assert_eq!(lv.len(), GRAY_STEPS);
}

#[test]
fn reference_drives_are_known() {
    assert_eq!(ref_drives(2), [255, 5, 5]);
    assert_eq!(ref_drives(4), [5, 5, 255]);
    assert_eq!(ref_drives(7), [255, 255, 5]);
    assert_eq!(ref_drives(12), [105, 105, 105]);
    for i in 0..REF_N {
        let d = ref_drives(i);
        if ref_is_neutral(i) {
            assert!(d[0] == d[1] && d[1] == d[2]);
        }
    }
}

#[test]
fn the_reference_block_is_mirrored() {
    let mut seen = [0usize; REF_N];
    for r in 0..REF_TILE {
        for c in 0..REF_TILE {
            let i = ref_entry_at(REF_TILE, r, c);
            seen[i] += 1;
            assert_eq!(i, ref_entry_at(REF_TILE, 7 - r, c));
            assert_eq!(i, ref_entry_at(REF_TILE, r, 7 - c));
        }
    }
    assert_eq!(seen, [4; REF_N]);
    assert_eq!(ref_entry_at(REF_TILE, 1, 6), 5);
    assert_eq!(ref_entry_at(4, 3, 2), 14);
    // A linear field sums to the same over the copies of every entry.
    let field = |r: usize, c: usize| 100 + 3 * r + 5 * c;
    let mut sums = [0usize; REF_N];
    for r in 0..REF_TILE {
        for c in 0..REF_TILE {
            sums[ref_entry_at(REF_TILE, r, c)] += field(r, c);
        }
    }
    assert!(sums.iter().all(|&s| s == sums[0]));
}

#[test]
fn windows_stay_centred() {
    assert_eq!(center_window(32, 2, 4), (8, 16));
    assert_eq!(center_window(6, 3, 4), (1, 4));
    assert_eq!(center_window(3, 2, 4), (0, 3));
    assert_eq!(center_window(9, 2, 1), (2, 4));
}

#[test]
fn layout_of_the_canvas() {
    let l = Layout::new(16, 12, 8, 20);
    assert_eq!((l.margin, l.r_cell, l.r_tile), (20, 32, 8));
    assert_eq!(l.ref_size, 8 * 32 + 40);
    assert_eq!(l.pay_size, 16 * 12 + 40);
    assert_eq!(l.canvas_w, 296);
    assert_eq!(l.canvas_h, 296 + 232 - 20);
    assert_eq!(l.ref_off, (0, 0));
    assert_eq!(l.pay_off, (32, 276));
}

#[test]
fn pilots_interiors_and_edges() {
    assert_eq!(patch_at(Mapping::M1P, 4, 4, 8, 16), Patch::Pilot);
    assert_eq!(patch_at(Mapping::M1, 4, 4, 8, 16), Patch::Interior);
    assert_eq!(patch_at(Mapping::M1P, 4, 5, 8, 16), Patch::Interior);
    assert_eq!(patch_at(Mapping::M1P, 4, 15, 8, 16), Patch::Edge);
    assert_eq!(patch_at(Mapping::M1P, 0, 0, 0, 16), Patch::Edge);
    assert_eq!(pilot_count(Mapping::M1P, 4, 16), 16);
    assert_eq!(pilot_count(Mapping::M2, 4, 16), 0);
    assert_eq!(pilot_count(Mapping::M1P, 5, 16), 16);
}

#[test]
fn pairs_need_both_neighbours() {
    let all = vec![true; 4];
    assert_eq!(neighbour_pairs(&all, 2), vec![(0, 1), (0, 2), (1, 3), (2, 3)]);
    let hole = vec![true, false, true, true];
    assert_eq!(neighbour_pairs(&hole, 2), vec![(0, 2), (2, 3)]);
    // A row does not run on into the next.
    let ends = vec![false, true, true, false];
    assert_eq!(neighbour_pairs(&ends, 2), vec![]);
}

#[test]
fn mappings() {
    assert_eq!(Mapping::all().len(), 4);
    assert_eq!(Mapping::all_with_pilots()[1], Mapping::M1P);
    assert_eq!(Mapping::M1.name(), "M1 spec§5.1");
    assert_eq!(Mapping::M2.name(), "M2 const-lum");
    assert_eq!(Mapping::M1P.name(), "M1' spec§5.1+pilots");
    assert!(!Mapping::M3.has_im() && Mapping::M4.has_im());
    assert!(Mapping::M4.apodized() && !Mapping::M2.apodized());
}
