use psicode_sim::l3live::{
    corrupt_clustered, corrupt_iid, cover_cells, cur_blocks, filler_symbols, flip_cell,
    frames_per_pass, ideal_bytes, receive_voted, v1_blocks, vote, Corruption,
};
use psicode_sim::rng::Rng;

const HALF: u64 = 1 << 52;

#[test]
fn capacities() {
    assert_eq!(ideal_bytes(1), 391);
    assert_eq!(ideal_bytes(6), 2351);
    assert_eq!(frames_per_pass(1), 94);
    assert_eq!(frames_per_pass(2), 47);
    // 94 / 4 = 23.5 rounds up, 94 / 3 down.
    assert_eq!(frames_per_pass(4), 24);
    assert_eq!(frames_per_pass(3), 31);
    assert_eq!(frames_per_pass(1000), 1);
}

#[test]
fn blocks_and_their_cover() {
    let rows = [7usize, 7, 7, 7, 7, 7, 7, 6];
    let blocks = cur_blocks(1, &rows);
    assert_eq!(blocks[0], (399, 47));
    assert_eq!(blocks[7], (342, 40));
    assert_eq!(cover_cells(&blocks, 12), 399);
    assert_eq!(cover_cells(&blocks, 48), 798);
    assert_eq!(cover_cells(&blocks, 10_000), 3135);
    assert_eq!(cover_cells(&blocks, 0), 399);
    assert_eq!(cover_cells(&[], 5), 0);
    assert_eq!(v1_blocks(&[(2, 10), (3, 21)]), vec![(114, 10), (171, 21)]);
}

#[test]
fn a_flip_always_changes_the_cell() {
    let mut rng = Rng::new(3);
    for alpha in [2u32, 4, 8, 32] {
        for start in 0..alpha as u8 {
            let mut c = start;
            flip_cell(&mut c, alpha, &mut rng);
            assert_ne!(c, start);
            assert!((c as u32) < alpha);
        }
    }
}

#[test]
fn independent_errors_are_known() {
    let mut cells = vec![0u8; 12];
    let mut rng = Rng::new(42);
    corrupt_iid(&mut cells, HALF, 2, &mut rng);
    assert_eq!(cells, vec![2, 0, 0, 0, 0, 3, 2, 3, 0, 2, 0, 1]);
    assert_eq!(rng.next_u64(), 18393948652741045357);
    let before = cells.clone();
    corrupt_iid(&mut cells, 0, 2, &mut rng);
    assert_eq!(cells, before);
    corrupt_iid(&mut cells, 1 << 53, 2, &mut rng);
    assert!(cells.iter().zip(&before).all(|(a, b)| a != b));
}

#[test]
fn clustered_errors_come_in_bursts() {
    let mut cells = vec![0u8; 40];
    let mut rng = Rng::new(42);
    corrupt_clustered(&mut cells, 6, 1, &mut rng);
    let mut expected = vec![0u8; 40];
    for c in expected.iter_mut().take(21).skip(15) {
        *c = 1;
    }
    assert_eq!(cells, expected);
    assert_eq!(rng.next_u64(), 14100574548354140678);
    let mut untouched = vec![0u8; 40];
    corrupt_clustered(&mut untouched, 0, 1, &mut rng);
    assert_eq!(untouched, vec![0u8; 40]);
    // At least the target, unless the frame is full, and at most seven more.
    for seed in 1..50u64 {
        let mut cells = vec![0u8; 300];
        corrupt_clustered(&mut cells, 20, 3, &mut Rng::new(seed));
        let n = cells.iter().filter(|&&c| c != 0).count();
        assert!((20..=27).contains(&n), "seed {seed}: {n}");
    }
}

#[test]
fn votes_follow_the_majority() {
    let passes = vec![vec![0u8, 1, 2, 3], vec![1, 1, 2, 0], vec![1, 0, 2, 1]];
    // The last cell is a tie, which goes to the first pass.
    assert_eq!(vote(&passes, 2), vec![1, 1, 2, 3]);
    assert_eq!(vote(&vec![vec![2u8, 3]], 2), vec![2, 3]);
    // A tie that the first pass has no part in goes to the smallest value.
    let split = vec![vec![3u8], vec![1], vec![1], vec![0], vec![0]];
    assert_eq!(vote(&split, 2), vec![0]);
}

#[test]
fn voting_corrects_minority_errors() {
    let clean = vec![1u8; 400];
    let noise = Corruption::Iid { threshold: HALF / 8 };
    let mut rng = Rng::new(77);
    let once = receive_voted(&clean, 1, noise, 2, &mut rng);
    let wrong_once = once.iter().filter(|&&c| c != 1).count();
    let mut rng = Rng::new(77);
    let nine = receive_voted(&clean, 9, noise, 2, &mut rng);
    let wrong_nine = nine.iter().filter(|&&c| c != 1).count();
    assert!(wrong_once > 0);
    assert_eq!(wrong_nine, 0);
    // A single pass is the channel itself.
    let mut direct = clean.clone();
    corrupt_iid(&mut direct, HALF / 8, 2, &mut Rng::new(77));
    assert_eq!(once, direct);
    let none = receive_voted(&clean, 0, Corruption::Clustered { target: 0 }, 2, &mut rng);
    assert_eq!(none, clean);
}

#[test]
fn fillers() {
    assert_eq!(filler_symbols(15, 12), vec![7, 38, 69]);
    assert_eq!(filler_symbols(12, 12), Vec::<u8>::new());
    assert_eq!(filler_symbols(3, 12), Vec::<u8>::new());
    let long = filler_symbols(24, 12);
    assert_eq!(long[9], (9 * 31 + 7 - 256) as u8);
}
