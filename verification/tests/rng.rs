use psicode_sim::rng::{seed_for, splitmix64, Rng, SEED_SPAN};

#[test]
fn same_seed_same_sequence() {
    let mut a = Rng::new(0xDEAD_BEEF);
    let mut b = Rng::new(0xDEAD_BEEF);
    for _ in 0..1000 {
        assert_eq!(a.next_u64(), b.next_u64());
    }
}

#[test]
fn different_seeds_differ() {
    let mut a = Rng::new(1);
    let mut b = Rng::new(2);
    let mut diff = 0;
    for _ in 0..1000 {
        if a.next_u64() != b.next_u64() {
            diff += 1;
        }
    }
    assert!(diff > 990, "sequences too similar: {diff}/1000 differ");
}

#[test]
fn seed_for_is_deterministic_and_distinct() {
    assert_eq!(seed_for(3, 7), seed_for(3, 7));
    assert_ne!(seed_for(3, 7), seed_for(7, 3));
    assert_ne!(seed_for(0, 0), seed_for(0, 1));
}

#[test]
fn uniform_below_stays_in_range() {
    let mut r = Rng::new(99);
    for _ in 0..10_000 {
        let v = r.next_u32_below(32);
        assert!(v < 32);
    }
}

#[test]
fn streams_from_different_states_differ_at_every_word() {
    let mut a = Rng::new(1);
    let mut b = Rng::new(2);
    for _ in 0..1000 {
        assert_ne!(a.next_u64(), b.next_u64());
    }
}

#[test]
fn zero_seed_is_replaced() {
    let mut zero = Rng::new(0);
    let mut golden = Rng::new(0x9E37_79B9_7F4A_7C15);
    for _ in 0..10 {
        assert_eq!(zero.next_u64(), golden.next_u64());
    }
}

#[test]
fn known_words() {
    assert_eq!(splitmix64(0), 0xE220_A839_7B1D_CDAF);
    let mut r = Rng::new(1);
    assert_eq!(r.next_u64(), 5180492295206395165);
    let mut r = Rng::new(1);
    assert_eq!(r.next_u53(), 5180492295206395165 >> 11);
}

#[test]
fn below_zero_draws_nothing() {
    let mut a = Rng::new(5);
    let mut b = Rng::new(5);
    assert_eq!(a.next_u32_below(0), 0);
    assert_eq!(a.next_u64(), b.next_u64());
}

#[test]
fn seeds_collide_just_past_the_span() {
    assert_eq!(SEED_SPAN, 2_068_255_881);
    assert_eq!(seed_for(2_068_255_881, 0), seed_for(0, 493_692_433));
    assert_ne!(seed_for(2_068_255_880, 0), seed_for(0, 493_692_433));
}
