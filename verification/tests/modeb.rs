use psicode_sim::modeb::{
    draw_signs, group_errors, mode_index, mode_list, order_groups, rarer_than, reliable_cells,
    role_of, sign_errors, usable_bits, winner, Role, Winner,
};
use psicode_sim::rng::Rng;

#[test]
fn modes_up_to_the_fourth_order() {
    let list = mode_list();
    assert_eq!(list.len(), 15);
    assert_eq!(list[0], (0, 0));
    for (k, &(m, n)) in list.iter().enumerate() {
        assert!(m + n <= 4);
        assert_eq!(mode_index(&list, m, n), Some(k));
    }
    assert_eq!(mode_index(&list, 5, 0), None);
    let count = |r: Role| list.iter().filter(|&&(m, n)| role_of(m, n) == r).count();
    assert_eq!(count(Role::Pilot) + count(Role::Probe) + count(Role::Data), 15);
    assert_eq!(role_of(0, 0), Role::Pilot);
    assert_eq!(role_of(4, 0), Role::Data);
}

#[test]
fn groups_by_order() {
    let list = mode_list();
    let groups = order_groups(&list);
    let sizes: Vec<usize> = groups.iter().map(|g| g.len()).collect();
    assert_eq!(sizes, vec![1, 2, 3, 4, 5]);
    for (o, g) in groups.iter().enumerate() {
        for &k in g {
            assert_eq!((list[k].0 + list[k].1) as usize, o);
        }
    }
}

#[test]
fn error_rates_are_compared_exactly() {
    assert!(rarer_than(0, 1, 100));
    assert!(!rarer_than(1, 100, 100));
    assert!(rarer_than(1, 101, 100));
    assert!(!rarer_than(0, 0, 100));
    assert_eq!(group_errors(&[0, 2], &[1, 10, 100], &[5, 6, 7]), (101, 12));
    assert_eq!(group_errors(&[], &[1], &[1]), (0, 0));
}

#[test]
fn reliable_cells_fail_less_than_once_in_a_hundred() {
    // Cell 0 never fails, cell 1 once in 101 trials, cell 2 twice.
    let mut trials = vec![vec![true; 3]; 101];
    trials[5][1] = false;
    trials[6][2] = false;
    trials[7][2] = false;
    assert_eq!(reliable_cells(&trials, 3), 2);
    assert_eq!(reliable_cells(&trials[..100].to_vec(), 3), 1);
}

#[test]
fn winners() {
    assert_eq!(winner(3, 2), Winner::Modes);
    assert_eq!(winner(2, 2), Winner::Tie);
    assert_eq!(winner(1, 2), Winner::Cells);
}

#[test]
fn signs_are_the_low_bits_of_successive_words() {
    let list = mode_list();
    for uniform in [false, true] {
        let mut rng = Rng::new(77);
        let mut words = Rng::new(77);
        let drawn = draw_signs(&list, uniform, &mut rng);
        assert_eq!(drawn.len(), 15);
        for (k, &(m, n)) in list.iter().enumerate() {
            if uniform || role_of(m, n) == Role::Data {
                let word = words.next_u64();
                assert_eq!(drawn[k], Some((word & 1 == 1, word & 2 == 2)));
            } else {
                assert_eq!(drawn[k], None);
            }
        }
        // Nothing more was drawn.
        assert_eq!(rng.next_u64(), words.next_u64());
    }
}

#[test]
fn wrong_signs_are_counted() {
    assert_eq!(sign_errors((true, false), (true, false)), 0);
    assert_eq!(sign_errors((true, false), (false, false)), 1);
    assert_eq!(sign_errors((true, false), (true, true)), 1);
    assert_eq!(sign_errors((true, false), (false, true)), 2);
}

#[test]
fn usable_modes_carry_two_bits_each() {
    let list = mode_list();
    // Without an error the twelve modes for data are usable.
    assert_eq!(usable_bits(&list, &[0; 15], &[40; 15]), 24);
    // A mode that sent nothing gets nothing wrong.
    assert_eq!(usable_bits(&list, &[0; 15], &[0; 15]), 24);
    let data = mode_index(&list, 1, 1).unwrap();
    let pilot = mode_index(&list, 0, 0).unwrap();
    let mut errors = [0usize; 15];
    errors[data] = 1;
    errors[pilot] = 40;
    assert_eq!(usable_bits(&list, &errors, &[100; 15]), 22);
    assert_eq!(usable_bits(&list, &errors, &[101; 15]), 24);
}
