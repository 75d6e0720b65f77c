use corewar::mars::Score;
use corewar::tournament::{points_order, round_robin, round_robin_points, round_robin_seed};

#[test]
fn a_round_robin_plays_each_pair_once_in_order() {
    assert_eq!(round_robin(4), vec![(0, 1), (0, 2), (0, 3), (1, 2), (1, 3), (2, 3)]);
    assert_eq!(round_robin(1), vec![]);
    assert_eq!(round_robin(0), vec![]);
}

#[test]
fn round_robin_seeds_step_by_997() {
    assert_eq!(round_robin_seed(0, 100), 0);
    assert_eq!(round_robin_seed(1, 100), 997);
    assert_eq!(round_robin_seed(8, 100), 7976 % 7801);
    assert_eq!(round_robin_seed(3, 0), 100 + 2991);
}

#[test]
fn points_are_three_a_win_and_one_a_tie() {
    let pairs = round_robin(3);
    let results = vec![
        Score { w1: 2, w2: 1, ties: 1 },
        Score { w1: 0, w2: 4, ties: 0 },
        Score { w1: 1, w2: 1, ties: 2 },
    ];
    let p = round_robin_points(3, &pairs, &results).unwrap();
    assert_eq!(p, vec![6 + 1, 3 + 1 + 3 + 2, 12 + 3 + 2]);
    assert_eq!(points_order(&p), vec![2, 1, 0]);
    // Fewer results than pairs: only the matches with a result count.
    assert_eq!(round_robin_points(3, &pairs, &results[..1]).unwrap(), vec![7, 4, 0]);
}

#[test]
fn equal_points_keep_the_entrants_order() {
    assert_eq!(points_order(&vec![5, 9, 5, 9, 0]), vec![1, 3, 0, 2, 4]);
    assert_eq!(points_order(&vec![]), Vec::<usize>::new());
}

#[test]
fn points_add_up_in_64_bits() {
    let pairs = vec![(0usize, 1usize); 3];
    let big = Score { w1: u32::MAX, w2: 0, ties: u32::MAX };
    let results = vec![big; 3];
    assert_eq!(round_robin_points(2, &pairs, &results).unwrap()[0], 12 * u32::MAX as u64);
    assert_eq!(round_robin_points(2, &pairs, &results).unwrap()[1], 3 * u32::MAX as u64);
}
