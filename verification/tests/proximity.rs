use stria::search::proximity::{proximity_bonus, proximity_mult};

/// The bonus that the gains of the pairs come to.
fn bonus(line_sets: &[&[usize]], max_gap: usize) -> f64 {
    let gains = proximity_bonus(line_sets, max_gap);
    if gains.is_empty() {
        return 0.0;
    }
    let mut total = 0.0;
    for gain in &gains {
        if *gain > 0 {
            total += *gain as f64 / max_gap as f64;
        }
    }
    total / gains.len() as f64 * 0.5
}

#[test]
fn empty_sets() {
    let s: Vec<&[usize]> = vec![];
    assert!((bonus(&s, 10) - 0.0).abs() < 1e-10);
}

#[test]
fn single_set() {
    let s = vec![&[1usize, 5, 10][..]];
    assert!((bonus(&s, 10) - 0.0).abs() < 1e-10);
}

#[test]
fn exact_same_line() {
    let s = vec![&[5usize][..], &[5usize][..]];
    let b = bonus(&s, 10);
    let expected = (10.0 - 0.0 + 1.0) / 10.0;
    assert!((b - expected * 0.5).abs() < 1e-10, "got {}", b);
}

#[test]
fn gap_within_bounds() {
    let s = vec![&[5usize][..], &[8usize][..]];
    let b = bonus(&s, 10);
    assert!(b > 0.0, "within max_gap should get bonus: {}", b);
}

#[test]
fn gap_exceeds_max() {
    let s = vec![&[5usize][..], &[30usize][..]];
    let b = bonus(&s, 10);
    assert!((b - 0.0).abs() < 1e-10, "exceeds max_gap should get zero: {}", b);
}

#[test]
fn multiple_sets_adjacent() {
    let s = vec![&[1usize][..], &[2usize][..], &[3usize][..]];
    let b = bonus(&s, 10);
    assert!(b > 0.0, "adjacent sets should get bonus: {}", b);
}

#[test]
fn three_sets_one_far() {
    let s = vec![&[1usize][..], &[2usize][..], &[100usize][..]];
    let b = bonus(&s, 10);
    assert!(b < 0.3, "far set should reduce average: {}", b);
}

#[test]
fn zero_gap_max() {
    let s = vec![&[5usize][..], &[5usize][..]];
    let b = bonus(&s, 0);
    // max_gap=0: only exact same line gets bonus
    assert!(b > 0.0, "same line at zero gap should get bonus: {}", b);
}

#[test]
fn multiple_elements_per_set() {
    let s = vec![&[1usize, 20, 50][..], &[3usize, 22, 55][..]];
    let b = bonus(&s, 10);
    assert!(b > 0.0, "should find min distance (gap=2): {}", b);
}

#[test]
fn gains_stand_in_order_of_the_pairs() {
    let s = vec![&[1usize][..], &[2usize][..], &[100usize][..]];
    assert_eq!(proximity_bonus(&s, 10), vec![10, 0, 0]);
    let t = vec![&[1usize][..], &[5usize][..], &[9usize][..], &[][..]];
    assert_eq!(proximity_bonus(&t, 10), vec![7, 3, 0, 7, 0, 0]);
}

#[test]
fn gain_is_the_same_both_ways_round() {
    let a = vec![&[3usize, 40][..], &[10usize, 44][..]];
    let b = vec![&[10usize, 44][..], &[3usize, 40][..]];
    assert_eq!(proximity_bonus(&a, 10), proximity_bonus(&b, 10));
    assert_eq!(proximity_bonus(&a, 10), vec![7]);
}

#[test]
fn the_order_of_terms_and_lines_makes_no_difference() {
    let sets = [&[1usize, 30][..], &[5usize][..], &[9usize, 28][..], &[][..]];
    let mut expected = proximity_bonus(&sets, 10);
    expected.sort();
    for order in [[1, 0, 2, 3], [3, 2, 1, 0], [2, 3, 0, 1]] {
        let mut gains = proximity_bonus(&order.map(|i: usize| sets[i]), 10);
        gains.sort();
        assert_eq!(gains, expected);
    }
    let turned = [&[30usize, 1, 1][..], &[5usize][..], &[28usize, 9][..], &[][..]];
    assert_eq!(proximity_bonus(&turned, 10), proximity_bonus(&sets, 10));
    assert!(expected.iter().all(|g| *g <= 11));
    assert!(expected.iter().any(|g| *g > 0));
}

#[test]
fn largest_gap_takes_lines_apart() {
    let s = vec![&[1usize][..], &[3usize][..]];
    assert_eq!(proximity_bonus(&s, usize::MAX), vec![usize::MAX - 1]);
}

#[test]
fn mult_takes_the_closest_pair() {
    assert_eq!(proximity_mult(&vec![], 10), None);
    assert_eq!(proximity_mult(&vec![vec![1, 2]], 10), None);
    assert_eq!(proximity_mult(&vec![vec![1, 30], vec![33]], 10), Some(8));
    assert_eq!(proximity_mult(&vec![vec![1], vec![12]], 10), None);
    assert_eq!(proximity_mult(&vec![vec![1], vec![11]], 10), Some(1));
    assert_eq!(proximity_mult(&vec![vec![5], vec![90], vec![5]], 10), Some(11));
    assert_eq!(proximity_mult(&vec![vec![], vec![]], 10), None);
    assert_eq!(proximity_mult(&vec![vec![-3], vec![4]], 10), Some(4));
    assert_eq!(proximity_mult(&vec![vec![5], vec![5]], -1), None);
}
