use ca_he_core::pareto::non_dominated_sort;

fn relation(n: usize, pairs: &[(usize, usize)]) -> Vec<Vec<bool>> {
    let mut d = vec![vec![false; n]; n];
    for &(i, j) in pairs {
        d[i][j] = true;
    }
    d
}

#[test]
fn chain_and_free_individual() {
    // 0 dominates 1 and 2, 1 dominates 2; 3 is incomparable.
    let d = relation(4, &[(0, 1), (0, 2), (1, 2)]);
    let (fronts, ranks) = non_dominated_sort(&d);
    assert_eq!(fronts, vec![vec![0, 3], vec![1], vec![2]]);
    assert_eq!(ranks, vec![0, 1, 2, 0]);
}

#[test]
fn rank_is_longest_chain_not_shortest() {
    // 4 is dominated directly by 0 and through the chain 0 > 1 > 2 > 4.
    let d = relation(5, &[(0, 1), (0, 2), (0, 4), (1, 2), (1, 4), (2, 4), (3, 4)]);
    let (fronts, ranks) = non_dominated_sort(&d);
    assert_eq!(ranks, vec![0, 1, 2, 0, 3]);
    assert_eq!(fronts, vec![vec![0, 3], vec![1], vec![2], vec![4]]);
}

#[test]
fn no_dominance_gives_one_front() {
    let d = relation(3, &[]);
    let (fronts, ranks) = non_dominated_sort(&d);
    assert_eq!(fronts, vec![vec![0, 1, 2]]);
    assert_eq!(ranks, vec![0, 0, 0]);
}

#[test]
fn empty_population_has_no_front() {
    let d: Vec<Vec<bool>> = Vec::new();
    let (fronts, ranks) = non_dominated_sort(&d);
    assert!(fronts.is_empty());
    assert!(ranks.is_empty());
}

#[test]
fn later_fronts_follow_discovery_order() {
    // 2 dominates 0; 1 dominates 3: front 1 lists 0 (released by 2) after 3
    // (released by 1, which comes first in front 0).
    let d = relation(4, &[(2, 0), (1, 3)]);
    let (fronts, ranks) = non_dominated_sort(&d);
    assert_eq!(fronts, vec![vec![1, 2], vec![3, 0]]);
    assert_eq!(ranks, vec![1, 0, 0, 1]);
}
