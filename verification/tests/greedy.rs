use correlation_clustering::greedy_cc::is_votable;
use correlation_clustering::grid::Grid;
use correlation_clustering::partition::{is_complete, lists_agree};
use correlation_clustering::similarity::{ClusterError, LogitWeights, Similarity};
use correlation_clustering::{cc_vote_additive, cc_vote_logarithmic};

const UNIT: f64 = 1_000_000_000.0;

fn fixed(p: f64) -> u32 {
    (p * UNIT).round() as u32
}

fn logit(p: f64) -> i64 {
    ((p.ln() - (1.0 - p).ln()) * UNIT).round() as i64
}

fn tables(width: usize, height: usize, p: &dyn Fn(usize, usize) -> f64) -> (Similarity, LogitWeights) {
    let count = width * height;
    let mut scores = Vec::new();
    let mut values = Vec::new();
    for a in 0..count {
        for b in 0..count {
            scores.push(fixed(p(a, b)));
            values.push(logit(p(a, b)));
        }
    }
    (
        Similarity::new(width, height, scores).unwrap(),
        LogitWeights::new(width, height, values).unwrap(),
    )
}

fn two_pairs(a: usize, b: usize) -> f64 {
    if a == b {
        0.5
    } else if a / 2 == b / 2 {
        0.9
    } else {
        0.1
    }
}

fn ids_of(grid: &Grid) -> Vec<usize> {
    let (width, height) = grid.dim();
    let mut ids = Vec::new();
    for x in 0..width {
        for y in 0..height {
            ids.push(grid.get(x, y).unwrap());
        }
    }
    ids
}

fn grid_of(width: usize, height: usize, ids: &[usize]) -> Grid {
    let mut grid = Grid::zeros(width, height).unwrap();
    for x in 0..width {
        for y in 0..height {
            assert!(grid.set(x, y, ids[x * height + y]));
        }
    }
    grid
}

#[test]
fn greedy_finds_the_two_natural_clusters() {
    let (_, logits) = tables(2, 2, &two_pairs);
    let mut grid = Grid::zeros(2, 2).unwrap();
    let mut members = Vec::new();
    let order = vec![(0, 0), (0, 1), (1, 0), (1, 1)];
    assert_eq!(cc_vote_logarithmic(&mut grid, &mut members, &logits, &order, 4), Ok(()));
    assert_eq!(members, vec![vec![(0, 0), (0, 1)], vec![(1, 0), (1, 1)]]);
    assert_eq!(ids_of(&grid), vec![0, 0, 1, 1]);
    assert!(is_complete(&grid, &members));
}

#[test]
fn greedy_numbers_clusters_in_the_order_they_open() {
    let (_, logits) = tables(2, 2, &two_pairs);
    let mut grid = Grid::zeros(2, 2).unwrap();
    let mut members = Vec::new();
    let order = vec![(1, 1), (0, 0), (1, 0), (0, 1)];
    assert_eq!(cc_vote_logarithmic(&mut grid, &mut members, &logits, &order, 4), Ok(()));
    assert_eq!(members, vec![vec![(1, 1), (1, 0)], vec![(0, 0), (0, 1)]]);
    assert_eq!(ids_of(&grid), vec![1, 1, 0, 0]);
}

#[test]
fn greedy_gives_the_same_partition_for_the_same_order() {
    let (sim, logits) = tables(2, 2, &two_pairs);
    let order = vec![(1, 0), (0, 1), (1, 1), (0, 0)];
    let mut first_grid = Grid::zeros(2, 2).unwrap();
    let mut first = Vec::new();
    let mut second_grid = Grid::zeros(2, 2).unwrap();
    let mut second = Vec::new();
    assert_eq!(cc_vote_logarithmic(&mut first_grid, &mut first, &logits, &order, 3), Ok(()));
    assert_eq!(cc_vote_logarithmic(&mut second_grid, &mut second, &logits, &order, 3), Ok(()));
    assert_eq!(first, second);
    assert_eq!(ids_of(&first_grid), ids_of(&second_grid));
    let mut third_grid = Grid::zeros(2, 2).unwrap();
    let mut third = Vec::new();
    let mut fourth_grid = Grid::zeros(2, 2).unwrap();
    let mut fourth = Vec::new();
    assert_eq!(cc_vote_additive(&mut third_grid, &mut third, &sim, &order, 3), Ok(()));
    assert_eq!(cc_vote_additive(&mut fourth_grid, &mut fourth, &sim, &order, 3), Ok(()));
    assert_eq!(third, fourth);
    assert_eq!(ids_of(&third_grid), ids_of(&fourth_grid));
}

#[test]
fn greedy_never_opens_more_clusters_than_the_cap() {
    // Nothing is alike: without a cap every element would be alone.
    let (sim, logits) = tables(3, 2, &|a, b| if a == b { 0.5 } else { 0.2 });
    let order = vec![(2, 1), (0, 0), (1, 1), (0, 1), (2, 0), (1, 0)];
    for cap in 1..8usize {
        let mut grid = Grid::zeros(3, 2).unwrap();
        let mut members = Vec::new();
        assert_eq!(cc_vote_logarithmic(&mut grid, &mut members, &logits, &order, cap), Ok(()));
        assert_eq!(members.len(), cap.min(6));
        assert!(is_complete(&grid, &members));
        let mut grid = Grid::zeros(3, 2).unwrap();
        let mut members = Vec::new();
        assert_eq!(cc_vote_additive(&mut grid, &mut members, &sim, &order, cap), Ok(()));
        assert_eq!(members.len(), cap.min(6));
        assert!(is_complete(&grid, &members));
    }
}

#[test]
fn greedy_places_by_force_once_the_cap_is_reached() {
    let (_, logits) = tables(2, 2, &two_pairs);
    let mut grid = Grid::zeros(2, 2).unwrap();
    let mut members = Vec::new();
    let order = vec![(0, 0), (1, 0), (0, 1), (1, 1)];
    assert_eq!(cc_vote_logarithmic(&mut grid, &mut members, &logits, &order, 1), Ok(()));
    assert_eq!(members, vec![vec![(0, 0), (1, 0), (0, 1), (1, 1)]]);
    assert_eq!(ids_of(&grid), vec![0, 0, 0, 0]);
}

#[test]
fn greedy_breaks_ties_by_the_lowest_id() {
    // Element 2 is as close to element 0 as to element 1, which are apart.
    let (_, logits) = tables(3, 1, &|a, b| {
        if a == b {
            0.5
        } else if a + b == 1 {
            0.1
        } else {
            0.8
        }
    });
    let mut grid = Grid::zeros(3, 1).unwrap();
    let mut members = Vec::new();
    let order = vec![(1, 0), (0, 0), (2, 0)];
    assert_eq!(cc_vote_logarithmic(&mut grid, &mut members, &logits, &order, 3), Ok(()));
    assert_eq!(members, vec![vec![(1, 0), (2, 0)], vec![(0, 0)]]);
}

#[test]
fn greedy_opens_a_cluster_at_quality_zero() {
    // The weights of element 2 with the two members of the cluster cancel.
    let values = vec![0, 5, 7, 5, 0, -7, 7, -7, 0];
    let logits = LogitWeights::new(3, 1, values).unwrap();
    let mut grid = Grid::zeros(3, 1).unwrap();
    let mut members = Vec::new();
    let order = vec![(0, 0), (1, 0), (2, 0)];
    assert_eq!(cc_vote_logarithmic(&mut grid, &mut members, &logits, &order, 2), Ok(()));
    assert_eq!(members, vec![vec![(0, 0), (1, 0)], vec![(2, 0)]]);
}

#[test]
fn greedy_sums_the_weights_over_the_members() {
    // Element 2 is drawn to element 0 by 3 and pushed from element 1 by 2.
    let values = vec![0, 1, 0, 1, 0, 0, 3, -2, 0];
    let logits = LogitWeights::new(3, 1, values).unwrap();
    let mut grid = Grid::zeros(3, 1).unwrap();
    let mut members = Vec::new();
    let order = vec![(0, 0), (1, 0), (2, 0)];
    assert_eq!(cc_vote_logarithmic(&mut grid, &mut members, &logits, &order, 3), Ok(()));
    assert_eq!(members, vec![vec![(0, 0), (1, 0), (2, 0)]]);
    // The other way round the sum is negative.
    let values = vec![0, 1, 0, 1, 0, 0, 2, -3, 0];
    let logits = LogitWeights::new(3, 1, values).unwrap();
    let mut grid = Grid::zeros(3, 1).unwrap();
    let mut members = Vec::new();
    assert_eq!(cc_vote_logarithmic(&mut grid, &mut members, &logits, &order, 3), Ok(()));
    assert_eq!(members, vec![vec![(0, 0), (1, 0)], vec![(2, 0)]]);
}

#[test]
fn greedy_uses_the_weight_of_the_voter_with_the_member() {
    // Only the direction from the voter to the member counts.
    let values = vec![0, -9, 4, 0];
    let logits = LogitWeights::new(2, 1, values).unwrap();
    let mut grid = Grid::zeros(2, 1).unwrap();
    let mut members = Vec::new();
    assert_eq!(
        cc_vote_logarithmic(&mut grid, &mut members, &logits, &vec![(0, 0), (1, 0)], 2),
        Ok(())
    );
    assert_eq!(members, vec![vec![(0, 0), (1, 0)]]);
    let mut grid = Grid::zeros(2, 1).unwrap();
    let mut members = Vec::new();
    assert_eq!(
        cc_vote_logarithmic(&mut grid, &mut members, &logits, &vec![(1, 0), (0, 0)], 2),
        Ok(())
    );
    assert_eq!(members, vec![vec![(1, 0)], vec![(0, 0)]]);
}

#[test]
fn the_two_weightings_can_disagree() {
    // Element 4 is very close to element 0 and somewhat apart from 1, 2, 3.
    let p = |a: usize, b: usize| -> f64 {
        if a == b {
            0.5
        } else if a + b == 4 && a * b == 0 {
            0.99
        } else if a == 4 || b == 4 {
            0.3
        } else {
            0.9
        }
    };
    let (sim, logits) = tables(5, 1, &p);
    let start = vec![vec![(0, 0), (1, 0), (2, 0), (3, 0)]];
    let order = vec![(4, 0)];

    let mut grid = grid_of(5, 1, &[0, 0, 0, 0, 9]);
    let mut members = start.clone();
    assert!(lists_agree(&grid, &members));
    assert!(is_votable(&members, &order, 5, 1));
    assert_eq!(cc_vote_logarithmic(&mut grid, &mut members, &logits, &order, 2), Ok(()));
    assert_eq!(members, vec![vec![(0, 0), (1, 0), (2, 0), (3, 0), (4, 0)]]);
    assert_eq!(ids_of(&grid), vec![0, 0, 0, 0, 0]);

    let mut grid = grid_of(5, 1, &[0, 0, 0, 0, 9]);
    let mut members = start.clone();
    assert_eq!(cc_vote_additive(&mut grid, &mut members, &sim, &order, 2), Ok(()));
    assert_eq!(members, vec![vec![(0, 0), (1, 0), (2, 0), (3, 0)], vec![(4, 0)]]);
    assert_eq!(ids_of(&grid), vec![0, 0, 0, 0, 1]);
}

#[test]
fn additive_weight_is_twice_the_similarity_less_one() {
    // 0.6 and 0.4 cancel exactly; a hair more on one side decides.
    let scores = vec![1, 1, 1, 1, 1, 1, 600_000_000, 400_000_000, 1];
    let sim = Similarity::new(3, 1, scores).unwrap();
    let mut grid = grid_of(3, 1, &[0, 0, 5]);
    let mut members = vec![vec![(0, 0), (1, 0)]];
    assert_eq!(cc_vote_additive(&mut grid, &mut members, &sim, &vec![(2, 0)], 2), Ok(()));
    assert_eq!(members, vec![vec![(0, 0), (1, 0)], vec![(2, 0)]]);

    let scores = vec![1, 1, 1, 1, 1, 1, 600_000_001, 400_000_000, 1];
    let sim = Similarity::new(3, 1, scores).unwrap();
    let mut grid = grid_of(3, 1, &[0, 0, 5]);
    let mut members = vec![vec![(0, 0), (1, 0)]];
    assert_eq!(cc_vote_additive(&mut grid, &mut members, &sim, &vec![(2, 0)], 2), Ok(()));
    assert_eq!(members, vec![vec![(0, 0), (1, 0), (2, 0)]]);
}

#[test]
fn greedy_passes_over_clusters_without_members() {
    let (_, logits) = tables(2, 1, &|a, b| if a == b { 0.5 } else { 0.2 });
    // Cluster 0 is empty, cluster 1 holds the element that the voter is
    // unlike, and no further cluster may open.
    let mut grid = grid_of(2, 1, &[1, 0]);
    let mut members = vec![vec![], vec![(0, 0)]];
    assert_eq!(
        cc_vote_logarithmic(&mut grid, &mut members, &logits, &vec![(1, 0)], 2),
        Ok(())
    );
    assert_eq!(members, vec![vec![], vec![(0, 0), (1, 0)]]);
    assert_eq!(ids_of(&grid), vec![1, 1]);
}

#[test]
fn greedy_joins_cluster_zero_when_all_are_empty_and_none_may_open() {
    let (_, logits) = tables(2, 1, &|a, b| if a == b { 0.5 } else { 0.2 });
    let mut grid = Grid::zeros(2, 1).unwrap();
    let mut members = vec![vec![], vec![]];
    assert_eq!(
        cc_vote_logarithmic(&mut grid, &mut members, &logits, &vec![(1, 0)], 2),
        Ok(())
    );
    assert_eq!(members, vec![vec![(1, 0)], vec![]]);
}

#[test]
fn greedy_keeps_more_clusters_than_the_cap_if_given_them() {
    let (_, logits) = tables(3, 1, &|a, b| if a == b { 0.5 } else { 0.2 });
    let mut grid = grid_of(3, 1, &[0, 1, 0]);
    let mut members = vec![vec![(0, 0)], vec![(1, 0)]];
    assert_eq!(
        cc_vote_logarithmic(&mut grid, &mut members, &logits, &vec![(2, 0)], 1),
        Ok(())
    );
    assert_eq!(members, vec![vec![(0, 0), (2, 0)], vec![(1, 0)]]);
}

#[test]
fn greedy_with_an_empty_order_changes_nothing() {
    let (sim, logits) = tables(2, 1, &|a, b| if a == b { 0.5 } else { 0.2 });
    let mut grid = grid_of(2, 1, &[0, 4]);
    let mut members = vec![vec![(0, 0)]];
    assert_eq!(cc_vote_logarithmic(&mut grid, &mut members, &logits, &vec![], 0), Ok(()));
    assert_eq!(cc_vote_additive(&mut grid, &mut members, &sim, &vec![], 0), Ok(()));
    assert_eq!(members, vec![vec![(0, 0)]]);
    assert_eq!(ids_of(&grid), vec![0, 4]);
}

#[test]
fn greedy_rejects_a_grid_of_another_shape() {
    let (sim, logits) = tables(2, 2, &two_pairs);
    let mut grid = grid_of(4, 1, &[3, 3, 3, 3]);
    let mut members = Vec::new();
    let order = vec![(0, 0), (1, 0)];
    assert_eq!(
        cc_vote_logarithmic(&mut grid, &mut members, &logits, &order, 4),
        Err(ClusterError::InvalidDimensions)
    );
    assert_eq!(
        cc_vote_additive(&mut grid, &mut members, &sim, &order, 4),
        Err(ClusterError::InvalidDimensions)
    );
    assert_eq!(members, Vec::<Vec<(usize, usize)>>::new());
    assert_eq!(ids_of(&grid), vec![3, 3, 3, 3]);
}

#[test]
fn orders_that_cannot_vote_are_told_apart() {
    let members = vec![vec![(0, 0)], vec![]];
    assert!(is_votable(&members, &vec![(0, 1), (1, 0), (1, 1)], 2, 2));
    assert!(is_votable(&members, &vec![], 2, 2));
    // Listed already.
    assert!(!is_votable(&members, &vec![(0, 1), (0, 0)], 2, 2));
    // Twice in the order.
    assert!(!is_votable(&members, &vec![(0, 1), (1, 1), (0, 1)], 2, 2));
    // Outside the grid.
    assert!(!is_votable(&members, &vec![(2, 0)], 2, 2));
    assert!(!is_votable(&members, &vec![(0, 2)], 2, 2));
}

#[test]
fn partitions_are_told_from_what_is_none() {
    let grid = grid_of(2, 2, &[0, 1, 1, 0]);
    assert!(is_complete(&grid, &vec![vec![(0, 0), (1, 1)], vec![(1, 0), (0, 1)]]));
    assert!(is_complete(&grid, &vec![vec![(1, 1), (0, 0)], vec![(0, 1), (1, 0)], vec![]]));
    // An element is missing from its list.
    assert!(!is_complete(&grid, &vec![vec![(0, 0)], vec![(1, 0), (0, 1)]]));
    assert!(lists_agree(&grid, &vec![vec![(0, 0)], vec![(1, 0), (0, 1)]]));
    // An element stands in the list of another cluster.
    assert!(!lists_agree(&grid, &vec![vec![(0, 0), (1, 1), (0, 1)], vec![(1, 0), (0, 1)]]));
    // An element stands twice in its list.
    assert!(!lists_agree(&grid, &vec![vec![(0, 0), (1, 1), (0, 0)], vec![(1, 0), (0, 1)]]));
    // A listed element lies outside the grid.
    assert!(!lists_agree(&grid, &vec![vec![(0, 0), (1, 1), (2, 0)], vec![(1, 0), (0, 1)]]));
    // The list of a cluster is missing.
    assert!(!is_complete(&grid, &vec![vec![(0, 0), (1, 1)]]));
}
