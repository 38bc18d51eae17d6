use correlation_clustering::grid::Grid;
use correlation_clustering::iterations::{improvement, permuted};
use correlation_clustering::partition::is_complete;
use correlation_clustering::similarity::{ClusterError, LogitWeights, Similarity};
use correlation_clustering::{
    cluster_total_distance, greedy_cc_iterations, greedy_cc_orders, index_permutations, indices,
    run,
};

const UNIT: f64 = 1_000_000_000.0;

fn logit(p: f64) -> i64 {
    ((p.ln() - (1.0 - p).ln()) * UNIT).round() as i64
}

fn tables(width: usize, height: usize, score: &dyn Fn(usize, usize) -> u32) -> (Similarity, LogitWeights) {
    let count = width * height;
    let mut scores = Vec::new();
    let mut values = Vec::new();
    for a in 0..count {
        for b in 0..count {
            scores.push(score(a, b));
            values.push(logit(score(a, b) as f64 / UNIT));
        }
    }
    (
        Similarity::new(width, height, scores).unwrap(),
        LogitWeights::new(width, height, values).unwrap(),
    )
}

fn two_pairs(a: usize, b: usize) -> u32 {
    if a == b {
        500_000_000
    } else if a / 2 == b / 2 {
        900_000_000
    } else {
        100_000_000
    }
}

/// Three elements in a row: 0 and 1 are alike, 1 and 2 are alike, 0 and 2
/// are somewhat apart.
fn chain(a: usize, b: usize) -> u32 {
    if a == b {
        500_000_000
    } else if a + b == 2 {
        400_000_001
    } else {
        900_000_000
    }
}

fn ids_of(grid: &Grid) -> Vec<usize> {
    let (width, height) = grid.dim();
    let mut ids = Vec::new();
    for x in 0..width {
        for y in 0..height {
            ids.push(grid.get(x, y).unwrap());
        }
    }
    ids
}

#[test]
fn sampled_indices_are_a_permutation() {
    for length in [0usize, 1, 2, 5, 11, 12, 40, 200, 1000] {
        let mut order = index_permutations(length);
        assert_eq!(order.len(), length);
        order.sort();
        assert_eq!(order, (0..length).collect::<Vec<usize>>());
    }
}

#[test]
fn sampled_orders_differ() {
    let first = index_permutations(64);
    let mut differs = false;
    for _ in 0..8 {
        differs = differs || index_permutations(64) != first;
    }
    assert!(differs);
}

#[test]
fn permuted_puts_the_elements_in_the_order_of_the_picks() {
    let all = indices(2, 3);
    assert_eq!(
        permuted(&all, &vec![5, 0, 3, 1, 4, 2], 2, 3),
        vec![(1, 2), (0, 0), (1, 0), (0, 1), (1, 1), (0, 2)]
    );
    assert_eq!(permuted(&indices(0, 3), &vec![], 0, 3), vec![]);
}

#[test]
fn the_best_of_the_given_orders_is_kept() {
    let (sim, logits) = tables(3, 1, &chain);
    // Voting 0, 2, 1 leaves element 2 alone: cost 2 * (0.1 + 0.400000001 + 0.9).
    // Voting 0, 1, 2 puts all three together: cost 2 * (0.1 + 0.1 + 0.599999999).
    let apart = vec![(0, 0), (2, 0), (1, 0)];
    let together = vec![(0, 0), (1, 0), (2, 0)];
    let mut grid = Grid::zeros(3, 1).unwrap();
    let mut members = vec![vec![(1, 0)]];
    let found = greedy_cc_orders(
        &mut grid,
        &mut members,
        &sim,
        &logits,
        &vec![apart.clone(), together.clone(), apart.clone()],
        3,
    );
    assert_eq!(found, Ok((1_599_999_998, 2_400_000_000)));
    assert_eq!(members, vec![vec![(0, 0), (1, 0), (2, 0)]]);
    assert_eq!(ids_of(&grid), vec![0, 0, 0]);
    assert_eq!(cluster_total_distance(&grid, &sim), Ok(1_599_999_998));

    let found = greedy_cc_orders(&mut grid, &mut members, &sim, &logits, &vec![apart.clone()], 3);
    assert_eq!(found, Ok((2_800_000_002, 2_800_000_002)));
    assert_eq!(members, vec![vec![(0, 0), (1, 0)], vec![(2, 0)]]);
    assert_eq!(ids_of(&grid), vec![0, 0, 1]);

    let found = greedy_cc_orders(
        &mut grid,
        &mut members,
        &sim,
        &logits,
        &vec![together.clone(), apart.clone()],
        3,
    );
    assert_eq!(found, Ok((1_599_999_998, 2_200_000_000)));
    assert_eq!(members, vec![vec![(0, 0), (1, 0), (2, 0)]]);
}

#[test]
fn of_equal_costs_the_first_partition_is_kept() {
    let (sim, logits) = tables(2, 2, &two_pairs);
    let first = vec![(1, 1), (0, 0), (1, 0), (0, 1)];
    let second = vec![(0, 0), (0, 1), (1, 0), (1, 1)];
    let mut grid = Grid::zeros(2, 2).unwrap();
    let mut members = Vec::new();
    let found = greedy_cc_orders(&mut grid, &mut members, &sim, &logits, &vec![first, second], 4);
    assert_eq!(found, Ok((1_200_000_000, 1_200_000_000)));
    assert_eq!(members, vec![vec![(1, 1), (1, 0)], vec![(0, 0), (0, 1)]]);
    assert_eq!(ids_of(&grid), vec![1, 1, 0, 0]);
}

#[test]
fn the_driver_rejects_tables_of_another_shape() {
    let (sim, logits) = tables(2, 2, &two_pairs);
    let (other_sim, other_logits) = tables(4, 1, &two_pairs);
    let order = vec![(0, 0), (0, 1), (1, 0), (1, 1)];
    let mut grid = Grid::zeros(2, 2).unwrap();
    grid.set(1, 1, 6);
    let mut members = vec![vec![(0, 1)]];
    assert_eq!(
        greedy_cc_orders(&mut grid, &mut members, &other_sim, &logits, &vec![order.clone()], 4),
        Err(ClusterError::InvalidDimensions)
    );
    assert_eq!(
        greedy_cc_orders(&mut grid, &mut members, &sim, &other_logits, &vec![order.clone()], 4),
        Err(ClusterError::InvalidDimensions)
    );
    assert_eq!(
        greedy_cc_iterations(&mut grid, &mut members, &other_sim, &logits, 3, 4),
        Err(ClusterError::InvalidDimensions)
    );
    assert_eq!(
        greedy_cc_iterations(&mut grid, &mut members, &sim, &other_logits, 3, 4),
        Err(ClusterError::InvalidDimensions)
    );
    assert_eq!(members, vec![vec![(0, 1)]]);
    assert_eq!(ids_of(&grid), vec![0, 0, 0, 6]);
    assert_eq!(run(2, 2, &other_sim, &logits, 3, 4).err(), Some(ClusterError::InvalidDimensions));
    assert_eq!(run(2, 2, &sim, &other_logits, 3, 4).err(), Some(ClusterError::InvalidDimensions));
    assert_eq!(run(4, 1, &sim, &logits, 3, 4).err(), Some(ClusterError::InvalidDimensions));
}

#[test]
fn random_orders_give_a_partition_and_its_cost() {
    let (sim, logits) = tables(3, 1, &chain);
    for iterations in [0usize, 1, 2, 7] {
        for cap in 1..4usize {
            let mut grid = Grid::zeros(3, 1).unwrap();
            let mut members = vec![vec![(2, 0)], vec![], vec![], vec![], vec![]];
            let (best, average) =
                greedy_cc_iterations(&mut grid, &mut members, &sim, &logits, iterations, cap)
                    .unwrap();
            assert!(is_complete(&grid, &members));
            assert!(members.len() <= cap);
            assert_eq!(cluster_total_distance(&grid, &sim), Ok(best));
            assert!(best <= average);
            assert!(best == 1_599_999_998 || best == 2_800_000_002 || best == 2_199_999_998);
            if iterations <= 1 {
                assert_eq!(best, average);
            }
        }
    }
}

#[test]
fn one_iteration_shows_no_improvement_on_the_average() {
    let (sim, logits) = tables(2, 2, &two_pairs);
    let mut grid = Grid::zeros(2, 2).unwrap();
    let mut members = Vec::new();
    let (best, average) =
        greedy_cc_iterations(&mut grid, &mut members, &sim, &logits, 1, 4).unwrap();
    assert_eq!(best, average);
    assert_eq!(improvement(best, average), 0);
    let made = run(2, 2, &sim, &logits, 1, 4).unwrap();
    assert_eq!(made.best_cost, made.average_cost);
    assert_eq!(improvement(made.best_cost, made.average_cost), 0);
}

#[test]
fn improvement_is_in_millionths_of_the_average() {
    assert_eq!(improvement(750, 1000), 250_000);
    assert_eq!(improvement(0, 1000), 1_000_000);
    assert_eq!(improvement(1000, 1000), 0);
    assert_eq!(improvement(2, 3), 333_333);
    assert_eq!(improvement(0, 0), 0);
    assert_eq!(improvement(1_599_999_998, 2_400_000_000), 333_333);
}

#[test]
fn a_whole_run_finds_the_two_natural_clusters() {
    let (sim, logits) = tables(2, 2, &two_pairs);
    for iterations in [0usize, 1, 5] {
        let made = run(2, 2, &sim, &logits, iterations, 4).unwrap();
        let ids = ids_of(&made.clusters);
        assert_eq!(made.clusters.dim(), (2, 2));
        assert_eq!(made.cluster_indices.len(), 2);
        assert_eq!(ids[0], ids[1]);
        assert_eq!(ids[2], ids[3]);
        assert_ne!(ids[0], ids[2]);
        assert!(is_complete(&made.clusters, &made.cluster_indices));
        assert_eq!(made.final_cost, 1_200_000_000);
        assert_eq!(made.best_cost, 1_200_000_000);
        assert_eq!(made.average_cost, 1_200_000_000);
    }
}

#[test]
fn a_whole_run_refines_what_the_cap_forced_together() {
    let (sim, logits) = tables(2, 2, &two_pairs);
    let made = run(2, 2, &sim, &logits, 3, 1).unwrap();
    assert_eq!(made.cluster_indices.len(), 1);
    assert_eq!(made.best_cost, 7_600_000_000);
    assert_eq!(made.average_cost, 7_600_000_000);
    assert_eq!(made.final_cost, 7_600_000_000);
}

#[test]
fn a_whole_run_on_a_grid_without_elements() {
    let sim = Similarity::new(0, 0, vec![]).unwrap();
    let logits = LogitWeights::new(0, 0, vec![]).unwrap();
    let made = run(0, 0, &sim, &logits, 3, 0).unwrap();
    assert_eq!(made.cluster_indices, Vec::<Vec<(usize, usize)>>::new());
    assert_eq!(made.clusters.dim(), (0, 0));
    assert_eq!((made.best_cost, made.average_cost, made.final_cost), (0, 0, 0));

    let sim = Similarity::new(3, 0, vec![]).unwrap();
    let logits = LogitWeights::new(3, 0, vec![]).unwrap();
    let made = run(3, 0, &sim, &logits, 1, 2).unwrap();
    assert_eq!(made.cluster_indices, Vec::<Vec<(usize, usize)>>::new());
    assert_eq!((made.best_cost, made.average_cost, made.final_cost), (0, 0, 0));
}
