use correlation_clustering::grid::Grid;
use correlation_clustering::partition::is_complete;
use correlation_clustering::similarity::{ClusterError, LogitWeights, Similarity};
use correlation_clustering::{
    boem_cc_iterations, cc_boem, cc_vote_logarithmic, cluster_total_distance,
};

const UNIT: f64 = 1_000_000_000.0;

fn fixed(p: f64) -> u32 {
    (p * UNIT).round() as u32
}

fn logit(p: f64) -> i64 {
    ((p.ln() - (1.0 - p).ln()) * UNIT).round() as i64
}

fn tables(width: usize, height: usize, p: &dyn Fn(usize, usize) -> f64) -> (Similarity, LogitWeights) {
    let count = width * height;
    let mut scores = Vec::new();
    let mut values = Vec::new();
    for a in 0..count {
        for b in 0..count {
            scores.push(fixed(p(a, b)));
            values.push(logit(p(a, b)));
        }
    }
    (
        Similarity::new(width, height, scores).unwrap(),
        LogitWeights::new(width, height, values).unwrap(),
    )
}

fn two_pairs(a: usize, b: usize) -> f64 {
    if a == b {
        0.5
    } else if a / 2 == b / 2 {
        0.9
    } else {
        0.1
    }
}

fn ids_of(grid: &Grid) -> Vec<usize> {
    let (width, height) = grid.dim();
    let mut ids = Vec::new();
    for x in 0..width {
        for y in 0..height {
            ids.push(grid.get(x, y).unwrap());
        }
    }
    ids
}

/// The partition in which the element at position `k` is in cluster
/// `ids[k]`, with `clusters` lists, members in canonical order.
fn partition_of(
    width: usize,
    height: usize,
    ids: &[usize],
    clusters: usize,
) -> (Grid, Vec<Vec<(usize, usize)>>) {
    let mut grid = Grid::zeros(width, height).unwrap();
    let mut members = vec![Vec::new(); clusters];
    for x in 0..width {
        for y in 0..height {
            let id = ids[x * height + y];
            assert!(grid.set(x, y, id));
            members[id].push((x, y));
        }
    }
    assert!(is_complete(&grid, &members));
    (grid, members)
}

#[test]
fn greedy_then_local_search_finds_the_two_natural_clusters() {
    let (sim, logits) = tables(2, 2, &two_pairs);
    let orders = [
        vec![(0, 0), (0, 1), (1, 0), (1, 1)],
        vec![(1, 1), (0, 1), (1, 0), (0, 0)],
        vec![(1, 0), (0, 0), (1, 1), (0, 1)],
    ];
    let single = cluster_total_distance(&partition_of(2, 2, &[0, 0, 0, 0], 1).0, &sim).unwrap();
    let singletons = cluster_total_distance(&partition_of(2, 2, &[0, 1, 2, 3], 4).0, &sim).unwrap();
    for order in orders.iter() {
        let mut grid = Grid::zeros(2, 2).unwrap();
        let mut members = Vec::new();
        assert_eq!(cc_vote_logarithmic(&mut grid, &mut members, &logits, order, 4), Ok(()));
        assert_eq!(cc_boem(&mut grid, &mut members, &sim), Ok(()));
        let ids = ids_of(&grid);
        assert_eq!(members.len(), 2);
        assert_eq!(ids[0], ids[1]);
        assert_eq!(ids[2], ids[3]);
        assert_ne!(ids[0], ids[2]);
        assert!(is_complete(&grid, &members));
        let cost = cluster_total_distance(&grid, &sim).unwrap();
        assert_eq!(cost, 1_200_000_000);
        assert!(cost < single);
        assert!(cost < singletons);
    }
}

#[test]
fn local_search_splits_a_single_cluster() {
    let (sim, _) = tables(2, 2, &two_pairs);
    let (mut grid, mut members) = partition_of(2, 2, &[0, 0, 0, 0], 2);
    assert_eq!(cc_boem(&mut grid, &mut members, &sim), Ok(()));
    // Every element gains 1.6 by leaving: the first in canonical order
    // goes. Then element (0, 1) gains 4.8 by following it.
    assert_eq!(members, vec![vec![(1, 0), (1, 1)], vec![(0, 0), (0, 1)]]);
    assert_eq!(ids_of(&grid), vec![1, 1, 0, 0]);
    assert_eq!(cluster_total_distance(&grid, &sim), Ok(1_200_000_000));
}

#[test]
fn local_search_has_no_room_without_a_second_cluster() {
    let (sim, _) = tables(2, 2, &two_pairs);
    let (mut grid, mut members) = partition_of(2, 2, &[0, 0, 0, 0], 1);
    assert_eq!(cc_boem(&mut grid, &mut members, &sim), Ok(()));
    assert_eq!(members, vec![vec![(0, 0), (0, 1), (1, 0), (1, 1)]]);
    assert_eq!(ids_of(&grid), vec![0, 0, 0, 0]);
}

#[test]
fn local_search_moves_to_the_first_of_equal_destinations() {
    // Element 0 is unlike element 1 and has no ties to clusters 1 and 2.
    let (sim, _) = tables(2, 1, &|a, b| if a == b { 0.5 } else { 0.2 });
    let (mut grid, mut members) = partition_of(2, 1, &[0, 0], 3);
    assert_eq!(cc_boem(&mut grid, &mut members, &sim), Ok(()));
    assert_eq!(members, vec![vec![(1, 0)], vec![(0, 0)], vec![]]);
    assert_eq!(ids_of(&grid), vec![1, 0]);
}

#[test]
fn local_search_takes_the_largest_gain_first() {
    // Elements 0, 1, 2 share a cluster. Element 2 is far from both others,
    // element 1 only from element 2.
    let p = |a: usize, b: usize| -> f64 {
        if a == b {
            0.5
        } else if a + b == 1 {
            0.9
        } else if a + b == 2 {
            0.1
        } else {
            0.3
        }
    };
    let (sim, _) = tables(3, 1, &p);
    let (mut grid, mut members) = partition_of(3, 1, &[0, 0, 0], 2);
    assert_eq!(cc_boem(&mut grid, &mut members, &sim), Ok(()));
    // Net distances: element 0: 2 * (0.8 - 0.8) = 0, element 1:
    // 2 * (0.8 - 0.4) = 0.8, element 2: 2 * (-0.8 - 0.4) = -2.4.
    assert_eq!(members, vec![vec![(0, 0), (1, 0)], vec![(2, 0)]]);
    assert_eq!(ids_of(&grid), vec![0, 0, 1]);
}

#[test]
fn local_search_keeps_the_order_of_those_that_stay() {
    let p = |a: usize, b: usize| -> f64 {
        if a == b {
            0.5
        } else if a == 1 || b == 1 {
            0.1
        } else {
            0.9
        }
    };
    let (sim, _) = tables(4, 1, &p);
    let mut grid = Grid::zeros(4, 1).unwrap();
    let mut members = vec![vec![(3, 0), (1, 0), (0, 0), (2, 0)], vec![]];
    assert!(is_complete(&grid, &members));
    assert_eq!(cc_boem(&mut grid, &mut members, &sim), Ok(()));
    assert_eq!(members, vec![vec![(3, 0), (0, 0), (2, 0)], vec![(1, 0)]]);
    assert!(grid.get(1, 0) == Some(1));
}

#[test]
fn uninformative_scores_leave_every_partition_as_it_is() {
    let (sim, _) = tables(2, 2, &|_, _| 0.5);
    let mut costs = Vec::new();
    for code in 0..81usize {
        let ids = [code % 3, (code / 3) % 3, (code / 9) % 3, (code / 27) % 3];
        let (mut grid, mut members) = partition_of(2, 2, &ids, 3);
        let before = members.clone();
        costs.push(cluster_total_distance(&grid, &sim).unwrap());
        assert_eq!(cc_boem(&mut grid, &mut members, &sim), Ok(()));
        assert_eq!(members, before);
        assert_eq!(ids_of(&grid), ids.to_vec());
    }
    // Every partition costs the same: 12 ordered pairs at 0.5.
    assert!(costs.iter().all(|c| *c == 6_000_000_000));
}

#[test]
fn local_search_does_not_raise_the_cost_of_two_clusters() {
    let base = [[0.0, 0.7, 0.2, 0.6], [0.0, 0.0, 0.55, 0.1], [0.0, 0.0, 0.0, 0.8]];
    let p = |a: usize, b: usize| -> f64 {
        if a == b {
            0.5
        } else if a < b {
            base[a][b]
        } else {
            base[b][a]
        }
    };
    let (sim, _) = tables(2, 2, &p);
    assert!(sim.is_symmetric());
    for code in 0..16usize {
        let ids = [code % 2, (code / 2) % 2, (code / 4) % 2, (code / 8) % 2];
        let (mut grid, mut members) = partition_of(2, 2, &ids, 2);
        let before = cluster_total_distance(&grid, &sim).unwrap();
        assert_eq!(boem_cc_iterations(&mut grid, &mut members, &sim).map(|c| c <= before), Ok(true));
        assert!(is_complete(&grid, &members));
        assert_eq!(members.len(), 2);
    }
}

#[test]
fn a_second_local_search_changes_nothing() {
    let base = [[0.0, 0.7, 0.2, 0.6], [0.0, 0.0, 0.55, 0.1], [0.0, 0.0, 0.0, 0.8]];
    let p = |a: usize, b: usize| -> f64 {
        if a == b {
            0.5
        } else if a < b {
            base[a][b]
        } else {
            base[b][a]
        }
    };
    let (sim, _) = tables(2, 2, &p);
    for code in 0..16usize {
        let ids = [code % 2, (code / 2) % 2, (code / 4) % 2, (code / 8) % 2];
        let (mut grid, mut members) = partition_of(2, 2, &ids, 2);
        assert_eq!(cc_boem(&mut grid, &mut members, &sim), Ok(()));
        let ids_after = ids_of(&grid);
        let members_after = members.clone();
        assert_eq!(cc_boem(&mut grid, &mut members, &sim), Ok(()));
        assert_eq!(ids_of(&grid), ids_after);
        assert_eq!(members, members_after);
    }
}

#[test]
fn refinement_returns_the_cost_it_ends_at() {
    let (sim, _) = tables(2, 2, &two_pairs);
    let (mut grid, mut members) = partition_of(2, 2, &[0, 1, 0, 1], 2);
    assert_eq!(cluster_total_distance(&grid, &sim), Ok(7_600_000_000));
    let cost = boem_cc_iterations(&mut grid, &mut members, &sim);
    assert_eq!(cost, cluster_total_distance(&grid, &sim));
    assert_eq!(cost, Ok(1_200_000_000));
}

#[test]
fn local_search_on_a_grid_without_elements() {
    let sim = Similarity::new(0, 2, vec![]).unwrap();
    let mut grid = Grid::zeros(0, 2).unwrap();
    let mut members: Vec<Vec<(usize, usize)>> = vec![vec![], vec![]];
    assert_eq!(cc_boem(&mut grid, &mut members, &sim), Ok(()));
    assert_eq!(members, vec![vec![], vec![]]);
    assert_eq!(boem_cc_iterations(&mut grid, &mut members, &sim), Ok(0));
}

#[test]
fn local_search_rejects_a_grid_of_another_shape() {
    let (sim, _) = tables(2, 2, &two_pairs);
    let (mut grid, mut members) = partition_of(4, 1, &[0, 1, 0, 1], 2);
    let before = members.clone();
    assert_eq!(cc_boem(&mut grid, &mut members, &sim), Err(ClusterError::InvalidDimensions));
    assert_eq!(members, before);
    assert_eq!(ids_of(&grid), vec![0, 1, 0, 1]);
    assert_eq!(
        boem_cc_iterations(&mut grid, &mut members, &sim),
        Err(ClusterError::InvalidDimensions)
    );
    assert_eq!(members, before);
    assert_eq!(ids_of(&grid), vec![0, 1, 0, 1]);
}

#[test]
fn only_the_two_clusters_of_a_move_are_computed_anew() {
    // Four elements in a row, three clusters. Element 0 starts alone in
    // cluster 2 and the others share cluster 0.
    let scores = vec![
        500_000_000, 700_000_000, 400_000_000, 400_000_000, //
        700_000_000, 500_000_000, 200_000_000, 800_000_000, //
        400_000_000, 200_000_000, 500_000_000, 200_000_000, //
        400_000_000, 800_000_000, 200_000_000, 500_000_000,
    ];
    let sim = Similarity::new(4, 1, scores).unwrap();
    assert!(sim.is_symmetric());
    let (mut grid, mut members) = partition_of(4, 1, &[2, 0, 0, 0], 3);
    let before = cluster_total_distance(&grid, &sim).unwrap();
    assert_eq!(cc_boem(&mut grid, &mut members, &sim), Ok(()));
    // Element 2 leaves cluster 0 for cluster 1. The move that this opens to
    // element 0, to join cluster 0, is not seen: its cluster took no part.
    assert_eq!(members, vec![vec![(1, 0), (3, 0)], vec![(2, 0)], vec![(0, 0)]]);
    let between = cluster_total_distance(&grid, &sim).unwrap();
    assert!(between < before);
    // A new search computes every move anew and makes it.
    assert_eq!(cc_boem(&mut grid, &mut members, &sim), Ok(()));
    assert_eq!(members, vec![vec![(1, 0), (3, 0), (0, 0)], vec![(2, 0)], vec![]]);
    assert!(cluster_total_distance(&grid, &sim).unwrap() < between);
}

#[test]
fn net_distance_reads_one_direction_of_each_pair() {
    // Scores that differ by direction: the search follows the direction
    // from the moving element, the cost counts both.
    let scores = vec![
        500_000_000, 900_000_000, 150_000_000, //
        250_000_000, 500_000_000, 450_000_000, //
        550_000_000, 900_000_000, 500_000_000,
    ];
    let sim = Similarity::new(3, 1, scores).unwrap();
    assert!(!sim.is_symmetric());
    let (mut grid, mut members) = partition_of(3, 1, &[1, 0, 0], 2);
    assert_eq!(cluster_total_distance(&grid, &sim), Ok(2_500_000_000));
    assert_eq!(cc_boem(&mut grid, &mut members, &sim), Ok(()));
    assert_eq!(members, vec![vec![], vec![(1, 0), (0, 0), (2, 0)]]);
    assert_eq!(cluster_total_distance(&grid, &sim), Ok(2_800_000_000));
}
