use correlation_clustering::grid::Grid;
use correlation_clustering::indices;
use correlation_clustering::similarity::{ClusterError, LogitWeights, Similarity, SCALE};

fn uniform(count: usize, score: u32) -> Vec<u32> {
    vec![score; count * count]
}

#[test]
fn indices_follow_x_then_y() {
    assert_eq!(
        indices(2, 3),
        vec![(0, 0), (0, 1), (0, 2), (1, 0), (1, 1), (1, 2)]
    );
}

#[test]
fn indices_of_an_empty_grid_are_empty() {
    assert_eq!(indices(0, 5), Vec::<(usize, usize)>::new());
    assert_eq!(indices(4, 0), Vec::<(usize, usize)>::new());
}

#[test]
fn indices_of_a_single_column() {
    assert_eq!(indices(1, 4), vec![(0, 0), (0, 1), (0, 2), (0, 3)]);
}

#[test]
fn a_new_grid_is_all_zero() {
    let grid = Grid::zeros(3, 2).unwrap();
    assert_eq!(grid.dim(), (3, 2));
    for x in 0..3 {
        for y in 0..2 {
            assert_eq!(grid.get(x, y), Some(0));
        }
    }
}

#[test]
fn a_grid_too_large_to_address_is_refused() {
    assert!(Grid::zeros(usize::MAX, 2).is_none());
    assert!(Grid::zeros(2, usize::MAX).is_none());
    assert!(Grid::zeros(usize::MAX, 0).is_none());
    assert!(Grid::zeros(1 << (usize::BITS / 2), 1 << (usize::BITS / 2)).is_none());
}

#[test]
fn a_grid_without_elements_can_be_made() {
    let grid = Grid::zeros(0, 7).unwrap();
    assert_eq!(grid.dim(), (0, 7));
    assert_eq!(grid.get(0, 0), None);
}

#[test]
fn set_changes_one_entry_only() {
    let mut grid = Grid::zeros(2, 3).unwrap();
    assert!(grid.set(1, 2, 9));
    assert!(grid.set(0, 1, 4));
    for x in 0..2 {
        for y in 0..3 {
            let expected = match (x, y) {
                (1, 2) => 9,
                (0, 1) => 4,
                _ => 0,
            };
            assert_eq!(grid.get(x, y), Some(expected));
        }
    }
    assert_eq!(grid.dim(), (2, 3));
}

#[test]
fn get_and_set_outside_the_grid() {
    let mut grid = Grid::zeros(2, 3).unwrap();
    assert_eq!(grid.get(2, 0), None);
    assert_eq!(grid.get(0, 3), None);
    assert!(!grid.set(2, 0, 5));
    assert!(!grid.set(0, 3, 5));
    for x in 0..2 {
        for y in 0..3 {
            assert_eq!(grid.get(x, y), Some(0));
        }
    }
}

#[test]
fn a_copy_is_independent_of_its_source() {
    let mut grid = Grid::zeros(2, 2).unwrap();
    grid.set(0, 1, 3);
    let copy = grid.copy();
    grid.set(0, 1, 8);
    grid.set(1, 1, 2);
    assert_eq!(copy.dim(), (2, 2));
    assert_eq!(copy.get(0, 0), Some(0));
    assert_eq!(copy.get(0, 1), Some(3));
    assert_eq!(copy.get(1, 0), Some(0));
    assert_eq!(copy.get(1, 1), Some(0));
    assert_eq!(grid.get(0, 1), Some(8));
}

#[test]
fn scores_of_the_wrong_length_are_invalid_dimensions() {
    assert_eq!(
        Similarity::new(2, 2, uniform(3, SCALE / 2)).err(),
        Some(ClusterError::InvalidDimensions)
    );
    assert_eq!(
        Similarity::new(2, 2, vec![]).err(),
        Some(ClusterError::InvalidDimensions)
    );
    assert_eq!(
        Similarity::new(usize::MAX, usize::MAX, vec![1]).err(),
        Some(ClusterError::InvalidDimensions)
    );
}

#[test]
fn the_shape_is_checked_before_the_scores() {
    assert_eq!(
        Similarity::new(1, 2, vec![0, 0, 0]).err(),
        Some(ClusterError::InvalidDimensions)
    );
}

#[test]
fn a_score_of_zero_or_one_is_degenerate() {
    let mut scores = uniform(2, SCALE / 2);
    scores[3] = 0;
    assert_eq!(
        Similarity::new(1, 2, scores).err(),
        Some(ClusterError::DegenerateSimilarity)
    );
    let mut scores = uniform(2, SCALE / 2);
    scores[0] = SCALE;
    assert_eq!(
        Similarity::new(2, 1, scores).err(),
        Some(ClusterError::DegenerateSimilarity)
    );
    let mut scores = uniform(2, SCALE / 2);
    scores[1] = u32::MAX;
    assert_eq!(
        Similarity::new(2, 1, scores).err(),
        Some(ClusterError::DegenerateSimilarity)
    );
}

#[test]
fn scores_next_to_the_bounds_are_accepted() {
    let mut scores = uniform(2, SCALE / 2);
    scores[0] = 1;
    scores[3] = SCALE - 1;
    let sim = Similarity::new(1, 2, scores).unwrap();
    assert_eq!(sim.dim(), (1, 2));
    assert_eq!(sim.score((0, 0), (0, 0)), 1);
    assert_eq!(sim.score((0, 1), (0, 1)), SCALE - 1);
}

#[test]
fn scores_are_found_by_pair() {
    // 2 by 2 grid: positions (0,0)=0, (0,1)=1, (1,0)=2, (1,1)=3.
    let scores: Vec<u32> = (0..16).map(|k| 1000 + k).collect();
    let sim = Similarity::new(2, 2, scores).unwrap();
    assert_eq!(sim.score((0, 0), (0, 0)), 1000);
    assert_eq!(sim.score((0, 0), (1, 1)), 1003);
    assert_eq!(sim.score((0, 1), (1, 0)), 1006);
    assert_eq!(sim.score((1, 0), (0, 1)), 1009);
    assert_eq!(sim.score((1, 1), (1, 0)), 1014);
}

#[test]
fn scores_of_an_empty_grid() {
    let sim = Similarity::new(0, 3, vec![]).unwrap();
    assert_eq!(sim.dim(), (0, 3));
}

#[test]
fn symmetry_of_scores_is_detected() {
    let mut scores = uniform(3, 500);
    scores[1] = 700; // pair (0, 1)
    scores[3] = 700; // pair (1, 0)
    assert!(Similarity::new(3, 1, scores.clone()).unwrap().is_symmetric());
    scores[5] = 900; // pair (1, 2) without its mirror
    assert!(!Similarity::new(3, 1, scores).unwrap().is_symmetric());
}

#[test]
fn logit_weights_of_the_wrong_length_are_invalid_dimensions() {
    assert_eq!(
        LogitWeights::new(2, 2, vec![0; 15]).err(),
        Some(ClusterError::InvalidDimensions)
    );
}

#[test]
fn logit_weights_are_found_by_pair() {
    let values: Vec<i64> = (0..16).map(|k| -8 + k).collect();
    let logits = LogitWeights::new(2, 2, values).unwrap();
    assert_eq!(logits.dim(), (2, 2));
    assert_eq!(logits.get((0, 0), (0, 0)), -8);
    assert_eq!(logits.get((0, 1), (1, 1)), -1);
    assert_eq!(logits.get((1, 1), (0, 0)), 4);
    assert_eq!(logits.get((1, 1), (1, 1)), 7);
}
