//! The disagreement cost of an assignment of elements to clusters.

use crate::elements::{all_elements, element_at, indices, lemma_element_of_flat};
use crate::grid::{grid_cells, Element, Grid};
use crate::similarity::{
    lemma_count_fits, lemma_pair_slot_in_table, ClusterError, Similarity, SCALE,
};
use vstd::arithmetic::mul::lemma_mul_inequality;
use vstd::prelude::*;

verus! {

/// The cluster id that `cells` gives element `e`.
pub open spec fn label(cells: Map<(int, int), usize>, e: Element) -> usize {
    cells[(e.0 as int, e.1 as int)]
}

/// Cost of the ordered pair `(i, j)`: what separates the two from full
/// similarity when they share a cluster, their similarity when they do
/// not. An element has no cost with itself.
pub open spec fn pair_cost(
    cells: Map<(int, int), usize>,
    sim: &Similarity,
    i: Element,
    j: Element,
) -> int {
    if i == j {
        0
    } else if label(cells, i) == label(cells, j) {
        SCALE - sim.at(i, j)
    } else {
        sim.at(i, j)
    }
}

/// Cost of the pairs of `i` with the first `m` elements of the canonical
/// order.
pub open spec fn row_cost(
    cells: Map<(int, int), usize>,
    sim: &Similarity,
    i: Element,
    m: nat,
) -> int
    decreases m,
{
    if m == 0 {
        0
    } else {
        row_cost(cells, sim, i, (m - 1) as nat) + pair_cost(
            cells,
            sim,
            i,
            element_at(m - 1, sim.height()),
        )
    }
}

/// Cost of the pairs of each of the first `k` elements with the first `m`
/// elements.
pub open spec fn rows_cost(cells: Map<(int, int), usize>, sim: &Similarity, k: nat, m: nat) -> int
    decreases k,
{
    if k == 0 {
        0
    } else {
        rows_cost(cells, sim, (k - 1) as nat, m) + row_cost(
            cells,
            sim,
            element_at(k - 1, sim.height()),
            m,
        )
    }
}

/// The cost of an assignment: the sum of `pair_cost` over every ordered
/// pair of distinct elements. Each unordered pair is counted in both
/// orders.
pub open spec fn total_cost(cells: Map<(int, int), usize>, sim: &Similarity) -> int {
    rows_cost(cells, sim, sim.count(), sim.count())
}

/// Cost of the unordered pairs among the first `k` elements, each counted
/// once, in the order later element first.
pub open spec fn unordered_cost(cells: Map<(int, int), usize>, sim: &Similarity, k: nat) -> int
    decreases k,
{
    if k == 0 {
        0
    } else {
        unordered_cost(cells, sim, (k - 1) as nat) + row_cost(
            cells,
            sim,
            element_at(k - 1, sim.height()),
            (k - 1) as nat,
        )
    }
}

/// The cost of a pair of grid elements lies between 0 and `SCALE`.
pub proof fn lemma_pair_cost_bounds(
    cells: Map<(int, int), usize>,
    sim: &Similarity,
    i: Element,
    j: Element,
)
    requires
        sim.wf(),
        sim.has(i),
        sim.has(j),
    ensures
        0 <= pair_cost(cells, sim, i, j) <= SCALE,
        0 < sim.at(i, j) < SCALE,
{
    lemma_count_fits(sim);
    lemma_pair_slot_in_table(i, j, sim.width(), sim.height());
}

/// The cost of a row of `m` pairs lies between 0 and `m * SCALE`.
pub proof fn lemma_row_cost_bounds(
    cells: Map<(int, int), usize>,
    sim: &Similarity,
    i: Element,
    m: nat,
)
    requires
        sim.wf(),
        sim.has(i),
        m <= sim.count(),
    ensures
        0 <= row_cost(cells, sim, i, m) <= m * SCALE,
    decreases m,
{
    if m > 0 {
        lemma_count_fits(sim);
        lemma_row_cost_bounds(cells, sim, i, (m - 1) as nat);
        lemma_element_of_flat(m - 1, sim.width(), sim.height());
        lemma_pair_cost_bounds(cells, sim, i, element_at(m - 1, sim.height()));
        assert(m * SCALE == (m - 1) * SCALE + SCALE) by (nonlinear_arith);
    }
}

/// The cost of `k` rows of `m` pairs lies between 0 and `k * m * SCALE`.
pub proof fn lemma_rows_cost_bounds(
    cells: Map<(int, int), usize>,
    sim: &Similarity,
    k: nat,
    m: nat,
)
    requires
        sim.wf(),
        k <= sim.count(),
        m <= sim.count(),
    ensures
        0 <= rows_cost(cells, sim, k, m) <= k * m * SCALE,
    decreases k,
{
    if k > 0 {
        lemma_count_fits(sim);
        lemma_rows_cost_bounds(cells, sim, (k - 1) as nat, m);
        lemma_element_of_flat(k - 1, sim.width(), sim.height());
        lemma_row_cost_bounds(cells, sim, element_at(k - 1, sim.height()), m);
        assert(k * m * SCALE == (k - 1) * m * SCALE + m * SCALE) by (nonlinear_arith);
    }
}

/// The cost of an assignment is at least 0 and at most `SCALE` for each
/// ordered pair of elements.
pub proof fn lemma_total_cost_bounds(cells: Map<(int, int), usize>, sim: &Similarity)
    requires
        sim.wf(),
    ensures
        0 <= total_cost(cells, sim) <= usize::MAX * SCALE,
{
    lemma_count_fits(sim);
    lemma_rows_cost_bounds(cells, sim, sim.count(), sim.count());
    let n = sim.count() as int;
    assert(n * n * SCALE <= usize::MAX * SCALE) by (nonlinear_arith)
        requires
            n * n <= usize::MAX,
    ;
}

/// The cost of a row depends only on the clusters of the elements of the
/// grid.
pub proof fn lemma_row_cost_depends_on_labels(
    a: Map<(int, int), usize>,
    b: Map<(int, int), usize>,
    sim: &Similarity,
    i: Element,
    m: nat,
)
    requires
        sim.wf(),
        sim.has(i),
        m <= sim.count(),
        forall|e: Element| sim.has(e) ==> label(a, e) == label(b, e),
    ensures
        row_cost(a, sim, i, m) == row_cost(b, sim, i, m),
    decreases m,
{
    if m > 0 {
        lemma_count_fits(sim);
        lemma_row_cost_depends_on_labels(a, b, sim, i, (m - 1) as nat);
        lemma_element_of_flat(m - 1, sim.width(), sim.height());
    }
}

/// The cost of the first rows depends only on the clusters of the elements
/// of the grid.
pub proof fn lemma_rows_cost_depends_on_labels(
    a: Map<(int, int), usize>,
    b: Map<(int, int), usize>,
    sim: &Similarity,
    k: nat,
    m: nat,
)
    requires
        sim.wf(),
        k <= sim.count(),
        m <= sim.count(),
        forall|e: Element| sim.has(e) ==> label(a, e) == label(b, e),
    ensures
        rows_cost(a, sim, k, m) == rows_cost(b, sim, k, m),
    decreases k,
{
    if k > 0 {
        lemma_count_fits(sim);
        lemma_rows_cost_depends_on_labels(a, b, sim, (k - 1) as nat, m);
        lemma_element_of_flat(k - 1, sim.width(), sim.height());
        lemma_row_cost_depends_on_labels(a, b, sim, element_at(k - 1, sim.height()), m);
    }
}

/// Computes the cost of an assignment against the similarity scores.
/// A grid whose shape is not that of the scores is rejected.
pub fn cluster_total_distance(clusters: &Grid, similarity: &Similarity) -> (cost: Result<
    u128,
    ClusterError,
>)
    requires
        similarity.wf(),
    ensures
        cost == if clusters.width() == similarity.width() && clusters.height()
            == similarity.height() {
            Ok::<u128, ClusterError>(total_cost(grid_cells(*clusters), similarity) as u128)
        } else {
            Err::<u128, ClusterError>(ClusterError::InvalidDimensions)
        },
        cost matches Ok(c) ==> c == total_cost(grid_cells(*clusters), similarity),
{
    let (width, height) = clusters.dim();
    let (sim_width, sim_height) = similarity.dim();
    if width != sim_width || height != sim_height {
        return Err(ClusterError::InvalidDimensions);
    }
    proof {
        lemma_count_fits(similarity);
    }
    let all = indices(width, height);
    let n: usize = all.len();
    let ghost cells = grid_cells(*clusters);
    let mut sum: u128 = 0;
    let mut a: usize = 0;
    while a < n
        invariant
            similarity.wf(),
            clusters.width() == similarity.width() == width,
            clusters.height() == similarity.height() == height,
            cells == grid_cells(*clusters),
            all@ == all_elements(width as nat, height as nat),
            n == all@.len() == similarity.count(),
            n * n <= usize::MAX,
            a <= n,
            sum == rows_cost(cells, similarity, a as nat, n as nat),
            sum <= a * n * SCALE,
        decreases n - a,
    {
        let i = all[a];
        proof {
            lemma_element_of_flat(a as int, width as nat, height as nat);
        }
        let id_i = clusters.id_of(i);
        let mut row: u128 = 0;
        let mut b: usize = 0;
        while b < n
            invariant
                similarity.wf(),
                clusters.width() == similarity.width() == width,
                clusters.height() == similarity.height() == height,
                cells == grid_cells(*clusters),
                all@ == all_elements(width as nat, height as nat),
                n == all@.len() == similarity.count(),
                n * n <= usize::MAX,
                b <= n,
                similarity.has(i),
                id_i == label(cells, i),
                row == row_cost(cells, similarity, i, b as nat),
                row <= b * SCALE,
            decreases n - b,
        {
            let j = all[b];
            proof {
                lemma_element_of_flat(b as int, width as nat, height as nat);
                lemma_pair_cost_bounds(cells, similarity, i, j);
                assert((b + 1) * SCALE == b * SCALE + SCALE) by (nonlinear_arith);
                assert(b * SCALE <= n * SCALE) by (nonlinear_arith)
                    requires
                        b <= n,
                ;
            }
            if i.0 != j.0 || i.1 != j.1 {
                let p: u32 = similarity.score(i, j);
                let id_j = clusters.id_of(j);
                if id_i == id_j {
                    row = row + (SCALE - p) as u128;
                } else {
                    row = row + p as u128;
                }
            }
            b += 1;
        }
        proof {
            assert((a + 1) * n * SCALE == a * n * SCALE + n * SCALE) by (nonlinear_arith);
            lemma_mul_inequality(a + 1, n as int, n as int);
            assert((a + 1) * n * SCALE <= n * n * SCALE) by (nonlinear_arith)
                requires
                    (a + 1) * n <= n * n,
            ;
        }
        sum = sum + row;
        a += 1;
    }
    Ok(sum)
}

/// Under symmetric scores the pair `(a, m)` costs what `(m, a)` costs, so
/// a further column adds to the first `k` rows what row `m` holds over the
/// first `k` elements.
proof fn lemma_column_is_row(cells: Map<(int, int), usize>, sim: &Similarity, k: nat, m: nat)
    requires
        sim.wf(),
        sim.symmetric(),
        k <= sim.count(),
        m < sim.count(),
    ensures
        rows_cost(cells, sim, k, m + 1) == rows_cost(cells, sim, k, m) + row_cost(
            cells,
            sim,
            element_at(m as int, sim.height()),
            k,
        ),
    decreases k,
{
    if k > 0 {
        lemma_count_fits(sim);
        lemma_column_is_row(cells, sim, (k - 1) as nat, m);
        lemma_element_of_flat(k - 1, sim.width(), sim.height());
        lemma_element_of_flat(m as int, sim.width(), sim.height());
        let a = element_at(k - 1, sim.height());
        let b = element_at(m as int, sim.height());
        assert(sim.at(a, b) == sim.at(b, a));
        assert(pair_cost(cells, sim, a, b) == pair_cost(cells, sim, b, a));
        assert(row_cost(cells, sim, a, m + 1) == row_cost(cells, sim, a, m) + pair_cost(
            cells,
            sim,
            a,
            b,
        ));
    }
}

/// Over the first `m` elements, the cost of the ordered pairs is twice the
/// cost of the unordered pairs.
proof fn lemma_square_is_twice_triangle(cells: Map<(int, int), usize>, sim: &Similarity, m: nat)
    requires
        sim.wf(),
        sim.symmetric(),
        m <= sim.count(),
    ensures
        rows_cost(cells, sim, m, m) == 2 * unordered_cost(cells, sim, m),
    decreases m,
{
    if m > 0 {
        let p = (m - 1) as nat;
        lemma_square_is_twice_triangle(cells, sim, p);
        lemma_column_is_row(cells, sim, p, p);
        let e = element_at(p as int, sim.height());
        assert(row_cost(cells, sim, e, m) == row_cost(cells, sim, e, p) + pair_cost(
            cells,
            sim,
            e,
            e,
        ));
    }
}

/// The cost counts every unordered pair twice: when the scores are
/// symmetric, the cost of an assignment is two times the sum, over the
/// unordered pairs of distinct elements, of the cost of the pair.
pub proof fn law_cost_counts_pairs_twice(cells: Map<(int, int), usize>, sim: &Similarity)
    requires
        sim.wf(),
        sim.symmetric(),
    ensures
        total_cost(cells, sim) == 2 * unordered_cost(cells, sim, sim.count()),
{
    lemma_square_is_twice_triangle(cells, sim, sim.count());
}

/// The scores say nothing: every pair of elements of the grid is as similar
/// as not.
pub open spec fn uninformative(sim: &Similarity) -> bool {
    forall|i: Element, j: Element|
        sim.has(i) && sim.has(j) ==> 2 * #[trigger] sim.at(i, j) == SCALE
}

/// Under uninformative scores a row costs the same in any two assignments.
proof fn lemma_row_cost_uninformative(
    a: Map<(int, int), usize>,
    b: Map<(int, int), usize>,
    sim: &Similarity,
    i: Element,
    m: nat,
)
    requires
        sim.wf(),
        uninformative(sim),
        sim.has(i),
        m <= sim.count(),
    ensures
        row_cost(a, sim, i, m) == row_cost(b, sim, i, m),
    decreases m,
{
    if m > 0 {
        lemma_count_fits(sim);
        lemma_row_cost_uninformative(a, b, sim, i, (m - 1) as nat);
        lemma_element_of_flat(m - 1, sim.width(), sim.height());
        let e = element_at(m - 1, sim.height());
        assert(2 * sim.at(i, e) == SCALE);
    }
}

/// Under uninformative scores the first rows cost the same in any two
/// assignments.
proof fn lemma_rows_cost_uninformative(
    a: Map<(int, int), usize>,
    b: Map<(int, int), usize>,
    sim: &Similarity,
    k: nat,
)
    requires
        sim.wf(),
        uninformative(sim),
        k <= sim.count(),
    ensures
        rows_cost(a, sim, k, sim.count()) == rows_cost(b, sim, k, sim.count()),
    decreases k,
{
    if k > 0 {
        lemma_count_fits(sim);
        lemma_rows_cost_uninformative(a, b, sim, (k - 1) as nat);
        lemma_element_of_flat(k - 1, sim.width(), sim.height());
        lemma_row_cost_uninformative(a, b, sim, element_at(k - 1, sim.height()), sim.count());
    }
}

/// Uninformative scores make all partitions equal: when every pair is as
/// similar as not, any two assignments cost the same.
pub proof fn law_uninformative_scores_cost_the_same(
    a: Map<(int, int), usize>,
    b: Map<(int, int), usize>,
    sim: &Similarity,
)
    requires
        sim.wf(),
        uninformative(sim),
    ensures
        total_cost(a, sim) == total_cost(b, sim),
{
    lemma_rows_cost_uninformative(a, b, sim, sim.count());
}

} // verus!
