//! The iteration driver: the greedy assigner is run over several orders of
//! the elements, and the partition of lowest cost is kept.

use crate::boem_cc::{cc_boem, local_search};
use crate::elements::{
    all_elements, flat, indices, lemma_element_of_flat, lemma_flat_of_element,
};
use crate::greedy_cc::{can_vote, cc_vote_logarithmic, greedy_cells, greedy_lists, PairWeights};
use crate::grid::{grid_cells, in_grid, Element, Grid};
use crate::objective::{
    cluster_total_distance, label, lemma_rows_cost_depends_on_labels, lemma_total_cost_bounds,
    total_cost,
};
use crate::partition::{complete, listed, lists};
use crate::similarity::{lemma_count_fits, ClusterError, LogitWeights, Similarity, SCALE};
use vstd::arithmetic::div_mod::{
    lemma_div_is_ordered, lemma_div_multiples_vanish, lemma_fundamental_div_mod,
    lemma_fundamental_div_mod_converse,
};
use vstd::prelude::*;
use vstd::set_lib::{lemma_int_range, lemma_len_subset, lemma_subset_equality, set_int_range};

verus! {

/// `order` holds `length` indices below `length`, no two of them equal.
pub open spec fn distinct_indices(order: Seq<usize>, length: nat) -> bool {
    &&& order.len() == length
    &&& forall|k: int| 0 <= k < order.len() ==> #[trigger] order[k] < length
    &&& forall|k: int, m: int|
        0 <= k < m < order.len() ==> #[trigger] order[k] != #[trigger] order[m]
}

/// `rand::seq::index::sample` over `rand::thread_rng`, asked for as many
/// indices as there are: `length` distinct indices below `length`, in random
/// order. Which order comes back is not stated; two calls may differ. Above
/// `u32::MAX` the sampler takes a path that asserts that fewer indices are
/// asked for than there are, so such lengths are left out.
#[verifier::external_body]
pub fn index_permutations(length: usize) -> (order: Vec<usize>)
    requires
        length <= u32::MAX,
    ensures
        distinct_indices(order@, length as nat),
{
    let mut rng = rand::thread_rng();
    rand::seq::index::sample(&mut rng, length, length).into_vec()
}

/// Distinct indices below their number hold every index below it.
pub proof fn lemma_distinct_indices_cover(order: Seq<usize>, length: nat, v: int)
    requires
        distinct_indices(order, length),
        0 <= v < length,
    ensures
        exists|k: int| 0 <= k < order.len() && #[trigger] order[k] == v,
{
    let ints = Seq::new(order.len(), |k: int| order[k] as int);
    assert(ints.no_duplicates()) by {
        assert forall|i: int, j: int|
            0 <= i < ints.len() && 0 <= j < ints.len() && i != j implies ints[i] != ints[j] by {
            if i < j {
                assert(order[i] != order[j]);
            } else {
                assert(order[j] != order[i]);
            }
        }
    }
    ints.unique_seq_to_set();
    lemma_int_range(0, length as int);
    let range = set_int_range(0, length as int);
    assert(ints.to_set().subset_of(range)) by {
        assert forall|a: int| ints.to_set().contains(a) implies range.contains(a) by {
            let k = choose|k: int| 0 <= k < ints.len() && ints[k] == a;
            assert(order[k] < length);
        }
    }
    lemma_len_subset(ints.to_set(), range);
    lemma_subset_equality(ints.to_set(), range);
    assert(range.contains(v));
    assert(ints.to_set().contains(v));
    let k = choose|k: int| 0 <= k < ints.len() && ints[k] == v;
    assert(order[k] == v);
}

/// Every element of the grid occurs in `order`.
pub open spec fn covers(order: Seq<Element>, width: nat, height: nat) -> bool {
    forall|e: Element| in_grid(e, width, height) ==> order.contains(e)
}

/// `order` is a visiting order of the grid: it holds every element of the
/// grid, each once, and nothing else.
pub open spec fn is_order(order: Seq<Element>, width: nat, height: nat) -> bool {
    &&& can_vote(Seq::empty(), order, width, height)
    &&& covers(order, width, height)
}

/// The elements of the grid in the order that the indices in `picks` give
/// to the canonical order.
pub fn permuted(all: &Vec<Element>, picks: &Vec<usize>, width: usize, height: usize) -> (order: Vec<
    Element,
>)
    requires
        width * height <= usize::MAX,
        all@ == all_elements(width as nat, height as nat),
        distinct_indices(picks@, all@.len()),
    ensures
        is_order(order@, width as nat, height as nat),
        order@.len() == picks@.len(),
        forall|k: int| 0 <= k < order@.len() ==> order@[k] == all@[picks@[k] as int],
{
    let mut order: Vec<Element> = Vec::new();
    let mut k: usize = 0;
    while k < picks.len()
        invariant
            k <= picks@.len(),
            order@.len() == k,
            distinct_indices(picks@, all@.len()),
            forall|m: int| 0 <= m < k ==> order@[m] == all@[picks@[m] as int],
        decreases picks@.len() - k,
    {
        order.push(all[picks[k]]);
        k += 1;
    }
    proof {
        let w = width as nat;
        let h = height as nat;
        assert forall|m: int| 0 <= m < order@.len() implies in_grid(#[trigger] order@[m], w, h)
            && flat(order@[m], h) == picks@[m] by {
            lemma_element_of_flat(picks@[m] as int, w, h);
        }
        assert forall|m: int, n: int| 0 <= m < n < order@.len() implies #[trigger] order@[m]
            != #[trigger] order@[n] by {
            assert(picks@[m] != picks@[n]);
        }
        assert forall|e: Element| in_grid(e, w, h) implies order@.contains(e) by {
            lemma_flat_of_element(e, w, h);
            lemma_distinct_indices_cover(picks@, all@.len(), flat(e, h));
            let m = choose|m: int| 0 <= m < picks@.len() && #[trigger] picks@[m] == flat(e, h);
            assert(order@[m] == e);
        }
    }
    order
}

/// The cost of the partition that the greedy assigner builds from nothing
/// when the elements vote in `order`.
pub open spec fn greedy_cost(
    sim: &Similarity,
    logits: &LogitWeights,
    order: Seq<Element>,
    cap: nat,
) -> int {
    total_cost(
        greedy_cells(&PairWeights::Logit(logits), Map::empty(), Seq::empty(), order, cap),
        sim,
    )
}

/// The cost of each run: entry `r` is the greedy cost of order `r`.
pub open spec fn run_costs(
    sim: &Similarity,
    logits: &LogitWeights,
    orders: Seq<Seq<Element>>,
    cap: nat,
) -> Seq<int> {
    Seq::new(orders.len(), |r: int| greedy_cost(sim, logits, orders[r], cap))
}

/// Entry `k` is the least of `costs`, and the first to be so.
pub open spec fn is_first_least(costs: Seq<int>, k: int) -> bool {
    &&& 0 <= k < costs.len()
    &&& forall|r: int|
        0 <= r < costs.len() ==> {
            &&& #[trigger] costs[r] >= costs[k]
            &&& r < k ==> costs[r] > costs[k]
        }
}

/// The position of the first least entry of `costs`.
pub open spec fn first_least(costs: Seq<int>) -> int {
    choose|k: int| is_first_least(costs, k)
}

/// The sum of the entries of `costs`.
pub open spec fn sum_of(costs: Seq<int>) -> int
    decreases costs.len(),
{
    if costs.len() == 0 {
        0
    } else {
        sum_of(costs.drop_last()) + costs.last()
    }
}

/// At most one entry is the first least.
pub proof fn lemma_first_least_unique(costs: Seq<int>, k: int, m: int)
    requires
        is_first_least(costs, k),
        is_first_least(costs, m),
    ensures
        k == m,
{
    assert(costs[m] >= costs[k]);
    assert(costs[k] >= costs[m]);
}

/// A sum is at least its number of entries times a lower bound of them.
pub proof fn lemma_sum_at_least(costs: Seq<int>, low: int)
    requires
        forall|r: int| 0 <= r < costs.len() ==> #[trigger] costs[r] >= low,
    ensures
        sum_of(costs) >= costs.len() * low,
    decreases costs.len(),
{
    if costs.len() > 0 {
        lemma_sum_at_least(costs.drop_last(), low);
        assert(costs.len() * low == (costs.len() - 1) * low + low) by (nonlinear_arith);
    }
}

/// The elements that vote get the same cluster whatever the assignment
/// held before.
pub proof fn lemma_greedy_cells_of_order(
    weights: &PairWeights,
    a: Map<(int, int), usize>,
    b: Map<(int, int), usize>,
    lists: Seq<Seq<Element>>,
    order: Seq<Element>,
    cap: nat,
    e: Element,
)
    requires
        order.contains(e),
    ensures
        label(greedy_cells(weights, a, lists, order, cap), e) == label(
            greedy_cells(weights, b, lists, order, cap),
            e,
        ),
    decreases order.len(),
{
    if order.last() != e {
        let k = choose|k: int| 0 <= k < order.len() && order[k] == e;
        assert(order.drop_last()[k] == e);
        lemma_greedy_cells_of_order(weights, a, b, lists, order.drop_last(), cap, e);
    }
}

/// `plans` holds `runs` visiting orders of the grid.
pub open spec fn are_orders(plans: Seq<Seq<Element>>, runs: nat, width: nat, height: nat) -> bool {
    &&& plans.len() == runs
    &&& forall|r: int| 0 <= r < plans.len() ==> is_order(#[trigger] plans[r], width, height)
}

/// The partition `cells` and `lists` with the costs `best` and `average` is
/// what the runs over `plans` leave: the lists are those of the first run
/// of least cost, the assignment gives every element the cluster that lists
/// it, `best` is the cost of that partition, and `average` is the mean of
/// the costs of all runs, rounded down.
pub open spec fn best_of_runs(
    sim: &Similarity,
    logits: &LogitWeights,
    plans: Seq<Seq<Element>>,
    cap: nat,
    cells: Map<(int, int), usize>,
    lists: Seq<Seq<Element>>,
    best: int,
    average: int,
) -> bool {
    let costs = run_costs(sim, logits, plans, cap);
    &&& is_first_least(costs, first_least(costs))
    &&& lists == greedy_lists(
        &PairWeights::Logit(logits),
        Seq::empty(),
        plans[first_least(costs)],
        cap,
    )
    &&& complete(cells, lists, sim.width(), sim.height())
    &&& best == costs[first_least(costs)]
    &&& best == total_cost(cells, sim)
    &&& average == sum_of(costs) / (plans.len() as int)
}

/// The number of runs that `iterations` asks for: one at least.
pub open spec fn runs_of(iterations: usize) -> nat {
    if iterations == 0 {
        1
    } else {
        iterations as nat
    }
}

/// The partition `cells` and `lists` is what local search makes of the best
/// of `runs` greedy runs over some visiting orders of the grid, whose costs
/// are `best` and `average`.
pub open spec fn refined_best_of_runs(
    sim: &Similarity,
    logits: &LogitWeights,
    runs: nat,
    cap: nat,
    cells: Map<(int, int), usize>,
    lists: Seq<Seq<Element>>,
    best: int,
    average: int,
) -> bool {
    exists|plans: Seq<Seq<Element>>, before: Map<(int, int), usize>, greedy: Seq<Seq<Element>>|
        are_orders(plans, runs, sim.width(), sim.height()) && #[trigger] best_of_runs(
            sim,
            logits,
            plans,
            cap,
            before,
            greedy,
            best,
            average,
        ) && cells == local_search(sim, before, greedy).cells && lists == local_search(
            sim,
            before,
            greedy,
        ).lists
}

/// One step of a running mean kept as quotient and rest: adding `cost` to a
/// total of `q * m + rest` gives the quotient and rest of the new total.
proof fn lemma_mean_step(q: int, rest: int, m: int, total: int, cost: int)
    requires
        m > 0,
        0 <= rest < m,
        q * m + rest == total,
        cost >= 0,
    ensures
        0 <= cost % m < m,
        0 <= cost / m <= cost,
        rest + cost % m >= m ==> (q + cost / m + 1) * m + (rest + cost % m - m) == total + cost,
        rest + cost % m < m ==> (q + cost / m) * m + (rest + cost % m) == total + cost,
{
    lemma_fundamental_div_mod(cost, m);
    let a = cost / m;
    let b = cost % m;
    assert(cost == m * a + b);
    assert(0 <= b < m);
    assert(a >= 0) by (nonlinear_arith)
        requires
            cost == m * a + b,
            cost >= 0,
            0 <= b < m,
            m > 0,
    ;
    assert(a <= cost) by (nonlinear_arith)
        requires
            cost == m * a + b,
            a >= 0,
            0 <= b,
            m >= 1,
    ;
    assert((q + a + 1) * m == q * m + m * a + m) by (nonlinear_arith);
    assert((q + a) * m == q * m + m * a) by (nonlinear_arith);
}

/// A quotient is bounded by what bounds each of the entries that its total
/// is made of.
proof fn lemma_mean_bounded(q: int, rest: int, m: int, total: int, r: int, bound: int)
    requires
        m > 0,
        0 <= rest,
        q * m + rest == total,
        0 <= total <= r * bound,
        0 <= r <= m,
        0 <= bound,
    ensures
        q <= bound,
        total >= 0 && rest < m ==> q >= 0,
{
    assert(r * bound <= m * bound) by (nonlinear_arith)
        requires
            0 <= r <= m,
            0 <= bound,
    ;
    assert(q <= bound) by (nonlinear_arith)
        requires
            q * m + rest <= m * bound,
            0 <= rest,
            m > 0,
    ;
    if total >= 0 && rest < m {
        assert(q >= 0) by (nonlinear_arith)
            requires
                q * m + rest >= 0,
                rest < m,
                m > 0,
        ;
    }
}

/// One run of the greedy assigner from nothing: the lists it builds, and
/// the cost of the partition.
fn run_once(
    clusters: &mut Grid,
    similarity: &Similarity,
    logits: &LogitWeights,
    order: &Vec<Element>,
    no_clusters: usize,
) -> (made: (Vec<Vec<Element>>, u128))
    requires
        similarity.wf(),
        logits.wf(),
        old(clusters).width() == similarity.width() == logits.width(),
        old(clusters).height() == similarity.height() == logits.height(),
        is_order(order@, old(clusters).width(), old(clusters).height()),
        no_clusters > 0 || old(clusters).width() * old(clusters).height() == 0,
    ensures
        final(clusters).width() == old(clusters).width(),
        final(clusters).height() == old(clusters).height(),
        lists(made.0) == greedy_lists(
            &PairWeights::Logit(logits),
            Seq::empty(),
            order@,
            no_clusters as nat,
        ),
        complete(
            grid_cells(*final(clusters)),
            lists(made.0),
            old(clusters).width(),
            old(clusters).height(),
        ),
        made.1 == greedy_cost(similarity, logits, order@, no_clusters as nat),
        made.1 == total_cost(grid_cells(*final(clusters)), similarity),
        made.1 <= usize::MAX * SCALE,
        made.0@.len() <= no_clusters,
{
    let ghost w = clusters.width();
    let ghost h = clusters.height();
    let ghost cells0 = grid_cells(*clusters);
    let mut trial: Vec<Vec<Element>> = Vec::new();
    proof {
        assert(lists(trial) =~= Seq::<Seq<Element>>::empty());
        if order@.len() > 0 {
            assert(in_grid(order@[0], w, h));
            assert(w * h > 0) by (nonlinear_arith)
                requires
                    w > 0,
                    h > 0,
            ;
        }
    }
    let voted = cc_vote_logarithmic(clusters, &mut trial, logits, order, no_clusters);
    let cost = cluster_total_distance(clusters, similarity).unwrap();
    proof {
        let weights = PairWeights::Logit(logits);
        let cells = grid_cells(*clusters);
        let blank = greedy_cells(
            &weights,
            Map::empty(),
            Seq::empty(),
            order@,
            no_clusters as nat,
        );
        assert forall|e: Element| similarity.has(e) implies label(cells, e) == label(blank, e) by {
            lemma_greedy_cells_of_order(
                &weights,
                cells0,
                Map::empty(),
                Seq::empty(),
                order@,
                no_clusters as nat,
                e,
            );
        }
        lemma_count_fits(similarity);
        lemma_rows_cost_depends_on_labels(
            cells,
            blank,
            similarity,
            similarity.count(),
            similarity.count(),
        );
        lemma_total_cost_bounds(cells, similarity);
        assert forall|e: Element| in_grid(e, w, h) implies #[trigger] listed(
            cells,
            lists(trial),
            e,
        ) by {
            assert(order@.contains(e));
        }
    }
    (trial, cost)
}

/// Runs the greedy assigner once for each of `orders`, each time from
/// nothing, and keeps the partition of lowest cost, the first such. Returns
/// the cost of that partition and the mean of the costs of all runs,
/// rounded down. A grid whose shape is not that of the scores and of the
/// weights is rejected and nothing changes.
pub fn greedy_cc_orders(
    clusters: &mut Grid,
    cluster_indices: &mut Vec<Vec<Element>>,
    similarity: &Similarity,
    logits: &LogitWeights,
    orders: &Vec<Vec<Element>>,
    no_clusters: usize,
) -> (found: Result<(u128, u128), ClusterError>)
    requires
        similarity.wf(),
        logits.wf(),
        orders@.len() > 0,
        forall|r: int|
            0 <= r < orders@.len() ==> is_order(
                (#[trigger] orders@[r])@,
                old(clusters).width(),
                old(clusters).height(),
            ),
        no_clusters > 0 || old(clusters).width() * old(clusters).height() == 0,
    ensures
        final(clusters).width() == old(clusters).width(),
        final(clusters).height() == old(clusters).height(),
        found.is_ok() <==> {
            &&& old(clusters).width() == similarity.width() == logits.width()
            &&& old(clusters).height() == similarity.height() == logits.height()
        },
        found.is_err() ==> found == Err::<(u128, u128), ClusterError>(
            ClusterError::InvalidDimensions,
        ) && *final(clusters) == *old(clusters) && *final(cluster_indices) == *old(
            cluster_indices,
        ),
        found matches Ok((best, average)) ==> {
            &&& best_of_runs(
                similarity,
                logits,
                lists(*orders),
                no_clusters as nat,
                grid_cells(*final(clusters)),
                lists(*final(cluster_indices)),
                best as int,
                average as int,
            )
            &&& best <= average
            &&& final(cluster_indices)@.len() <= no_clusters
        },
{
    let (width, height) = clusters.dim();
    let (sim_width, sim_height) = similarity.dim();
    let (logits_width, logits_height) = logits.dim();
    if width != sim_width || height != sim_height || width != logits_width || height
        != logits_height {
        return Err(ClusterError::InvalidDimensions);
    }
    let ghost w = width as nat;
    let ghost h = height as nat;
    let ghost cap = no_clusters as nat;
    let ghost plans = lists(*orders);
    let ghost costs = run_costs(similarity, logits, plans, cap);
    let ghost bound = usize::MAX * SCALE;
    let runs: usize = orders.len();
    let m: u128 = runs as u128;

    // Initial run
    let (first_lists, first_cost) = run_once(
        clusters,
        similarity,
        logits,
        &orders[0],
        no_clusters,
    );
    let mut clusters_star = clusters.copy();
    let mut clusters_star_cost = first_cost;
    let mut cluster_star_indices = first_lists;
    let mut quotient: u128 = first_cost / m;
    let mut rest: u128 = first_cost % m;
    let ghost mut star: int = 0;
    proof {
        assert(plans[0] == orders@[0]@);
        assert(costs.take(1) =~= seq![costs[0]]);
        assert(costs.take(1).drop_last() =~= Seq::<int>::empty());
        assert(sum_of(costs.take(1)) == costs[0]) by {
            assert(sum_of(costs.take(1).drop_last()) == 0);
        }
        lemma_mean_step(0, 0, m as int, 0, first_cost as int);
        assert(quotient * m + rest == first_cost) by {
            lemma_fundamental_div_mod(first_cost as int, m as int);
            assert(m as int * (first_cost as int / m as int) == (first_cost as int / m as int)
                * m as int) by (nonlinear_arith);
        }
    }
    let mut r: usize = 1;
    while r < runs
        invariant
            similarity.wf(),
            logits.wf(),
            clusters.width() == similarity.width() == logits.width() == w,
            clusters.height() == similarity.height() == logits.height() == h,
            forall|j: int| 0 <= j < orders@.len() ==> is_order((#[trigger] orders@[j])@, w, h),
            no_clusters > 0 || w * h == 0,
            cap == no_clusters,
            plans == lists(*orders),
            costs == run_costs(similarity, logits, plans, cap),
            bound == usize::MAX * SCALE,
            runs == orders@.len(),
            m == runs,
            1 <= r <= runs,
            is_first_least(costs.take(r as int), star),
            lists(cluster_star_indices) == greedy_lists(
                &PairWeights::Logit(logits),
                Seq::empty(),
                plans[star],
                cap,
            ),
            clusters_star.width() == w,
            clusters_star.height() == h,
            complete(grid_cells(clusters_star), lists(cluster_star_indices), w, h),
            clusters_star_cost == costs[star],
            clusters_star_cost == total_cost(grid_cells(clusters_star), similarity),
            cluster_star_indices@.len() <= no_clusters,
            quotient * m + rest == sum_of(costs.take(r as int)),
            rest < m,
            0 <= sum_of(costs.take(r as int)) <= r * bound,
        decreases runs - r,
    {
        let (trial, cost) = run_once(clusters, similarity, logits, &orders[r], no_clusters);
        proof {
            assert(plans[r as int] == orders@[r as int]@);
            assert(cost == costs[r as int]);
            assert(costs.take(r + 1).drop_last() =~= costs.take(r as int));
            assert(sum_of(costs.take(r + 1)) == sum_of(costs.take(r as int)) + cost);
            lemma_mean_step(
                quotient as int,
                rest as int,
                m as int,
                sum_of(costs.take(r as int)),
                cost as int,
            );
            lemma_mean_bounded(
                quotient as int,
                rest as int,
                m as int,
                sum_of(costs.take(r as int)),
                r as int,
                bound,
            );
            assert((r + 1) * bound == r * bound + bound) by (nonlinear_arith);
        }
        quotient = quotient + cost / m;
        rest = rest + cost % m;
        if rest >= m {
            rest = rest - m;
            quotient = quotient + 1;
        }
        // Minimize cluster configuration
        if clusters_star_cost > cost {
            clusters_star = clusters.copy();
            clusters_star_cost = cost;
            cluster_star_indices = trial;
            proof {
                star = r as int;
            }
        }
        proof {
            let before = costs.take(r as int);
            let now = costs.take(r + 1);
            assert forall|j: int| 0 <= j < now.len() implies {
                &&& #[trigger] now[j] >= now[star]
                &&& j < star ==> now[j] > now[star]
            } by {
                if j < r {
                    assert(before[j] == now[j]);
                }
            }
        }
        r += 1;
    }
    proof {
        assert(costs.take(r as int) =~= costs);
        lemma_first_least_unique(costs, star, first_least(costs));
        lemma_fundamental_div_mod_converse(
            sum_of(costs),
            m as int,
            quotient as int,
            rest as int,
        );
        lemma_sum_at_least(costs, clusters_star_cost as int);
        assert(clusters_star_cost <= quotient) by (nonlinear_arith)
            requires
                quotient * m + rest >= m * clusters_star_cost,
                rest < m,
                m > 0,
        ;
    }
    *clusters = clusters_star;
    *cluster_indices = cluster_star_indices;
    Ok((clusters_star_cost, quotient))
}

/// Runs the greedy assigner `iterations` times, and once when `iterations`
/// is zero, each time from nothing and over a fresh random order of the
/// elements, and keeps the partition of lowest cost. Returns the cost of
/// that partition and the mean of the costs of all runs, rounded down.
/// Which orders are drawn is left to the sampler; what is stated holds
/// whichever they are. A grid whose shape is not that of the scores and of
/// the weights is rejected and nothing changes.
pub fn greedy_cc_iterations(
    clusters: &mut Grid,
    cluster_indices: &mut Vec<Vec<Element>>,
    similarity: &Similarity,
    logits: &LogitWeights,
    iterations: usize,
    no_clusters: usize,
) -> (found: Result<(u128, u128), ClusterError>)
    requires
        similarity.wf(),
        logits.wf(),
        no_clusters > 0 || old(clusters).width() * old(clusters).height() == 0,
    ensures
        final(clusters).width() == old(clusters).width(),
        final(clusters).height() == old(clusters).height(),
        found.is_ok() <==> {
            &&& old(clusters).width() == similarity.width() == logits.width()
            &&& old(clusters).height() == similarity.height() == logits.height()
        },
        found.is_err() ==> found == Err::<(u128, u128), ClusterError>(
            ClusterError::InvalidDimensions,
        ) && *final(clusters) == *old(clusters) && *final(cluster_indices) == *old(
            cluster_indices,
        ),
        found matches Ok((best, average)) ==> {
            &&& complete(
                grid_cells(*final(clusters)),
                lists(*final(cluster_indices)),
                old(clusters).width(),
                old(clusters).height(),
            )
            &&& best == total_cost(grid_cells(*final(clusters)), similarity)
            &&& best <= average
            &&& iterations <= 1 ==> best == average
            &&& final(cluster_indices)@.len() <= no_clusters
            &&& old(clusters).width() * old(clusters).height() == 0
                ==> final(cluster_indices)@.len() == 0
            &&& exists|plans: Seq<Seq<Element>>|
                are_orders(
                    plans,
                    runs_of(iterations),
                    old(clusters).width(),
                    old(clusters).height(),
                ) && #[trigger] best_of_runs(
                    similarity,
                    logits,
                    plans,
                    no_clusters as nat,
                    grid_cells(*final(clusters)),
                    lists(*final(cluster_indices)),
                    best as int,
                    average as int,
                )
        },
{
    let (width, height) = clusters.dim();
    let (sim_width, sim_height) = similarity.dim();
    let (logits_width, logits_height) = logits.dim();
    if width != sim_width || height != sim_height || width != logits_width || height
        != logits_height {
        return Err(ClusterError::InvalidDimensions);
    }
    proof {
        lemma_count_fits(similarity);
        let n = similarity.count() as int;
        assert(n <= u32::MAX) by (nonlinear_arith)
            requires
                0 <= n,
                n * n <= 0xFFFF_FFFF_FFFF_FFFF,
        ;
    }
    let all = indices(width, height);
    let runs: usize = if iterations == 0 {
        1
    } else {
        iterations
    };
    let mut orders: Vec<Vec<Element>> = Vec::new();
    while orders.len() < runs
        invariant
            width * height <= u32::MAX,
            all@ == all_elements(width as nat, height as nat),
            orders@.len() <= runs,
            forall|j: int|
                0 <= j < orders@.len() ==> is_order(
                    (#[trigger] orders@[j])@,
                    width as nat,
                    height as nat,
                ),
        decreases runs - orders@.len(),
    {
        let picks = index_permutations(all.len());
        let order = permuted(&all, &picks, width, height);
        orders.push(order);
    }
    let found = greedy_cc_orders(
        clusters,
        cluster_indices,
        similarity,
        logits,
        &orders,
        no_clusters,
    );
    proof {
        let plans = lists(orders);
        assert forall|r: int| 0 <= r < plans.len() implies is_order(
            #[trigger] plans[r],
            width as nat,
            height as nat,
        ) by {
            assert(plans[r] == orders@[r]@);
        }
        assert(are_orders(plans, runs as nat, width as nat, height as nat));
        if width * height == 0 {
            let costs = run_costs(similarity, logits, lists(orders), no_clusters as nat);
            let k = first_least(costs);
            let order = lists(orders)[k];
            assert(order == orders@[k]@);
            if order.len() > 0 {
                assert(in_grid(order[0], width as nat, height as nat));
                assert(width * height > 0) by (nonlinear_arith)
                    requires
                        width > 0,
                        height > 0,
                ;
            }
            assert(lists(*cluster_indices).len() == 0);
        }
        if iterations <= 1 {
            let costs = run_costs(similarity, logits, lists(orders), no_clusters as nat);
            assert(costs.drop_last() =~= Seq::<int>::empty());
            assert(sum_of(costs) == costs[0]) by {
                assert(sum_of(costs.drop_last()) == 0);
            }
        }
    }
    found
}

/// Refines a partition by local search and returns the cost it ends at.
pub fn boem_cc_iterations(
    clusters: &mut Grid,
    cluster_indices: &mut Vec<Vec<Element>>,
    similarity: &Similarity,
) -> (cost: Result<u128, ClusterError>)
    requires
        similarity.wf(),
        complete(
            grid_cells(*old(clusters)),
            lists(*old(cluster_indices)),
            old(clusters).width(),
            old(clusters).height(),
        ),
    ensures
        final(clusters).width() == old(clusters).width(),
        final(clusters).height() == old(clusters).height(),
        final(cluster_indices)@.len() == old(cluster_indices)@.len(),
        cost.is_ok() <==> old(clusters).width() == similarity.width() && old(clusters).height()
            == similarity.height(),
        cost.is_err() ==> cost == Err::<u128, ClusterError>(ClusterError::InvalidDimensions)
            && *final(clusters) == *old(clusters) && *final(cluster_indices) == *old(
            cluster_indices,
        ),
        cost matches Ok(c) ==> {
            &&& grid_cells(*final(clusters)) == local_search(
                similarity,
                grid_cells(*old(clusters)),
                lists(*old(cluster_indices)),
            ).cells
            &&& lists(*final(cluster_indices)) == local_search(
                similarity,
                grid_cells(*old(clusters)),
                lists(*old(cluster_indices)),
            ).lists
            &&& complete(
                grid_cells(*final(clusters)),
                lists(*final(cluster_indices)),
                old(clusters).width(),
                old(clusters).height(),
            )
            &&& c == total_cost(grid_cells(*final(clusters)), similarity)
        },
{
    match cc_boem(clusters, cluster_indices, similarity) {
        Ok(()) => cluster_total_distance(clusters, similarity),
        Err(e) => Err(e),
    }
}

/// By how much the best cost lies below the average cost, in millionths of
/// the average; zero when the average is zero.
pub fn improvement(best: u128, average: u128) -> (gain: u128)
    requires
        best <= average,
        average <= usize::MAX * SCALE,
    ensures
        gain == if average == 0 {
            0
        } else {
            (average - best) * 1_000_000 / (average as int)
        },
        gain <= 1_000_000,
        best == average ==> gain == 0,
{
    if average == 0 {
        0
    } else {
        let gap: u128 = average - best;
        proof {
            assert(gap * 1_000_000 <= average * 1_000_000) by (nonlinear_arith)
                requires
                    gap <= average,
            ;
            lemma_div_is_ordered(
                gap * 1_000_000,
                average * 1_000_000,
                average as int,
            );
            lemma_div_multiples_vanish(1_000_000, average as int);
            assert(average * 1_000_000 == 1_000_000 * average) by (nonlinear_arith);
        }
        gap * 1_000_000 / average
    }
}

/// What a whole run gives back: the refined partition, the cost of the best
/// greedy partition, the mean cost of the greedy partitions, and the cost
/// of the refined partition.
pub struct Clustering {
    pub clusters: Grid,
    pub cluster_indices: Vec<Vec<Element>>,
    pub best_cost: u128,
    pub average_cost: u128,
    pub final_cost: u128,
}

/// Clusters the elements of a `width` by `height` grid: the best of
/// `iterations` greedy partitions over random orders, refined by local
/// search. Scores or weights that are not for a grid of that shape are
/// rejected. A grid without elements gives the empty partition at cost
/// zero.
pub fn run(
    width: usize,
    height: usize,
    similarity: &Similarity,
    logits: &LogitWeights,
    iterations: usize,
    no_clusters: usize,
) -> (made: Result<Clustering, ClusterError>)
    requires
        similarity.wf(),
        logits.wf(),
        no_clusters > 0 || width * height == 0,
    ensures
        made.is_ok() <==> {
            &&& width == similarity.width() == logits.width()
            &&& height == similarity.height() == logits.height()
            &&& width <= isize::MAX && height <= isize::MAX
        },
        made matches Err(e) ==> e == ClusterError::InvalidDimensions,
        made matches Ok(c) ==> {
            &&& c.clusters.width() == width
            &&& c.clusters.height() == height
            &&& complete(
                grid_cells(c.clusters),
                lists(c.cluster_indices),
                width as nat,
                height as nat,
            )
            &&& c.final_cost == total_cost(grid_cells(c.clusters), similarity)
            &&& c.best_cost <= c.average_cost
            &&& iterations <= 1 ==> c.best_cost == c.average_cost
            &&& c.cluster_indices@.len() <= no_clusters
            &&& width * height == 0 ==> c.final_cost == 0 && c.cluster_indices@.len() == 0
            &&& refined_best_of_runs(
                similarity,
                logits,
                runs_of(iterations),
                no_clusters as nat,
                grid_cells(c.clusters),
                lists(c.cluster_indices),
                c.best_cost as int,
                c.average_cost as int,
            )
        },
{
    let (sim_width, sim_height) = similarity.dim();
    let (logits_width, logits_height) = logits.dim();
    if width != sim_width || height != sim_height || width != logits_width || height
        != logits_height {
        return Err(ClusterError::InvalidDimensions);
    }
    proof {
        lemma_count_fits(similarity);
        let n = similarity.count() as int;
        assert(n <= isize::MAX) by (nonlinear_arith)
            requires
                n * n <= usize::MAX,
                usize::MAX == 2 * isize::MAX + 1,
                n >= 0,
        ;
    }
    let mut clusters = match Grid::zeros(width, height) {
        Some(grid) => grid,
        None => {
            return Err(ClusterError::InvalidDimensions);
        },
    };
    let mut cluster_indices: Vec<Vec<Element>> = Vec::new();
    let found = greedy_cc_iterations(
        &mut clusters,
        &mut cluster_indices,
        similarity,
        logits,
        iterations,
        no_clusters,
    );
    let (best_cost, average_cost) = found.unwrap();
    let ghost before = grid_cells(clusters);
    let ghost greedy = lists(cluster_indices);
    let ghost plans = choose|plans: Seq<Seq<Element>>|
        are_orders(plans, runs_of(iterations), width as nat, height as nat)
            && #[trigger] best_of_runs(
            similarity,
            logits,
            plans,
            no_clusters as nat,
            before,
            greedy,
            best_cost as int,
            average_cost as int,
        );
    let refined = boem_cc_iterations(&mut clusters, &mut cluster_indices, similarity);
    let final_cost = refined.unwrap();
    proof {
        assert(are_orders(plans, runs_of(iterations), similarity.width(), similarity.height())
            && best_of_runs(
            similarity,
            logits,
            plans,
            no_clusters as nat,
            before,
            greedy,
            best_cost as int,
            average_cost as int,
        ) && grid_cells(clusters) == local_search(similarity, before, greedy).cells && lists(
            cluster_indices,
        ) == local_search(similarity, before, greedy).lists);
        assert(refined_best_of_runs(
            similarity,
            logits,
            runs_of(iterations),
            no_clusters as nat,
            grid_cells(clusters),
            lists(cluster_indices),
            best_cost as int,
            average_cost as int,
        ));
        if width * height == 0 {
            assert(total_cost(grid_cells(clusters), similarity) == 0);
        }
    }
    Ok(Clustering { clusters, cluster_indices, best_cost, average_cost, final_cost })
}

} // verus!
