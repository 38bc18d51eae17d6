//! Local search by best one-element moves: while some element can move to
//! another cluster at a gain, the move of largest cached gain is made.

use crate::elements::{
    all_elements, element_at, flat, indices, lemma_element_of_flat, lemma_flat_injective,
    lemma_flat_of_element,
};
use crate::grid::{grid_cells, in_grid, Element, Grid};
use crate::moves::law_move_changes_cost_by_net_distance;
use crate::objective::{label, lemma_pair_cost_bounds, total_cost, uninformative};
use crate::partition::{
    complete, lemma_place_keeps, listed, lists, members_wf, place, relabel, unlisted,
};
use crate::similarity::{lemma_count_fits, ClusterError, Similarity, SCALE};
use vstd::prelude::*;

verus! {

/// The number of rounds after which the search stops even if a move at a
/// gain is left.
pub const MAX_ROUNDS: usize = 10_000;

/// How strongly element `i` is tied to the elements of `list`: the sum of
/// its additive weights with each of them, `i` itself left out.
pub open spec fn affinity(sim: &Similarity, i: Element, list: Seq<Element>) -> int
    decreases list.len(),
{
    if list.len() == 0 {
        0
    } else {
        affinity(sim, i, list.drop_last()) + if list.last() == i {
            0
        } else {
            sim.weight(i, list.last())
        }
    }
}

/// The net distance of moving `i` from cluster `c0` to cluster `c1`: twice
/// what ties it to `c0` less what ties it to `c1`. Negative when the move
/// is a gain; zero when `c1` is `c0`.
pub open spec fn net_distance(
    sim: &Similarity,
    lists: Seq<Seq<Element>>,
    c0: int,
    c1: int,
    i: Element,
) -> int {
    2 * (affinity(sim, i, lists[c0]) - affinity(sim, i, lists[c1]))
}

/// A cached move of one element: the cluster to go to and the net distance
/// of going there.
pub struct Candidate {
    pub dest: usize,
    pub net: int,
}

/// Moving `i` from `c0` to cluster `c` is a gain.
pub open spec fn improves(
    sim: &Similarity,
    lists: Seq<Seq<Element>>,
    i: Element,
    c0: int,
    c: int,
) -> bool {
    0 <= c < lists.len() && net_distance(sim, lists, c0, c, i) < 0
}

/// Cluster `c` is the best destination for `i`: going there is a gain, no
/// cluster has a smaller net distance, and every earlier cluster has a
/// larger one.
pub open spec fn is_best_move(
    sim: &Similarity,
    lists: Seq<Seq<Element>>,
    i: Element,
    c0: int,
    c: int,
) -> bool {
    &&& improves(sim, lists, i, c0, c)
    &&& forall|d: int|
        0 <= d < lists.len() ==> {
            &&& #[trigger] net_distance(sim, lists, c0, d, i) >= net_distance(sim, lists, c0, c, i)
            &&& d < c ==> net_distance(sim, lists, c0, d, i) > net_distance(sim, lists, c0, c, i)
        }
}

/// The best move of element `i` of cluster `c0`: its best destination with
/// the net distance of going there, or to stay where it is, at net distance
/// zero, when no move is a gain.
pub open spec fn best_move(
    sim: &Similarity,
    lists: Seq<Seq<Element>>,
    i: Element,
    c0: int,
) -> Candidate {
    if exists|c: int| improves(sim, lists, i, c0, c) {
        let c = choose|c: int| is_best_move(sim, lists, i, c0, c);
        Candidate { dest: c as usize, net: net_distance(sim, lists, c0, c, i) }
    } else {
        Candidate { dest: c0 as usize, net: 0 }
    }
}

/// The cached net distance of the element at position `p` of the canonical
/// order.
pub open spec fn net_at(table: Map<Element, Candidate>, p: int, height: nat) -> int {
    table[element_at(p, height)].net
}

/// No cached move is a gain.
pub open spec fn settled(table: Map<Element, Candidate>, count: nat, height: nat) -> bool {
    forall|p: int| 0 <= p < count ==> #[trigger] net_at(table, p, height) >= 0
}

/// Position `p` holds the element to move: its cached net distance is
/// negative, none is smaller, and every earlier one is larger.
pub open spec fn is_pick(table: Map<Element, Candidate>, count: nat, height: nat, p: int) -> bool {
    &&& 0 <= p < count
    &&& net_at(table, p, height) < 0
    &&& forall|q: int|
        0 <= q < count ==> {
            &&& #[trigger] net_at(table, q, height) >= net_at(table, p, height)
            &&& q < p ==> net_at(table, q, height) > net_at(table, p, height)
        }
}

/// A list without its occurrence of `e`.
pub open spec fn without(list: Seq<Element>, e: Element) -> Seq<Element> {
    list.remove(list.index_of(e))
}

/// The lists after `i` leaves cluster `c0` for cluster `c1`: taken out of
/// list `c0`, whose other members keep their order, and appended to list
/// `c1`.
pub open spec fn transfer(lists: Seq<Seq<Element>>, c0: int, c1: int, i: Element) -> Seq<
    Seq<Element>,
> {
    place(lists.update(c0, without(lists[c0], i)), c1, i)
}

/// The cache after a move between clusters `c0` and `c1`: the best move is
/// computed anew for the elements of those two clusters, and the entries of
/// all other elements stay as they were.
pub open spec fn refresh(
    sim: &Similarity,
    table: Map<Element, Candidate>,
    cells: Map<(int, int), usize>,
    lists: Seq<Seq<Element>>,
    c0: usize,
    c1: usize,
) -> Map<Element, Candidate> {
    Map::new(
        |e: Element| true,
        |e: Element|
            if label(cells, e) == c0 || label(cells, e) == c1 {
                best_move(sim, lists, e, label(cells, e) as int)
            } else {
                table[e]
            },
    )
}

/// The state of the search: the partition and the cached move of each
/// element.
pub struct SearchState {
    pub cells: Map<(int, int), usize>,
    pub lists: Seq<Seq<Element>>,
    pub table: Map<Element, Candidate>,
}

/// The state before the first round: the best move is computed for every
/// element.
pub open spec fn start(
    sim: &Similarity,
    cells: Map<(int, int), usize>,
    lists: Seq<Seq<Element>>,
) -> SearchState {
    SearchState {
        cells,
        lists,
        table: Map::new(
            |e: Element| true,
            |e: Element| best_move(sim, lists, e, label(cells, e) as int),
        ),
    }
}

/// One round. When no cached move is a gain the state stays as it is.
/// Otherwise the element with the smallest cached net distance, the first
/// such in canonical order, moves to its cached destination, and the cache
/// is refreshed for the two clusters involved.
pub open spec fn step(sim: &Similarity, s: SearchState) -> SearchState {
    if settled(s.table, sim.count(), sim.height()) {
        s
    } else {
        let p = choose|p: int| is_pick(s.table, sim.count(), sim.height(), p);
        let i = element_at(p, sim.height());
        let c0 = label(s.cells, i);
        let c1 = s.table[i].dest;
        let cells = relabel(s.cells, i, c1);
        let lists = transfer(s.lists, c0 as int, c1 as int, i);
        SearchState { cells, lists, table: refresh(sim, s.table, cells, lists, c0, c1) }
    }
}

/// The state after `rounds` rounds.
pub open spec fn run(sim: &Similarity, s: SearchState, rounds: nat) -> SearchState
    decreases rounds,
{
    if rounds == 0 {
        s
    } else {
        step(sim, run(sim, s, (rounds - 1) as nat))
    }
}

/// The state the search ends in: that after `MAX_ROUNDS` rounds, which is
/// the first state without a cached gain if one is reached before.
pub open spec fn local_search(
    sim: &Similarity,
    cells: Map<(int, int), usize>,
    lists: Seq<Seq<Element>>,
) -> SearchState {
    run(sim, start(sim, cells, lists), MAX_ROUNDS as nat)
}

/// Every cached destination is a cluster, and a cached gain never leads to
/// the cluster the element is in.
pub open spec fn table_ok(s: SearchState, width: nat, height: nat) -> bool {
    forall|e: Element|
        in_grid(e, width, height) ==> (#[trigger] s.table[e]).dest < s.lists.len() && (s.table[e].net
            < 0 ==> s.table[e].dest != label(s.cells, e))
}

/// The partition of a state is complete and its cache is sound.
pub open spec fn state_ok(sim: &Similarity, s: SearchState) -> bool {
    &&& complete(s.cells, s.lists, sim.width(), sim.height())
    &&& table_ok(s, sim.width(), sim.height())
}

/// Among the first `k` clusters, finds the best destination for `i`, or
/// `-1` when none of them is a gain.
proof fn lemma_best_move_among(
    sim: &Similarity,
    lists: Seq<Seq<Element>>,
    i: Element,
    c0: int,
    k: nat,
) -> (c: int)
    requires
        k <= lists.len(),
    ensures
        -1 <= c < k,
        c == -1 ==> forall|d: int|
            0 <= d < k ==> #[trigger] net_distance(sim, lists, c0, d, i) >= 0,
        c >= 0 ==> improves(sim, lists, i, c0, c) && forall|d: int|
            0 <= d < k ==> {
                &&& #[trigger] net_distance(sim, lists, c0, d, i) >= net_distance(
                    sim,
                    lists,
                    c0,
                    c,
                    i,
                )
                &&& d < c ==> net_distance(sim, lists, c0, d, i) > net_distance(
                    sim,
                    lists,
                    c0,
                    c,
                    i,
                )
            },
    decreases k,
{
    if k == 0 {
        -1
    } else {
        let before = lemma_best_move_among(sim, lists, i, c0, (k - 1) as nat);
        let last = k - 1;
        let net = net_distance(sim, lists, c0, last, i);
        if before == -1 {
            if net < 0 {
                last
            } else {
                -1
            }
        } else if net < net_distance(sim, lists, c0, before, i) {
            last
        } else {
            before
        }
    }
}

/// At most one cluster is the best destination for an element.
pub proof fn lemma_best_move_unique(
    sim: &Similarity,
    lists: Seq<Seq<Element>>,
    i: Element,
    c0: int,
    c: int,
    d: int,
)
    requires
        is_best_move(sim, lists, i, c0, c),
        is_best_move(sim, lists, i, c0, d),
    ensures
        c == d,
{
    assert(net_distance(sim, lists, c0, d, i) >= net_distance(sim, lists, c0, c, i));
    assert(net_distance(sim, lists, c0, c, i) >= net_distance(sim, lists, c0, d, i));
}

/// The best move of an element leads to a cluster and is never a loss; when
/// it is a gain it is the best destination, which is not the cluster the
/// element is in.
pub proof fn lemma_best_move_ok(sim: &Similarity, lists: Seq<Seq<Element>>, i: Element, c0: int)
    requires
        0 <= c0 < lists.len(),
        lists.len() <= usize::MAX,
    ensures
        best_move(sim, lists, i, c0).dest < lists.len(),
        best_move(sim, lists, i, c0).net <= 0,
        best_move(sim, lists, i, c0).net < 0 ==> {
            &&& best_move(sim, lists, i, c0).dest != c0
            &&& is_best_move(sim, lists, i, c0, best_move(sim, lists, i, c0).dest as int)
            &&& best_move(sim, lists, i, c0).net == net_distance(
                sim,
                lists,
                c0,
                best_move(sim, lists, i, c0).dest as int,
                i,
            )
        },
        best_move(sim, lists, i, c0).net == 0 ==> {
            &&& best_move(sim, lists, i, c0).dest == c0
            &&& forall|d: int| 0 <= d < lists.len() ==> !improves(sim, lists, i, c0, d)
        },
{
    let found = lemma_best_move_among(sim, lists, i, c0, lists.len());
    if found >= 0 {
        assert(is_best_move(sim, lists, i, c0, found));
        let c = choose|c: int| is_best_move(sim, lists, i, c0, c);
        lemma_best_move_unique(sim, lists, i, c0, c, found);
    }
}

/// Among the first `k` positions, finds the element to move, or `-1` when
/// none of them has a cached gain.
proof fn lemma_pick_among(table: Map<Element, Candidate>, height: nat, k: nat) -> (p: int)
    ensures
        -1 <= p < k,
        p == -1 ==> forall|q: int| 0 <= q < k ==> #[trigger] net_at(table, q, height) >= 0,
        p >= 0 ==> is_pick(table, k, height, p),
    decreases k,
{
    if k == 0 {
        -1
    } else {
        let before = lemma_pick_among(table, height, (k - 1) as nat);
        let last = k - 1;
        if before == -1 {
            if net_at(table, last, height) < 0 {
                last
            } else {
                -1
            }
        } else if net_at(table, last, height) < net_at(table, before, height) {
            last
        } else {
            before
        }
    }
}

/// At most one position holds the element to move.
pub proof fn lemma_pick_unique(
    table: Map<Element, Candidate>,
    count: nat,
    height: nat,
    p: int,
    q: int,
)
    requires
        is_pick(table, count, height, p),
        is_pick(table, count, height, q),
    ensures
        p == q,
{
    assert(net_at(table, q, height) >= net_at(table, p, height));
    assert(net_at(table, p, height) >= net_at(table, q, height));
}

/// Unless the state is settled, some position holds the element to move.
pub proof fn lemma_pick_exists(table: Map<Element, Candidate>, count: nat, height: nat) -> (p: int)
    requires
        !settled(table, count, height),
    ensures
        is_pick(table, count, height, p),
        p == choose|p: int| is_pick(table, count, height, p),
{
    let p = lemma_pick_among(table, height, count);
    let chosen = choose|p: int| is_pick(table, count, height, p);
    lemma_pick_unique(table, count, height, p, chosen);
    p
}

/// A move between two clusters keeps the partition complete.
pub proof fn lemma_transfer_keeps_complete(
    cells: Map<(int, int), usize>,
    lists: Seq<Seq<Element>>,
    width: nat,
    height: nat,
    i: Element,
    c1: usize,
)
    requires
        complete(cells, lists, width, height),
        in_grid(i, width, height),
        c1 < lists.len(),
        c1 != label(cells, i),
    ensures
        complete(
            relabel(cells, i, c1),
            transfer(lists, label(cells, i) as int, c1 as int, i),
            width,
            height,
        ),
        transfer(lists, label(cells, i) as int, c1 as int, i).len() == lists.len(),
        unlisted(lists.update(label(cells, i) as int, without(lists[label(cells, i) as int], i)), i),
        members_wf(
            cells,
            lists.update(label(cells, i) as int, without(lists[label(cells, i) as int], i)),
            width,
            height,
        ),
{
    let c0 = label(cells, i) as int;
    assert(listed(cells, lists, i));
    let at = lists[c0].index_of(i);
    assert(0 <= at < lists[c0].len() && lists[c0][at] == i);
    lists[c0].remove_ensures(at);
    let rest = without(lists[c0], i);
    let mid = lists.update(c0, rest);
    assert forall|c: int, k: int| 0 <= c < mid.len() && 0 <= k < mid[c].len() implies in_grid(
        #[trigger] mid[c][k],
        width,
        height,
    ) && label(cells, mid[c][k]) == c && mid[c][k] != i by {
        if c == c0 {
            if k < at {
                assert(mid[c][k] == lists[c0][k]);
            } else {
                assert(mid[c][k] == lists[c0][k + 1]);
            }
        } else {
            assert(mid[c][k] == lists[c][k]);
        }
    }
    assert forall|c: int, k: int, m: int|
        0 <= c < mid.len() && 0 <= k < m < mid[c].len() implies #[trigger] mid[c][k]
        != #[trigger] mid[c][m] by {
        if c == c0 {
            let k0 = if k < at {
                k
            } else {
                k + 1
            };
            let m0 = if m < at {
                m
            } else {
                m + 1
            };
            assert(mid[c][k] == lists[c0][k0]);
            assert(mid[c][m] == lists[c0][m0]);
        } else {
            assert(mid[c][k] == lists[c][k]);
            assert(mid[c][m] == lists[c][m]);
        }
    }
    assert(members_wf(cells, mid, width, height));
    assert(unlisted(mid, i));
    lemma_place_keeps(cells, mid, width, height, i, c1);
    let cells2 = relabel(cells, i, c1);
    let lists2 = transfer(lists, c0, c1 as int, i);
    assert forall|e: Element| in_grid(e, width, height) implies #[trigger] listed(
        cells2,
        lists2,
        e,
    ) by {
        if e != i {
            assert(listed(cells, lists, e));
            let d = label(cells, e) as int;
            let k = lists[d].index_of(e);
            assert(0 <= k < lists[d].len() && lists[d][k] == e);
            if d == c0 {
                if k < at {
                    assert(mid[d][k] == e);
                } else {
                    assert(k != at);
                    assert(mid[d][k - 1] == e);
                }
            } else {
                assert(mid[d][k] == e);
            }
            assert(listed(cells, mid, e));
        }
    }
}

/// At the start of the search the cache is sound.
pub proof fn lemma_start_ok(
    sim: &Similarity,
    cells: Map<(int, int), usize>,
    lists: Seq<Seq<Element>>,
)
    requires
        complete(cells, lists, sim.width(), sim.height()),
        lists.len() <= usize::MAX,
    ensures
        state_ok(sim, start(sim, cells, lists)),
{
    let s = start(sim, cells, lists);
    assert forall|e: Element| in_grid(e, sim.width(), sim.height()) implies (#[trigger] s.table[e]).dest
        < s.lists.len() && (s.table[e].net < 0 ==> s.table[e].dest != label(s.cells, e)) by {
        assert(listed(cells, lists, e));
        lemma_best_move_ok(sim, lists, e, label(cells, e) as int);
    }
}

/// A round keeps the partition complete, the cache sound and the number of
/// clusters.
pub proof fn lemma_step_keeps_ok(sim: &Similarity, s: SearchState)
    requires
        sim.wf(),
        state_ok(sim, s),
        s.lists.len() <= usize::MAX,
    ensures
        state_ok(sim, step(sim, s)),
        step(sim, s).lists.len() == s.lists.len(),
{
    let width = sim.width();
    let height = sim.height();
    if !settled(s.table, sim.count(), height) {
        lemma_count_fits(sim);
        let p = lemma_pick_exists(s.table, sim.count(), height);
        lemma_element_of_flat(p, width, height);
        let i = element_at(p, height);
        let c0 = label(s.cells, i);
        let c1 = s.table[i].dest;
        assert(net_at(s.table, p, height) < 0);
        assert(s.table[i].dest < s.lists.len());
        lemma_transfer_keeps_complete(s.cells, s.lists, width, height, i, c1);
        let t = step(sim, s);
        assert forall|e: Element| in_grid(e, width, height) implies (#[trigger] t.table[e]).dest
            < t.lists.len() && (t.table[e].net < 0 ==> t.table[e].dest != label(t.cells, e)) by {
            assert(listed(t.cells, t.lists, e));
            if label(t.cells, e) == c0 || label(t.cells, e) == c1 {
                lemma_best_move_ok(sim, t.lists, e, label(t.cells, e) as int);
            } else {
                assert(e != i);
                assert(t.table[e] == s.table[e]);
                assert(label(t.cells, e) == label(s.cells, e));
            }
        }
    }
}

/// Once no cached move is a gain, further rounds change nothing.
pub proof fn lemma_settled_stays(sim: &Similarity, s: SearchState, rounds: nat, more: nat)
    requires
        settled(run(sim, s, rounds).table, sim.count(), sim.height()),
    ensures
        run(sim, s, rounds + more) == run(sim, s, rounds),
    decreases more,
{
    if more > 0 {
        lemma_settled_stays(sim, s, rounds, (more - 1) as nat);
        assert(run(sim, s, rounds + more) == step(sim, run(sim, s, (rounds + more - 1) as nat)));
    }
}

/// Any number of rounds keeps the partition complete, the cache sound and
/// the number of clusters.
proof fn lemma_run_keeps_ok(sim: &Similarity, s: SearchState, rounds: nat)
    requires
        sim.wf(),
        state_ok(sim, s),
        s.lists.len() <= usize::MAX,
    ensures
        state_ok(sim, run(sim, s, rounds)),
        run(sim, s, rounds).lists.len() == s.lists.len(),
    decreases rounds,
{
    if rounds > 0 {
        lemma_run_keeps_ok(sim, s, (rounds - 1) as nat);
        lemma_step_keeps_ok(sim, run(sim, s, (rounds - 1) as nat));
    }
}

/// Local search keeps the partition: from a complete partition it ends at a
/// complete partition with as many clusters, in which every element stands
/// in the list of its cluster and in no other.
pub proof fn law_local_search_keeps_the_partition(
    sim: &Similarity,
    cells: Map<(int, int), usize>,
    lists: Seq<Seq<Element>>,
)
    requires
        sim.wf(),
        complete(cells, lists, sim.width(), sim.height()),
        lists.len() <= usize::MAX,
    ensures
        complete(
            local_search(sim, cells, lists).cells,
            local_search(sim, cells, lists).lists,
            sim.width(),
            sim.height(),
        ),
        local_search(sim, cells, lists).lists.len() == lists.len(),
{
    lemma_start_ok(sim, cells, lists);
    lemma_run_keeps_ok(sim, start(sim, cells, lists), MAX_ROUNDS as nat);
}

/// What ties an element to a list is bounded by the length of the list.
pub proof fn lemma_affinity_bounds(sim: &Similarity, i: Element, list: Seq<Element>)
    requires
        sim.wf(),
        sim.has(i),
        forall|k: int| 0 <= k < list.len() ==> sim.has(#[trigger] list[k]),
    ensures
        -(list.len() * SCALE) <= affinity(sim, i, list) <= list.len() * SCALE,
    decreases list.len(),
{
    if list.len() > 0 {
        lemma_affinity_bounds(sim, i, list.drop_last());
        lemma_pair_cost_bounds(Map::empty(), sim, i, list.last());
        assert(list.len() * SCALE == (list.len() - 1) * SCALE + SCALE) by (nonlinear_arith);
    }
}

/// Computes what ties element `i` to cluster `c`.
fn cluster_affinity(
    cluster_indices: &Vec<Vec<Element>>,
    similarity: &Similarity,
    c: usize,
    i: Element,
) -> (sum: i128)
    requires
        similarity.wf(),
        similarity.has(i),
        c < cluster_indices@.len(),
        forall|k: int|
            0 <= k < cluster_indices@[c as int]@.len() ==> similarity.has(
                #[trigger] cluster_indices@[c as int]@[k],
            ),
    ensures
        sum == affinity(similarity, i, cluster_indices@[c as int]@),
        -(usize::MAX * SCALE) <= sum <= usize::MAX * SCALE,
{
    let list = &cluster_indices[c];
    let mut sum: i128 = 0;
    let mut k: usize = 0;
    while k < list.len()
        invariant
            similarity.wf(),
            similarity.has(i),
            k <= list@.len(),
            forall|m: int| 0 <= m < list@.len() ==> similarity.has(#[trigger] list@[m]),
            sum == affinity(similarity, i, list@.take(k as int)),
        decreases list@.len() - k,
    {
        let j = list[k];
        proof {
            assert(list@.take(k + 1).drop_last() =~= list@.take(k as int));
            lemma_affinity_bounds(similarity, i, list@.take(k as int));
            lemma_affinity_bounds(similarity, i, list@.take(k + 1));
            assert(k * SCALE <= usize::MAX * SCALE) by (nonlinear_arith)
                requires
                    k <= usize::MAX,
            ;
            assert((k + 1) * SCALE <= usize::MAX * SCALE) by (nonlinear_arith)
                requires
                    k + 1 <= usize::MAX,
            ;
        }
        if i.0 != j.0 || i.1 != j.1 {
            let p: u32 = similarity.score(i, j);
            sum = sum + (2 * (p as i128) - (SCALE as i128));
        }
        k += 1;
    }
    proof {
        assert(list@.take(k as int) =~= list@);
        lemma_affinity_bounds(similarity, i, list@);
        assert(list@.len() * SCALE <= usize::MAX * SCALE) by (nonlinear_arith)
            requires
                list@.len() <= usize::MAX,
        ;
    }
    sum
}

/// Computes the net distance of moving element `i` from cluster `c0` to
/// cluster `c1`.
fn net_cluster_distance(
    cluster_indices: &Vec<Vec<Element>>,
    similarity: &Similarity,
    c0: usize,
    c1: usize,
    i: Element,
) -> (net: i128)
    requires
        similarity.wf(),
        similarity.has(i),
        c0 < cluster_indices@.len(),
        c1 < cluster_indices@.len(),
        forall|c: int, k: int|
            0 <= c < cluster_indices@.len() && 0 <= k < cluster_indices@[c]@.len()
                ==> similarity.has(#[trigger] cluster_indices@[c]@[k]),
    ensures
        net == net_distance(similarity, lists(*cluster_indices), c0 as int, c1 as int, i),
{
    let from = cluster_affinity(cluster_indices, similarity, c0, i);
    let to = cluster_affinity(cluster_indices, similarity, c1, i);
    // The sums are counted twice, as the cost counts each pair twice.
    2 * (from - to)
}

/// The move that the stores of the cache hold for element `e`: the
/// destination from the grid of destinations, the net distance from the
/// table of net distances at the position of `e`.
pub open spec fn cached(
    dests: Map<(int, int), usize>,
    nets: Seq<i128>,
    e: Element,
    height: nat,
) -> Candidate {
    Candidate { dest: label(dests, e), net: nets[flat(e, height)] as int }
}

/// One of the first `k` entries of `list` is `e`.
pub open spec fn among(list: Seq<Element>, k: int, e: Element) -> bool {
    exists|m: int| 0 <= m < k && #[trigger] list[m] == e
}

/// Every listed element lies in the grid of the scores.
proof fn lemma_listed_in_grid(
    cells: Map<(int, int), usize>,
    cluster_indices: &Vec<Vec<Element>>,
    similarity: &Similarity,
)
    requires
        members_wf(cells, lists(*cluster_indices), similarity.width(), similarity.height()),
    ensures
        forall|c: int, k: int|
            0 <= c < cluster_indices@.len() && 0 <= k < cluster_indices@[c]@.len()
                ==> similarity.has(#[trigger] cluster_indices@[c]@[k]),
{
    let ls = lists(*cluster_indices);
    assert forall|c: int, k: int|
        0 <= c < cluster_indices@.len() && 0 <= k < cluster_indices@[c]@.len() implies similarity.has(
        #[trigger] cluster_indices@[c]@[k],
    ) by {
        assert(ls[c][k] == cluster_indices@[c]@[k]);
    }
}

/// Computes anew the cached move of every element of one cluster.
fn update_cluster(
    clusters: &Grid,
    cluster_indices: &Vec<Vec<Element>>,
    potential_clusters: &mut Grid,
    potential_net_distance: &mut Vec<i128>,
    cluster: usize,
    similarity: &Similarity,
)
    requires
        similarity.wf(),
        clusters.width() == similarity.width(),
        clusters.height() == similarity.height(),
        old(potential_clusters).width() == similarity.width(),
        old(potential_clusters).height() == similarity.height(),
        old(potential_net_distance)@.len() == similarity.count(),
        complete(
            grid_cells(*clusters),
            lists(*cluster_indices),
            similarity.width(),
            similarity.height(),
        ),
        cluster < cluster_indices@.len(),
    ensures
        final(potential_clusters).width() == similarity.width(),
        final(potential_clusters).height() == similarity.height(),
        final(potential_net_distance)@.len() == similarity.count(),
        forall|e: Element|
            similarity.has(e) ==> #[trigger] cached(
                grid_cells(*final(potential_clusters)),
                final(potential_net_distance)@,
                e,
                similarity.height(),
            ) == if label(grid_cells(*clusters), e) == cluster {
                best_move(similarity, lists(*cluster_indices), e, cluster as int)
            } else {
                cached(
                    grid_cells(*old(potential_clusters)),
                    old(potential_net_distance)@,
                    e,
                    similarity.height(),
                )
            },
{
    let (width, height) = clusters.dim();
    let count = cluster_indices.len();
    let ghost cells = grid_cells(*clusters);
    let ghost ls = lists(*cluster_indices);
    let ghost dests0 = grid_cells(*potential_clusters);
    let ghost nets0 = potential_net_distance@;
    let ghost h = height as nat;
    proof {
        lemma_listed_in_grid(cells, cluster_indices, similarity);
        lemma_count_fits(similarity);
    }
    let mut k: usize = 0;
    while k < cluster_indices[cluster].len()
        invariant
            similarity.wf(),
            similarity.width() == width,
            similarity.height() == height,
            h == height,
            clusters.width() == width,
            clusters.height() == height,
            potential_clusters.width() == width,
            potential_clusters.height() == height,
            potential_net_distance@.len() == similarity.count(),
            similarity.count() <= usize::MAX,
            cells == grid_cells(*clusters),
            ls == lists(*cluster_indices),
            complete(cells, ls, width as nat, height as nat),
            count == cluster_indices@.len(),
            cluster < count,
            k <= cluster_indices@[cluster as int]@.len(),
            forall|c: int, m: int|
                0 <= c < cluster_indices@.len() && 0 <= m < cluster_indices@[c]@.len()
                    ==> similarity.has(#[trigger] cluster_indices@[c]@[m]),
            forall|e: Element|
                similarity.has(e) ==> #[trigger] cached(
                    grid_cells(*potential_clusters),
                    potential_net_distance@,
                    e,
                    h,
                ) == if among(ls[cluster as int], k as int, e) {
                    best_move(similarity, ls, e, cluster as int)
                } else {
                    cached(dests0, nets0, e, h)
                },
        decreases cluster_indices@[cluster as int]@.len() - k,
    {
        let i = cluster_indices[cluster][k];
        proof {
            assert(ls[cluster as int][k as int] == i);
        }
        let c0 = clusters.id_of(i);
        let mut c_star: usize = c0;
        let mut c_star_net_distance: i128 = 0;
        let mut c: usize = 0;
        while c < count
            invariant
                similarity.wf(),
                similarity.has(i),
                ls == lists(*cluster_indices),
                count == cluster_indices@.len(),
                c0 < count,
                c <= count,
                forall|d: int, m: int|
                    0 <= d < cluster_indices@.len() && 0 <= m < cluster_indices@[d]@.len()
                        ==> similarity.has(#[trigger] cluster_indices@[d]@[m]),
                c_star_net_distance <= 0,
                c_star_net_distance == 0 ==> c_star == c0 && forall|d: int|
                    0 <= d < c ==> #[trigger] net_distance(similarity, ls, c0 as int, d, i) >= 0,
                c_star_net_distance < 0 ==> {
                    &&& c_star < c
                    &&& c_star_net_distance == net_distance(
                        similarity,
                        ls,
                        c0 as int,
                        c_star as int,
                        i,
                    )
                    &&& forall|d: int|
                        0 <= d < c ==> {
                            &&& #[trigger] net_distance(similarity, ls, c0 as int, d, i)
                                >= c_star_net_distance
                            &&& d < c_star ==> net_distance(similarity, ls, c0 as int, d, i)
                                > c_star_net_distance
                        }
                },
            decreases count - c,
        {
            let c_net_distance = net_cluster_distance(cluster_indices, similarity, c0, c, i);
            if c_net_distance < c_star_net_distance {
                c_star = c;
                c_star_net_distance = c_net_distance;
            }
            c += 1;
        }
        proof {
            if c_star_net_distance < 0 {
                assert(improves(similarity, ls, i, c0 as int, c_star as int));
                assert(is_best_move(similarity, ls, i, c0 as int, c_star as int));
                let chosen = choose|c: int| is_best_move(similarity, ls, i, c0 as int, c);
                lemma_best_move_unique(similarity, ls, i, c0 as int, chosen, c_star as int);
            } else {
                assert forall|d: int| !improves(similarity, ls, i, c0 as int, d) by {
                    if 0 <= d < ls.len() {
                        assert(net_distance(similarity, ls, c0 as int, d, i) >= 0);
                    }
                }
            }
            assert(best_move(similarity, ls, i, c0 as int) == Candidate {
                dest: c_star,
                net: c_star_net_distance as int,
            });
            lemma_flat_of_element(i, width as nat, h);
            assert(i.0 * height >= 0) by (nonlinear_arith);
        }
        let ghost dests1 = grid_cells(*potential_clusters);
        let ghost nets1 = potential_net_distance@;
        potential_clusters.assign(i, c_star);
        let slot: usize = i.0 * height + i.1;
        potential_net_distance.set(slot, c_star_net_distance);
        proof {
            let dests2 = grid_cells(*potential_clusters);
            let nets2 = potential_net_distance@;
            assert forall|e: Element| similarity.has(e) implies #[trigger] cached(
                dests2,
                nets2,
                e,
                h,
            ) == if among(ls[cluster as int], k + 1, e) {
                best_move(similarity, ls, e, cluster as int)
            } else {
                cached(dests0, nets0, e, h)
            } by {
                if e == i {
                    assert(among(ls[cluster as int], k + 1, e));
                } else {
                    if flat(e, h) == flat(i, h) {
                        lemma_flat_injective(e, i, width as nat, h);
                    }
                    lemma_flat_of_element(e, width as nat, h);
                    assert(cached(dests2, nets2, e, h) == cached(dests1, nets1, e, h));
                    if among(ls[cluster as int], k as int, e) {
                        let m = choose|m: int| 0 <= m < k && ls[cluster as int][m] == e;
                        assert(ls[cluster as int][m] == e);
                        assert(among(ls[cluster as int], k + 1, e));
                    }
                    if among(ls[cluster as int], k + 1, e) {
                        let m = choose|m: int| 0 <= m < k + 1 && ls[cluster as int][m] == e;
                        assert(m != k);
                        assert(ls[cluster as int][m] == e);
                        assert(among(ls[cluster as int], k as int, e));
                    }
                }
            }
        }
        k += 1;
    }
    proof {
        let list = ls[cluster as int];
        assert forall|e: Element| similarity.has(e) implies (among(list, list.len() as int, e)
            <==> label(cells, e) == cluster) by {
            if among(list, list.len() as int, e) {
                let m = choose|m: int| 0 <= m < list.len() && list[m] == e;
                assert(label(cells, ls[cluster as int][m]) == cluster);
            }
            if label(cells, e) == cluster {
                assert(listed(cells, ls, e));
                let m = list.index_of(e);
                assert(list[m] == e);
            }
        }
    }
}

/// Finds where `e` stands in a list that holds it.
fn position(list: &Vec<Element>, e: Element) -> (at: usize)
    requires
        list@.contains(e),
    ensures
        at < list@.len(),
        list@[at as int] == e,
{
    let mut k: usize = 0;
    while k < list.len()
        invariant
            k <= list@.len(),
            list@.contains(e),
            forall|m: int| 0 <= m < k ==> #[trigger] list@[m] != e,
        decreases list@.len() - k,
    {
        if list[k].0 == e.0 && list[k].1 == e.1 {
            return k;
        }
        k += 1;
    }
    proof {
        let m = list@.index_of(e);
        assert(list@[m] == e);
    }
    k
}

/// Whether the stores of the cache hold, for every element of the grid,
/// the move that the state caches for it.
pub open spec fn cache_agrees(
    dests: Map<(int, int), usize>,
    nets: Seq<i128>,
    s: SearchState,
    width: nat,
    height: nat,
) -> bool {
    forall|e: Element|
        in_grid(e, width, height) ==> #[trigger] cached(dests, nets, e, height) == s.table[e]
}

/// Local search by best one-element moves. The best move of every element
/// is computed once. Then, for at most `MAX_ROUNDS` rounds, the element of
/// smallest cached net distance, the first such in canonical order, moves
/// to its cached destination, and the cache is computed anew for the
/// elements of the cluster it left and of the cluster it joined. The search
/// stops when no cached net distance is negative. A grid whose shape is not
/// that of the scores is rejected and nothing changes.
pub fn cc_boem(
    clusters: &mut Grid,
    cluster_indices: &mut Vec<Vec<Element>>,
    similarity: &Similarity,
) -> (done: Result<(), ClusterError>)
    requires
        similarity.wf(),
        complete(
            grid_cells(*old(clusters)),
            lists(*old(cluster_indices)),
            old(clusters).width(),
            old(clusters).height(),
        ),
    ensures
        final(clusters).width() == old(clusters).width(),
        final(clusters).height() == old(clusters).height(),
        final(cluster_indices)@.len() == old(cluster_indices)@.len(),
        done.is_ok() <==> old(clusters).width() == similarity.width() && old(clusters).height()
            == similarity.height(),
        done.is_err() ==> done == Err::<(), ClusterError>(ClusterError::InvalidDimensions)
            && *final(clusters) == *old(clusters) && *final(cluster_indices) == *old(
            cluster_indices,
        ),
        done.is_ok() ==> {
            &&& grid_cells(*final(clusters)) == local_search(
                similarity,
                grid_cells(*old(clusters)),
                lists(*old(cluster_indices)),
            ).cells
            &&& lists(*final(cluster_indices)) == local_search(
                similarity,
                grid_cells(*old(clusters)),
                lists(*old(cluster_indices)),
            ).lists
            &&& complete(
                grid_cells(*final(clusters)),
                lists(*final(cluster_indices)),
                old(clusters).width(),
                old(clusters).height(),
            )
        },
{
    let (width, height) = clusters.dim();
    let (sim_width, sim_height) = similarity.dim();
    if width != sim_width || height != sim_height {
        return Err(ClusterError::InvalidDimensions);
    }
    let ghost cells0 = grid_cells(*clusters);
    let ghost lists0 = lists(*cluster_indices);
    let ghost w = width as nat;
    let ghost h = height as nat;
    let ghost first = start(similarity, cells0, lists0);
    proof {
        lemma_count_fits(similarity);
        assert(lists0.len() == cluster_indices.len());
        lemma_start_ok(similarity, cells0, lists0);
    }
    if width == 0 || height == 0 {
        proof {
            assert(similarity.count() == 0) by (nonlinear_arith)
                requires
                    similarity.count() == w * h,
                    w == 0 || h == 0,
            ;
            assert(settled(run(similarity, first, 0).table, similarity.count(), h));
            lemma_settled_stays(similarity, first, 0, MAX_ROUNDS as nat);
        }
        return Ok(());
    }
    proof {
        let n = similarity.count() as int;
        assert(n == w * h);
        assert(w <= n && h <= n && n >= 1) by (nonlinear_arith)
            requires
                n == w * h,
                w >= 1,
                h >= 1,
        ;
        assert(n <= isize::MAX) by (nonlinear_arith)
            requires
                n * n <= usize::MAX,
                usize::MAX == 2 * isize::MAX + 1,
                n >= 1,
        ;
    }
    let made = Grid::zeros(width, height);
    let mut potential_clusters = made.unwrap();
    let pi = indices(width, height);
    let n: usize = pi.len();
    let mut potential_net_distance: Vec<i128> = Vec::new();
    let mut filled: usize = 0;
    while filled < n
        invariant
            filled <= n,
            potential_net_distance@.len() == filled,
        decreases n - filled,
    {
        potential_net_distance.push(0);
        filled += 1;
    }
    // Every cluster in turn: afterwards the cache holds the best move of
    // every element.
    let mut c: usize = 0;
    while c < cluster_indices.len()
        invariant
            similarity.wf(),
            similarity.width() == w == width,
            similarity.height() == h == height,
            clusters.width() == w,
            clusters.height() == h,
            potential_clusters.width() == w,
            potential_clusters.height() == h,
            potential_net_distance@.len() == similarity.count(),
            cells0 == grid_cells(*clusters),
            lists0 == lists(*cluster_indices),
            complete(cells0, lists0, w, h),
            first == start(similarity, cells0, lists0),
            c <= cluster_indices@.len(),
            forall|e: Element|
                in_grid(e, w, h) && label(cells0, e) < c ==> #[trigger] cached(
                    grid_cells(potential_clusters),
                    potential_net_distance@,
                    e,
                    h,
                ) == first.table[e],
        decreases cluster_indices@.len() - c,
    {
        update_cluster(
            clusters,
            cluster_indices,
            &mut potential_clusters,
            &mut potential_net_distance,
            c,
            similarity,
        );
        c += 1;
    }
    let ghost mut state = first;
    proof {
        assert forall|e: Element| in_grid(e, w, h) implies #[trigger] cached(
            grid_cells(potential_clusters),
            potential_net_distance@,
            e,
            h,
        ) == state.table[e] by {
            assert(listed(cells0, lists0, e));
        }
    }
    let mut moving = true;
    let mut round: usize = 0;
    while moving && round < MAX_ROUNDS
        invariant
            similarity.wf(),
            similarity.width() == w == width,
            similarity.height() == h == height,
            similarity.count() == n,
            n * n <= usize::MAX,
            clusters.width() == w,
            clusters.height() == h,
            potential_clusters.width() == w,
            potential_clusters.height() == h,
            potential_net_distance@.len() == n,
            pi@ == all_elements(w, h),
            round <= MAX_ROUNDS,
            first == start(similarity, cells0, lists0),
            state == run(similarity, first, round as nat),
            state.cells == grid_cells(*clusters),
            state.lists == lists(*cluster_indices),
            state.lists.len() == lists0.len(),
            lists0.len() == old(cluster_indices)@.len(),
            state_ok(similarity, state),
            cache_agrees(grid_cells(potential_clusters), potential_net_distance@, state, w, h),
            !moving ==> settled(state.table, n as nat, h),
        decreases moving as int, MAX_ROUNDS - round,
    {
        let mut p_star: usize = 0;
        let mut c_star_net_distance: i128 = 0;
        let mut p: usize = 0;
        // The element whose move gains most.
        while p < n
            invariant
                similarity.wf(),
                similarity.width() == w,
                similarity.height() == h,
                similarity.count() == n,
                n * n <= usize::MAX,
                potential_net_distance@.len() == n,
                cache_agrees(grid_cells(potential_clusters), potential_net_distance@, state, w, h),
                p <= n,
                c_star_net_distance <= 0,
                c_star_net_distance == 0 ==> forall|q: int|
                    0 <= q < p ==> #[trigger] net_at(state.table, q, h) >= 0,
                c_star_net_distance < 0 ==> is_pick(state.table, p as nat, h, p_star as int)
                    && c_star_net_distance == net_at(state.table, p_star as int, h),
            decreases n - p,
        {
            proof {
                lemma_element_of_flat(p as int, w, h);
                let e = element_at(p as int, h);
                assert(cached(grid_cells(potential_clusters), potential_net_distance@, e, h)
                    == state.table[e]);
            }
            let net_distance = potential_net_distance[p];
            if net_distance < c_star_net_distance {
                p_star = p;
                c_star_net_distance = net_distance;
            }
            p += 1;
        }
        if c_star_net_distance < 0 {
            let i_star = pi[p_star];
            proof {
                let chosen = lemma_pick_exists(state.table, n as nat, h);
                lemma_pick_unique(state.table, n as nat, h, chosen, p_star as int);
                lemma_element_of_flat(p_star as int, w, h);
                assert(i_star == element_at(p_star as int, h));
                assert(cached(grid_cells(potential_clusters), potential_net_distance@, i_star, h)
                    == state.table[i_star]);
                assert(listed(state.cells, state.lists, i_star));
                assert(state.table[i_star].net < 0);
            }
            let c_source = clusters.id_of(i_star);
            let c_star = potential_clusters.id_of(i_star);
            let ghost lists1 = lists(*cluster_indices);
            let ghost cells1 = grid_cells(*clusters);
            proof {
                assert(lists1[c_source as int] == cluster_indices@[c_source as int]@);
                lemma_transfer_keeps_complete(cells1, lists1, w, h, i_star, c_star);
            }
            let index = position(&cluster_indices[c_source], i_star);
            cluster_indices[c_source].remove(index);
            clusters.assign(i_star, c_star);
            cluster_indices[c_star].push(i_star);
            proof {
                let list = lists1[c_source as int];
                let at = list.index_of(i_star);
                assert(list[at] == i_star);
                assert(at == index) by {
                    if at < index {
                        assert(list[at] != list[index as int]);
                    } else if index < at {
                        assert(list[index as int] != list[at]);
                    }
                }
                let lists2 = lists(*cluster_indices);
                let mid = lists1.update(c_source as int, without(list, i_star));
                assert(lists2 =~= transfer(lists1, c_source as int, c_star as int, i_star)) by {
                    assert(lists2[c_source as int] =~= mid[c_source as int]);
                    assert(lists2[c_star as int] =~= mid[c_star as int].push(i_star));
                }
            }
            let ghost dests1 = grid_cells(potential_clusters);
            let ghost nets1 = potential_net_distance@;
            // The cache of the two clusters that changed.
            update_cluster(
                clusters,
                cluster_indices,
                &mut potential_clusters,
                &mut potential_net_distance,
                c_star,
                similarity,
            );
            update_cluster(
                clusters,
                cluster_indices,
                &mut potential_clusters,
                &mut potential_net_distance,
                c_source,
                similarity,
            );
            proof {
                let next = step(similarity, state);
                assert(lists1.len() == cluster_indices.len());
                lemma_step_keeps_ok(similarity, state);
                assert(next.cells == grid_cells(*clusters));
                assert(next.lists == lists(*cluster_indices));
                assert forall|e: Element| in_grid(e, w, h) implies #[trigger] cached(
                    grid_cells(potential_clusters),
                    potential_net_distance@,
                    e,
                    h,
                ) == next.table[e] by {
                    assert(cached(dests1, nets1, e, h) == state.table[e]);
                }
                state = next;
            }
            round += 1;
        } else {
            moving = false;
        }
    }
    proof {
        if !moving {
            lemma_settled_stays(similarity, first, round as nat, (MAX_ROUNDS - round) as nat);
        }
    }
    Ok(())
}

/// The cache is up to date: it holds, for every element of the grid, the
/// best move in the partition as it is.
pub open spec fn fresh(sim: &Similarity, s: SearchState) -> bool {
    forall|e: Element|
        sim.has(e) ==> #[trigger] s.table[e] == best_move(
            sim,
            s.lists,
            e,
            label(s.cells, e) as int,
        )
}

/// The element that the next round moves, when the state is not settled.
pub open spec fn picked(sim: &Similarity, s: SearchState) -> Element {
    element_at(choose|p: int| is_pick(s.table, sim.count(), sim.height(), p), sim.height())
}

/// A round on an up-to-date entry lowers the cost: when the scores are
/// symmetric and the cached move of the element that the round moves is its
/// best move in the partition as it is, the cost falls by the cached net
/// distance.
pub proof fn law_round_on_fresh_entry_lowers_cost(sim: &Similarity, s: SearchState)
    requires
        sim.wf(),
        sim.symmetric(),
        state_ok(sim, s),
        s.lists.len() <= usize::MAX,
        !settled(s.table, sim.count(), sim.height()),
        s.table[picked(sim, s)] == best_move(
            sim,
            s.lists,
            picked(sim, s),
            label(s.cells, picked(sim, s)) as int,
        ),
    ensures
        s.table[picked(sim, s)].net < 0,
        total_cost(step(sim, s).cells, sim) == total_cost(s.cells, sim) + s.table[picked(
            sim,
            s,
        )].net,
{
    lemma_count_fits(sim);
    let p = lemma_pick_exists(s.table, sim.count(), sim.height());
    lemma_element_of_flat(p, sim.width(), sim.height());
    let i = picked(sim, s);
    assert(net_at(s.table, p, sim.height()) < 0);
    assert(listed(s.cells, s.lists, i));
    lemma_best_move_ok(sim, s.lists, i, label(s.cells, i) as int);
    law_move_changes_cost_by_net_distance(s.cells, s.lists, sim, i, s.table[i].dest);
}

/// With at most two clusters a round leaves the cache up to date, and under
/// symmetric scores it does not raise the cost.
proof fn lemma_step_with_two(sim: &Similarity, s: SearchState)
    requires
        sim.wf(),
        state_ok(sim, s),
        fresh(sim, s),
        s.lists.len() <= 2,
    ensures
        fresh(sim, step(sim, s)),
        sim.symmetric() ==> total_cost(step(sim, s).cells, sim) <= total_cost(s.cells, sim),
{
    lemma_step_keeps_ok(sim, s);
    if !settled(s.table, sim.count(), sim.height()) {
        lemma_count_fits(sim);
        let p = lemma_pick_exists(s.table, sim.count(), sim.height());
        lemma_element_of_flat(p, sim.width(), sim.height());
        let i = picked(sim, s);
        assert(net_at(s.table, p, sim.height()) < 0);
        assert(listed(s.cells, s.lists, i));
        lemma_best_move_ok(sim, s.lists, i, label(s.cells, i) as int);
        let t = step(sim, s);
        assert forall|e: Element| sim.has(e) implies #[trigger] t.table[e] == best_move(
            sim,
            t.lists,
            e,
            label(t.cells, e) as int,
        ) by {
            assert(listed(t.cells, t.lists, e));
        }
        if sim.symmetric() {
            law_round_on_fresh_entry_lowers_cost(sim, s);
        }
    }
}

/// With at most two clusters any number of rounds leaves the partition
/// complete and the cache sound and up to date, and under symmetric scores
/// does not raise the cost.
proof fn lemma_run_with_two(sim: &Similarity, s: SearchState, rounds: nat)
    requires
        sim.wf(),
        state_ok(sim, s),
        fresh(sim, s),
        s.lists.len() <= 2,
    ensures
        state_ok(sim, run(sim, s, rounds)),
        fresh(sim, run(sim, s, rounds)),
        run(sim, s, rounds).lists.len() == s.lists.len(),
        sim.symmetric() ==> total_cost(run(sim, s, rounds).cells, sim) <= total_cost(s.cells, sim),
    decreases rounds,
{
    if rounds > 0 {
        lemma_run_with_two(sim, s, (rounds - 1) as nat);
        lemma_step_keeps_ok(sim, run(sim, s, (rounds - 1) as nat));
        lemma_step_with_two(sim, run(sim, s, (rounds - 1) as nat));
    }
}

/// Local search never raises the cost: for symmetric scores and a complete
/// partition into at most two clusters, the partition that the search ends
/// at costs no more than the one it began with.
pub proof fn law_local_search_never_raises_cost(
    sim: &Similarity,
    cells: Map<(int, int), usize>,
    lists: Seq<Seq<Element>>,
)
    requires
        sim.wf(),
        sim.symmetric(),
        complete(cells, lists, sim.width(), sim.height()),
        lists.len() <= 2,
    ensures
        total_cost(local_search(sim, cells, lists).cells, sim) <= total_cost(cells, sim),
{
    lemma_start_ok(sim, cells, lists);
    lemma_run_with_two(sim, start(sim, cells, lists), MAX_ROUNDS as nat);
}

/// The partition is at rest: no element has a move at a gain.
pub open spec fn at_rest(
    sim: &Similarity,
    cells: Map<(int, int), usize>,
    lists: Seq<Seq<Element>>,
) -> bool {
    settled(start(sim, cells, lists).table, sim.count(), sim.height())
}

/// A partition at rest is a fixed point: local search leaves a partition
/// in which no element has a move at a gain as it is.
pub proof fn law_search_at_rest_changes_nothing(
    sim: &Similarity,
    cells: Map<(int, int), usize>,
    lists: Seq<Seq<Element>>,
)
    requires
        at_rest(sim, cells, lists),
    ensures
        local_search(sim, cells, lists).cells == cells,
        local_search(sim, cells, lists).lists == lists,
{
    let first = start(sim, cells, lists);
    assert(run(sim, first, 0) == first);
    lemma_settled_stays(sim, first, 0, MAX_ROUNDS as nat);
}

/// Local search is idempotent: for a complete partition into at most two
/// clusters on which the search comes to rest within its rounds, the
/// partition that the search ends at is at rest, so that a second search
/// leaves it as it is.
pub proof fn law_local_search_is_idempotent(
    sim: &Similarity,
    cells: Map<(int, int), usize>,
    lists: Seq<Seq<Element>>,
)
    requires
        sim.wf(),
        complete(cells, lists, sim.width(), sim.height()),
        lists.len() <= 2,
        settled(local_search(sim, cells, lists).table, sim.count(), sim.height()),
    ensures
        at_rest(
            sim,
            local_search(sim, cells, lists).cells,
            local_search(sim, cells, lists).lists,
        ),
        local_search(
            sim,
            local_search(sim, cells, lists).cells,
            local_search(sim, cells, lists).lists,
        ).cells == local_search(sim, cells, lists).cells,
        local_search(
            sim,
            local_search(sim, cells, lists).cells,
            local_search(sim, cells, lists).lists,
        ).lists == local_search(sim, cells, lists).lists,
{
    lemma_count_fits(sim);
    lemma_start_ok(sim, cells, lists);
    lemma_run_with_two(sim, start(sim, cells, lists), MAX_ROUNDS as nat);
    let rest = local_search(sim, cells, lists);
    let again = start(sim, rest.cells, rest.lists);
    assert forall|p: int| 0 <= p < sim.count() implies #[trigger] net_at(
        again.table,
        p,
        sim.height(),
    ) >= 0 by {
        lemma_element_of_flat(p, sim.width(), sim.height());
        let e = element_at(p, sim.height());
        assert(again.table[e] == rest.table[e]);
        assert(net_at(rest.table, p, sim.height()) >= 0);
    }
    law_search_at_rest_changes_nothing(sim, rest.cells, rest.lists);
}

/// Under uninformative scores nothing ties an element to a list of
/// elements of the grid.
proof fn lemma_affinity_uninformative(sim: &Similarity, i: Element, list: Seq<Element>)
    requires
        uninformative(sim),
        sim.has(i),
        forall|k: int| 0 <= k < list.len() ==> sim.has(#[trigger] list[k]),
    ensures
        affinity(sim, i, list) == 0,
    decreases list.len(),
{
    if list.len() > 0 {
        lemma_affinity_uninformative(sim, i, list.drop_last());
        assert(2 * sim.at(i, list.last()) == SCALE);
    }
}

/// Uninformative scores leave every partition at rest: when every pair is
/// as similar as not, no element of a complete partition has a move at a
/// gain, so that local search makes no move.
pub proof fn law_uninformative_scores_leave_partitions_at_rest(
    sim: &Similarity,
    cells: Map<(int, int), usize>,
    lists: Seq<Seq<Element>>,
)
    requires
        sim.wf(),
        uninformative(sim),
        complete(cells, lists, sim.width(), sim.height()),
    ensures
        at_rest(sim, cells, lists),
        local_search(sim, cells, lists).cells == cells,
        local_search(sim, cells, lists).lists == lists,
{
    lemma_count_fits(sim);
    let first = start(sim, cells, lists);
    assert forall|p: int| 0 <= p < sim.count() implies #[trigger] net_at(
        first.table,
        p,
        sim.height(),
    ) >= 0 by {
        lemma_element_of_flat(p, sim.width(), sim.height());
        let e = element_at(p, sim.height());
        let c0 = label(cells, e) as int;
        assert(listed(cells, lists, e));
        assert forall|c: int| !improves(sim, lists, e, c0, c) by {
            if 0 <= c < lists.len() {
                assert forall|k: int| 0 <= k < lists[c].len() implies sim.has(
                    #[trigger] lists[c][k],
                ) by {}
                assert forall|k: int| 0 <= k < lists[c0].len() implies sim.has(
                    #[trigger] lists[c0][k],
                ) by {}
                lemma_affinity_uninformative(sim, e, lists[c]);
                lemma_affinity_uninformative(sim, e, lists[c0]);
            }
        }
    }
    law_search_at_rest_changes_nothing(sim, cells, lists);
}

} // verus!
