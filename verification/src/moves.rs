//! What the move of one element does to the cost of a partition.

use crate::boem_cc::{affinity, net_distance};
use crate::elements::{element_at, flat, lemma_element_of_flat, lemma_flat_of_element};
use crate::grid::Element;
use crate::objective::{label, pair_cost, row_cost, rows_cost, total_cost};
use crate::partition::{complete, listed, relabel};
use crate::similarity::{lemma_count_fits, Similarity};
use vstd::prelude::*;

verus! {

/// What the pair of `i` and `e` adds to the cost when `i` leaves its
/// cluster for cluster `c1`: the weight of the pair when `e` is in the
/// cluster that `i` leaves, its negative when `e` is in cluster `c1`, and
/// nothing otherwise.
pub open spec fn gain_term(
    cells: Map<(int, int), usize>,
    sim: &Similarity,
    i: Element,
    c1: usize,
    e: Element,
) -> int {
    if e == i {
        0
    } else if label(cells, e) == label(cells, i) {
        sim.weight(i, e)
    } else if label(cells, e) == c1 {
        -sim.weight(i, e)
    } else {
        0
    }
}

/// The sum of `gain_term` over the first `m` elements of the canonical
/// order.
pub open spec fn gain_upto(
    cells: Map<(int, int), usize>,
    sim: &Similarity,
    i: Element,
    c1: usize,
    m: nat,
) -> int
    decreases m,
{
    if m == 0 {
        0
    } else {
        gain_upto(cells, sim, i, c1, (m - 1) as nat) + gain_term(
            cells,
            sim,
            i,
            c1,
            element_at(m - 1, sim.height()),
        )
    }
}

/// The sum, over those of the first `m` elements of the canonical order
/// that `list` holds, of the weight of the pair with `i`, `i` itself left
/// out.
pub open spec fn tied_upto(sim: &Similarity, i: Element, list: Seq<Element>, m: nat) -> int
    decreases m,
{
    if m == 0 {
        0
    } else {
        let e = element_at(m - 1, sim.height());
        tied_upto(sim, i, list, (m - 1) as nat) + if list.contains(e) && e != i {
            sim.weight(i, e)
        } else {
            0
        }
    }
}

/// The row of the moved element changes by the gain terms of its pairs.
proof fn lemma_row_of_moved(
    cells: Map<(int, int), usize>,
    sim: &Similarity,
    i: Element,
    c1: usize,
    m: nat,
)
    requires
        sim.wf(),
        sim.has(i),
        c1 != label(cells, i),
        m <= sim.count(),
    ensures
        row_cost(relabel(cells, i, c1), sim, i, m) == row_cost(cells, sim, i, m) + gain_upto(
            cells,
            sim,
            i,
            c1,
            m,
        ),
    decreases m,
{
    if m > 0 {
        lemma_count_fits(sim);
        lemma_row_of_moved(cells, sim, i, c1, (m - 1) as nat);
        lemma_element_of_flat(m - 1, sim.width(), sim.height());
        let e = element_at(m - 1, sim.height());
        let after = relabel(cells, i, c1);
        assert(label(after, i) == c1);
        if e != i {
            assert(label(after, e) == label(cells, e));
        }
        assert(pair_cost(after, sim, i, e) == pair_cost(cells, sim, i, e) + gain_term(
            cells,
            sim,
            i,
            c1,
            e,
        ));
    }
}

/// The row of another element changes by the gain term of its pair with
/// the moved element, once the row reaches that element.
proof fn lemma_row_of_other(
    cells: Map<(int, int), usize>,
    sim: &Similarity,
    i: Element,
    c1: usize,
    a: Element,
    m: nat,
)
    requires
        sim.wf(),
        sim.symmetric(),
        sim.has(i),
        sim.has(a),
        a != i,
        c1 != label(cells, i),
        m <= sim.count(),
    ensures
        row_cost(relabel(cells, i, c1), sim, a, m) == row_cost(cells, sim, a, m) + if flat(
            i,
            sim.height(),
        ) < m {
            gain_term(cells, sim, i, c1, a)
        } else {
            0
        },
    decreases m,
{
    if m > 0 {
        lemma_count_fits(sim);
        lemma_row_of_other(cells, sim, i, c1, a, (m - 1) as nat);
        lemma_element_of_flat(m - 1, sim.width(), sim.height());
        lemma_flat_of_element(i, sim.width(), sim.height());
        let e = element_at(m - 1, sim.height());
        let after = relabel(cells, i, c1);
        assert(label(after, i) == c1);
        assert(label(after, a) == label(cells, a));
        if e == i {
            assert(sim.at(a, i) == sim.at(i, a));
            assert(pair_cost(after, sim, a, e) == pair_cost(cells, sim, a, e) + gain_term(
                cells,
                sim,
                i,
                c1,
                a,
            ));
        } else {
            assert(label(after, e) == label(cells, e));
            assert(pair_cost(after, sim, a, e) == pair_cost(cells, sim, a, e));
        }
    }
}

/// The first `k` rows change by the gain terms of the first `k` elements
/// and, once they reach the moved element, by those of its whole row.
proof fn lemma_rows_of_move(
    cells: Map<(int, int), usize>,
    sim: &Similarity,
    i: Element,
    c1: usize,
    k: nat,
)
    requires
        sim.wf(),
        sim.symmetric(),
        sim.has(i),
        c1 != label(cells, i),
        k <= sim.count(),
    ensures
        rows_cost(relabel(cells, i, c1), sim, k, sim.count()) == rows_cost(
            cells,
            sim,
            k,
            sim.count(),
        ) + gain_upto(cells, sim, i, c1, k) + if flat(i, sim.height()) < k {
            gain_upto(cells, sim, i, c1, sim.count())
        } else {
            0
        },
    decreases k,
{
    if k > 0 {
        lemma_count_fits(sim);
        lemma_rows_of_move(cells, sim, i, c1, (k - 1) as nat);
        lemma_element_of_flat(k - 1, sim.width(), sim.height());
        lemma_flat_of_element(i, sim.width(), sim.height());
        let a = element_at(k - 1, sim.height());
        if a == i {
            lemma_row_of_moved(cells, sim, i, c1, sim.count());
        } else {
            lemma_row_of_other(cells, sim, i, c1, a, sim.count());
        }
    }
}

/// A list without members ties an element to nothing.
proof fn lemma_tied_to_none(sim: &Similarity, i: Element, m: nat)
    ensures
        tied_upto(sim, i, Seq::empty(), m) == 0,
    decreases m,
{
    if m > 0 {
        lemma_tied_to_none(sim, i, (m - 1) as nat);
        let e = element_at(m - 1, sim.height());
        assert(!Seq::<Element>::empty().contains(e));
    }
}

/// The last member of a list without repeats adds its weight to what the
/// members before it add, once the canonical order reaches it.
proof fn lemma_tied_to_last(sim: &Similarity, i: Element, list: Seq<Element>, m: nat)
    requires
        sim.wf(),
        list.len() > 0,
        sim.has(list.last()),
        !list.drop_last().contains(list.last()),
        m <= sim.count(),
    ensures
        tied_upto(sim, i, list, m) == tied_upto(sim, i, list.drop_last(), m) + if flat(
            list.last(),
            sim.height(),
        ) < m && list.last() != i {
            sim.weight(i, list.last())
        } else {
            0
        },
    decreases m,
{
    if m > 0 {
        lemma_count_fits(sim);
        lemma_tied_to_last(sim, i, list, (m - 1) as nat);
        lemma_element_of_flat(m - 1, sim.width(), sim.height());
        lemma_flat_of_element(list.last(), sim.width(), sim.height());
        let e = element_at(m - 1, sim.height());
        let x = list.last();
        let before = list.drop_last();
        if e == x {
            assert(list[list.len() - 1] == e);
            assert(list.contains(e));
        } else {
            if list.contains(e) {
                let k = choose|k: int| 0 <= k < list.len() && list[k] == e;
                assert(before[k] == e);
                assert(before.contains(e));
            }
            if before.contains(e) {
                let k = choose|k: int| 0 <= k < before.len() && before[k] == e;
                assert(list[k] == e);
                assert(list.contains(e));
            }
        }
    }
}

/// What ties an element to a list without repeats is the sum of its
/// weights over the elements of the grid that the list holds.
proof fn lemma_affinity_is_tied(sim: &Similarity, i: Element, list: Seq<Element>)
    requires
        sim.wf(),
        forall|k: int| 0 <= k < list.len() ==> sim.has(#[trigger] list[k]),
        forall|k: int, m: int| 0 <= k < m < list.len() ==> #[trigger] list[k] != #[trigger] list[m],
    ensures
        affinity(sim, i, list) == tied_upto(sim, i, list, sim.count()),
    decreases list.len(),
{
    if list.len() == 0 {
        lemma_tied_to_none(sim, i, sim.count());
        assert(list =~= Seq::empty());
    } else {
        lemma_count_fits(sim);
        let before = list.drop_last();
        lemma_affinity_is_tied(sim, i, before);
        if before.contains(list.last()) {
            let k = choose|k: int| 0 <= k < before.len() && before[k] == list.last();
            assert(list[k] != list[list.len() - 1]);
        }
        lemma_tied_to_last(sim, i, list, sim.count());
        lemma_flat_of_element(list.last(), sim.width(), sim.height());
    }
}

/// In a complete partition the gain terms are what ties the element to the
/// cluster it leaves less what ties it to the cluster it joins.
proof fn lemma_gain_is_tied(
    cells: Map<(int, int), usize>,
    lists: Seq<Seq<Element>>,
    sim: &Similarity,
    i: Element,
    c1: usize,
    m: nat,
)
    requires
        sim.wf(),
        complete(cells, lists, sim.width(), sim.height()),
        sim.has(i),
        c1 < lists.len(),
        c1 != label(cells, i),
        m <= sim.count(),
    ensures
        gain_upto(cells, sim, i, c1, m) == tied_upto(sim, i, lists[label(cells, i) as int], m)
            - tied_upto(sim, i, lists[c1 as int], m),
    decreases m,
{
    if m > 0 {
        lemma_count_fits(sim);
        lemma_gain_is_tied(cells, lists, sim, i, c1, (m - 1) as nat);
        lemma_element_of_flat(m - 1, sim.width(), sim.height());
        let e = element_at(m - 1, sim.height());
        let c0 = label(cells, i) as int;
        assert(listed(cells, lists, i));
        assert(listed(cells, lists, e));
        if lists[c0].contains(e) {
            let k = choose|k: int| 0 <= k < lists[c0].len() && lists[c0][k] == e;
            assert(label(cells, lists[c0][k]) == c0);
        }
        if lists[c1 as int].contains(e) {
            let k = choose|k: int| 0 <= k < lists[c1 as int].len() && lists[c1 as int][k] == e;
            assert(label(cells, lists[c1 as int][k]) == c1);
        }
    }
}

/// The net distance is the change of the cost: when the scores are
/// symmetric and an element of a complete partition moves to another
/// cluster, the cost of the partition changes by the net distance of the
/// move.
pub proof fn law_move_changes_cost_by_net_distance(
    cells: Map<(int, int), usize>,
    lists: Seq<Seq<Element>>,
    sim: &Similarity,
    i: Element,
    c1: usize,
)
    requires
        sim.wf(),
        sim.symmetric(),
        complete(cells, lists, sim.width(), sim.height()),
        sim.has(i),
        c1 < lists.len(),
        c1 != label(cells, i),
    ensures
        total_cost(relabel(cells, i, c1), sim) == total_cost(cells, sim) + net_distance(
            sim,
            lists,
            label(cells, i) as int,
            c1 as int,
            i,
        ),
{
    let c0 = label(cells, i) as int;
    lemma_count_fits(sim);
    lemma_flat_of_element(i, sim.width(), sim.height());
    lemma_rows_of_move(cells, sim, i, c1, sim.count());
    lemma_gain_is_tied(cells, lists, sim, i, c1, sim.count());
    assert(listed(cells, lists, i));
    lemma_affinity_is_tied(sim, i, lists[c0]);
    lemma_affinity_is_tied(sim, i, lists[c1 as int]);
}

} // verus!
