//! Greedy construction of a partition: the elements are visited in a given
//! order and each joins the existing cluster it fits best, or opens a new
//! one.

use crate::grid::{grid_cells, Element, Grid};
use crate::objective::label;
use crate::partition::{
    is_unlisted, lemma_place_keeps, listed, lists, members_wf, place, relabel, unlisted,
};
use crate::similarity::{
    lemma_count_fits, lemma_logit_count_fits, lemma_pair_slot_in_table, ClusterError,
    LogitWeights, Similarity, SCALE,
};
use vstd::prelude::*;

verus! {

/// Where the weight of a pair comes from.
pub enum PairWeights<'a> {
    /// Twice the similarity less one, in fixed point.
    Additive(&'a Similarity),
    /// The logit of the similarity, from a table.
    Logit(&'a LogitWeights),
}

impl<'a> PairWeights<'a> {
    /// The table behind the weights is well formed.
    pub open spec fn wf(&self) -> bool {
        match self {
            PairWeights::Additive(sim) => sim.wf(),
            PairWeights::Logit(logits) => logits.wf(),
        }
    }

    /// Width of the grid the weights are for.
    pub open spec fn width(&self) -> nat {
        match self {
            PairWeights::Additive(sim) => sim.width(),
            PairWeights::Logit(logits) => logits.width(),
        }
    }

    /// Height of the grid the weights are for.
    pub open spec fn height(&self) -> nat {
        match self {
            PairWeights::Additive(sim) => sim.height(),
            PairWeights::Logit(logits) => logits.height(),
        }
    }

    /// Whether `e` is an element of the grid the weights are for.
    pub open spec fn has(&self, e: Element) -> bool {
        e.0 < self.width() && e.1 < self.height()
    }

    /// The weight of the ordered pair `(i, j)`.
    pub open spec fn weight(&self, i: Element, j: Element) -> int {
        match self {
            PairWeights::Additive(sim) => sim.weight(i, j),
            PairWeights::Logit(logits) => logits.weight(i, j),
        }
    }

    /// The shape `(width, height)` of the grid the weights are for.
    pub fn dim(&self) -> (shape: (usize, usize))
        ensures
            shape.0 == self.width(),
            shape.1 == self.height(),
    {
        match self {
            PairWeights::Additive(sim) => sim.dim(),
            PairWeights::Logit(logits) => logits.dim(),
        }
    }

    /// The weight of the ordered pair `(i, j)`.
    pub fn get(&self, i: Element, j: Element) -> (w: i64)
        requires
            self.wf(),
            self.has(i),
            self.has(j),
        ensures
            w == self.weight(i, j),
    {
        match self {
            PairWeights::Additive(sim) => {
                let s: u32 = sim.score(i, j);
                2 * (s as i64) - (SCALE as i64)
            },
            PairWeights::Logit(logits) => logits.get(i, j),
        }
    }
}

/// The quality of a cluster for element `i`: the sum of the weights of `i`
/// with each member of the cluster.
pub open spec fn quality(weights: &PairWeights, i: Element, list: Seq<Element>) -> int
    decreases list.len(),
{
    if list.len() == 0 {
        0
    } else {
        quality(weights, i, list.drop_last()) + weights.weight(i, list.last())
    }
}

/// Cluster `c` is the best existing cluster for `i`: it has members, no
/// cluster with members has a higher quality, and every earlier one has a
/// lower quality.
pub open spec fn is_best(weights: &PairWeights, lists: Seq<Seq<Element>>, i: Element, c: int) -> bool {
    &&& 0 <= c < lists.len()
    &&& lists[c].len() > 0
    &&& forall|d: int|
        0 <= d < lists.len() && (#[trigger] lists[d]).len() > 0 ==> {
            &&& quality(weights, i, lists[d]) <= quality(weights, i, lists[c])
            &&& d < c ==> quality(weights, i, lists[d]) < quality(weights, i, lists[c])
        }
}

/// Some cluster has members.
pub open spec fn has_members(lists: Seq<Seq<Element>>) -> bool {
    exists|c: int| 0 <= c < lists.len() && (#[trigger] lists[c]).len() > 0
}

/// The cluster that element `i` joins. While the number of clusters is
/// below `cap`, an element whose best cluster has a quality of zero or less,
/// or that finds no cluster with members, opens a new cluster, whose id is
/// the number of clusters so far. Otherwise it joins its best cluster,
/// whatever the sign of the quality; when no cluster has members it joins
/// cluster 0.
pub open spec fn vote(weights: &PairWeights, lists: Seq<Seq<Element>>, i: Element, cap: nat) -> int {
    if has_members(lists) {
        let best = choose|c: int| is_best(weights, lists, i, c);
        if quality(weights, i, lists[best]) <= 0 && lists.len() < cap {
            lists.len() as int
        } else {
            best
        }
    } else if lists.len() < cap {
        lists.len() as int
    } else {
        0
    }
}

/// The lists after the elements of `order` have voted, one after the
/// other.
pub open spec fn greedy_lists(
    weights: &PairWeights,
    lists: Seq<Seq<Element>>,
    order: Seq<Element>,
    cap: nat,
) -> Seq<Seq<Element>>
    decreases order.len(),
{
    if order.len() == 0 {
        lists
    } else {
        let before = greedy_lists(weights, lists, order.drop_last(), cap);
        place(before, vote(weights, before, order.last(), cap), order.last())
    }
}

/// The assignment after the elements of `order` have voted, one after the
/// other.
pub open spec fn greedy_cells(
    weights: &PairWeights,
    cells: Map<(int, int), usize>,
    lists: Seq<Seq<Element>>,
    order: Seq<Element>,
    cap: nat,
) -> Map<(int, int), usize>
    decreases order.len(),
{
    if order.len() == 0 {
        cells
    } else {
        let before = greedy_lists(weights, lists, order.drop_last(), cap);
        relabel(
            greedy_cells(weights, cells, lists, order.drop_last(), cap),
            order.last(),
            vote(weights, before, order.last(), cap) as usize,
        )
    }
}

/// The weight of a pair of grid elements fits in 64 bits.
pub proof fn lemma_weight_bounds(weights: &PairWeights, i: Element, j: Element)
    requires
        weights.wf(),
        weights.has(i),
        weights.has(j),
    ensures
        i64::MIN <= weights.weight(i, j) <= i64::MAX,
{
    match weights {
        PairWeights::Additive(sim) => {
            lemma_count_fits(sim);
            lemma_pair_slot_in_table(i, j, sim.width(), sim.height());
        },
        PairWeights::Logit(logits) => {
            lemma_logit_count_fits(logits);
            lemma_pair_slot_in_table(i, j, logits.width(), logits.height());
        },
    }
}

/// At most one cluster is the best for an element.
pub proof fn lemma_best_is_unique(
    weights: &PairWeights,
    lists: Seq<Seq<Element>>,
    i: Element,
    c: int,
    d: int,
)
    requires
        is_best(weights, lists, i, c),
        is_best(weights, lists, i, d),
    ensures
        c == d,
{
    assert(lists[c].len() > 0);
    assert(lists[d].len() > 0);
}

/// Among the first `k` clusters, finds the best cluster for `i`, or `-1`
/// when none of them has members.
proof fn lemma_best_among(
    weights: &PairWeights,
    lists: Seq<Seq<Element>>,
    i: Element,
    k: nat,
) -> (c: int)
    requires
        k <= lists.len(),
    ensures
        -1 <= c < k,
        c == -1 ==> forall|d: int| 0 <= d < k ==> (#[trigger] lists[d]).len() == 0,
        c >= 0 ==> lists[c].len() > 0 && forall|d: int|
            0 <= d < k && (#[trigger] lists[d]).len() > 0 ==> {
                &&& quality(weights, i, lists[d]) <= quality(weights, i, lists[c])
                &&& d < c ==> quality(weights, i, lists[d]) < quality(weights, i, lists[c])
            },
    decreases k,
{
    if k == 0 {
        -1
    } else {
        let before = lemma_best_among(weights, lists, i, (k - 1) as nat);
        let last = k - 1;
        if lists[last].len() == 0 {
            before
        } else if before == -1 || quality(weights, i, lists[before]) < quality(
            weights,
            i,
            lists[last],
        ) {
            last
        } else {
            before
        }
    }
}

/// The cluster that an element joins is an existing cluster or the next
/// new one, and a new one only below the cap.
pub proof fn lemma_vote_in_range(weights: &PairWeights, lists: Seq<Seq<Element>>, i: Element, cap: nat)
    requires
        lists.len() > 0 || cap > 0,
    ensures
        0 <= vote(weights, lists, i, cap) <= lists.len(),
        vote(weights, lists, i, cap) == lists.len() ==> lists.len() < cap,
{
    let found = lemma_best_among(weights, lists, i, lists.len());
    if found >= 0 {
        assert(is_best(weights, lists, i, found));
        assert(has_members(lists));
        let best = choose|c: int| is_best(weights, lists, i, c);
        lemma_best_is_unique(weights, lists, i, best, found);
    } else {
        assert(!has_members(lists));
    }
}

/// The cap is respected: after any order has voted there are no more
/// clusters than the cap allows, or than there were if that was more.
pub proof fn law_greedy_respects_the_cap(
    weights: &PairWeights,
    lists: Seq<Seq<Element>>,
    order: Seq<Element>,
    cap: nat,
)
    requires
        order.len() == 0 || lists.len() > 0 || cap > 0,
    ensures
        lists.len() <= greedy_lists(weights, lists, order, cap).len(),
        greedy_lists(weights, lists, order, cap).len() <= lists.len() + order.len(),
        greedy_lists(weights, lists, order, cap).len() <= if lists.len() > cap {
            lists.len()
        } else {
            cap
        },
    decreases order.len(),
{
    if order.len() > 0 {
        law_greedy_respects_the_cap(weights, lists, order.drop_last(), cap);
        let before = greedy_lists(weights, lists, order.drop_last(), cap);
        lemma_vote_in_range(weights, before, order.last(), cap);
    }
}

/// Computes the quality of cluster `c` for element `i`.
fn cluster_quality(
    weights: &PairWeights,
    members: &Vec<Vec<Element>>,
    c: usize,
    i: Element,
) -> (q: i128)
    requires
        weights.wf(),
        weights.has(i),
        c < members@.len(),
        forall|k: int| 0 <= k < members@[c as int]@.len() ==> weights.has(#[trigger] members@[c as int]@[k]),
    ensures
        q == quality(weights, i, members@[c as int]@),
{
    let list = &members[c];
    let mut q: i128 = 0;
    let mut k: usize = 0;
    while k < list.len()
        invariant
            weights.wf(),
            weights.has(i),
            k <= list@.len(),
            forall|m: int| 0 <= m < list@.len() ==> weights.has(#[trigger] list@[m]),
            q == quality(weights, i, list@.take(k as int)),
            -(k * 0x8000_0000_0000_0000) <= q <= k * 0x8000_0000_0000_0000,
        decreases list@.len() - k,
    {
        let j = list[k];
        proof {
            lemma_weight_bounds(weights, i, j);
            assert(list@.take(k + 1).drop_last() =~= list@.take(k as int));
        }
        q = q + weights.get(i, j) as i128;
        k += 1;
    }
    proof {
        assert(list@.take(k as int) =~= list@);
    }
    q
}

/// Picks the cluster that element `i` joins.
fn choose_cluster(
    weights: &PairWeights,
    members: &Vec<Vec<Element>>,
    i: Element,
    cap: usize,
) -> (c: usize)
    requires
        weights.wf(),
        weights.has(i),
        forall|d: int, k: int|
            0 <= d < members@.len() && 0 <= k < members@[d]@.len() ==> weights.has(
                #[trigger] members@[d]@[k],
            ),
        members@.len() > 0 || cap > 0,
    ensures
        c == vote(weights, lists(*members), i, cap as nat),
        c <= members@.len(),
        c == members@.len() ==> members@.len() < cap,
{
    let ghost ls = lists(*members);
    let mut found = false;
    let mut best: usize = 0;
    let mut best_quality: i128 = 0;
    let mut c: usize = 0;
    while c < members.len()
        invariant
            weights.wf(),
            weights.has(i),
            forall|d: int, k: int|
                0 <= d < members@.len() && 0 <= k < members@[d]@.len() ==> weights.has(
                    #[trigger] members@[d]@[k],
                ),
            ls == lists(*members),
            c <= members@.len(),
            !found ==> forall|d: int| 0 <= d < c ==> (#[trigger] ls[d]).len() == 0,
            found ==> {
                &&& best < c
                &&& ls[best as int].len() > 0
                &&& best_quality == quality(weights, i, ls[best as int])
                &&& forall|d: int|
                    0 <= d < c && (#[trigger] ls[d]).len() > 0 ==> {
                        &&& quality(weights, i, ls[d]) <= best_quality
                        &&& d < best ==> quality(weights, i, ls[d]) < best_quality
                    }
            },
        decreases members@.len() - c,
    {
        if members[c].len() > 0 {
            let q = cluster_quality(weights, members, c, i);
            if !found || best_quality < q {
                best = c;
                best_quality = q;
                found = true;
            }
        }
        c += 1;
    }
    proof {
        if found {
            assert(is_best(weights, ls, i, best as int));
            assert(has_members(ls));
            let chosen = choose|c: int| is_best(weights, ls, i, c);
            lemma_best_is_unique(weights, ls, i, best as int, chosen);
        } else {
            assert(!has_members(ls));
        }
    }
    if found {
        if best_quality <= 0 && members.len() < cap {
            members.len()
        } else {
            best
        }
    } else if members.len() < cap {
        members.len()
    } else {
        0
    }
}

/// Whether `order` can vote on the lists: each of its elements lies in the
/// grid and is not listed yet, and none occurs twice.
pub open spec fn can_vote(
    lists: Seq<Seq<Element>>,
    order: Seq<Element>,
    width: nat,
    height: nat,
) -> bool {
    &&& forall|m: int|
        0 <= m < order.len() ==> (#[trigger] order[m]).0 < width && order[m].1 < height
            && unlisted(lists, order[m])
    &&& forall|m: int, n: int| 0 <= m < n < order.len() ==> #[trigger] order[m] != #[trigger] order[n]
}

/// Checks that the elements of `pi` can vote on the lists.
pub fn is_votable(
    cluster_indices: &Vec<Vec<Element>>,
    pi: &Vec<Element>,
    width: usize,
    height: usize,
) -> (ok: bool)
    ensures
        ok == can_vote(lists(*cluster_indices), pi@, width as nat, height as nat),
{
    let mut m: usize = 0;
    while m < pi.len()
        invariant
            m <= pi@.len(),
            forall|j: int|
                0 <= j < m ==> (#[trigger] pi@[j]).0 < width && pi@[j].1 < height && unlisted(
                    lists(*cluster_indices),
                    pi@[j],
                ),
            forall|j: int, n: int| 0 <= j < n < m ==> #[trigger] pi@[j] != #[trigger] pi@[n],
        decreases pi@.len() - m,
    {
        let e = pi[m];
        if e.0 >= width || e.1 >= height {
            return false;
        }
        if !is_unlisted(cluster_indices, e) {
            return false;
        }
        let mut j: usize = 0;
        while j < m
            invariant
                m < pi@.len(),
                e == pi@[m as int],
                j <= m,
                forall|n: int| 0 <= n < j ==> #[trigger] pi@[n] != e,
            decreases m - j,
        {
            if pi[j].0 == e.0 && pi[j].1 == e.1 {
                return false;
            }
            j += 1;
        }
        m += 1;
    }
    true
}

/// Greedy assignment keeps the lists in agreement with the assignment:
/// when elements that are not listed yet vote, afterwards every list still
/// holds just elements of its own cluster, each once, every element that
/// voted or was listed is listed, and no other element is.
pub proof fn law_greedy_keeps_the_partition(
    weights: &PairWeights,
    cells: Map<(int, int), usize>,
    lists: Seq<Seq<Element>>,
    order: Seq<Element>,
    cap: nat,
    width: nat,
    height: nat,
)
    requires
        members_wf(cells, lists, width, height),
        can_vote(lists, order, width, height),
        order.len() == 0 || lists.len() > 0 || cap > 0,
        lists.len() + order.len() <= usize::MAX,
    ensures
        members_wf(
            greedy_cells(weights, cells, lists, order, cap),
            greedy_lists(weights, lists, order, cap),
            width,
            height,
        ),
        forall|e: Element|
            order.contains(e) || listed(cells, lists, e) ==> #[trigger] listed(
                greedy_cells(weights, cells, lists, order, cap),
                greedy_lists(weights, lists, order, cap),
                e,
            ),
        forall|e: Element|
            unlisted(lists, e) && !order.contains(e) ==> #[trigger] unlisted(
                greedy_lists(weights, lists, order, cap),
                e,
            ),
    decreases order.len(),
{
    if order.len() > 0 {
        let prefix = order.drop_last();
        let i = order.last();
        assert(can_vote(lists, prefix, width, height)) by {
            assert forall|m: int| 0 <= m < prefix.len() implies (#[trigger] prefix[m]).0 < width
                && prefix[m].1 < height && unlisted(lists, prefix[m]) by {
                assert(prefix[m] == order[m]);
            }
            assert forall|m: int, n: int| 0 <= m < n < prefix.len() implies #[trigger] prefix[m]
                != #[trigger] prefix[n] by {
                assert(prefix[m] == order[m]);
                assert(prefix[n] == order[n]);
            }
        }
        law_greedy_keeps_the_partition(weights, cells, lists, prefix, cap, width, height);
        law_greedy_respects_the_cap(weights, lists, prefix, cap);
        let cells1 = greedy_cells(weights, cells, lists, prefix, cap);
        let lists1 = greedy_lists(weights, lists, prefix, cap);
        lemma_vote_in_range(weights, lists1, i, cap);
        let c = vote(weights, lists1, i, cap) as usize;
        assert(order[order.len() - 1] == i);
        assert(!prefix.contains(i)) by {
            if prefix.contains(i) {
                let m = choose|m: int| 0 <= m < prefix.len() && prefix[m] == i;
                assert(order[m] != order[order.len() - 1]);
            }
        }
        assert(unlisted(lists1, i));
        lemma_place_keeps(cells1, lists1, width, height, i, c);
        let cells2 = greedy_cells(weights, cells, lists, order, cap);
        let lists2 = greedy_lists(weights, lists, order, cap);
        assert forall|e: Element| order.contains(e) || listed(cells, lists, e) implies #[trigger] listed(
            cells2,
            lists2,
            e,
        ) by {
            if e != i {
                if order.contains(e) {
                    let m = choose|m: int| 0 <= m < order.len() && order[m] == e;
                    assert(prefix[m] == e);
                    assert(prefix.contains(e));
                }
                assert(listed(cells1, lists1, e));
            }
        }
        assert forall|e: Element| unlisted(lists, e) && !order.contains(e) implies #[trigger] unlisted(
            lists2,
            e,
        ) by {
            if prefix.contains(e) {
                let m = choose|m: int| 0 <= m < prefix.len() && prefix[m] == e;
                assert(order[m] == e);
            }
            assert(e != i);
            assert(unlisted(lists1, e));
        }
    }
}

/// Lets every element of `pi` vote in turn, with the given weights.
fn vote_each(
    clusters: &mut Grid,
    cluster_indices: &mut Vec<Vec<Element>>,
    weights: &PairWeights,
    pi: &Vec<Element>,
    no_clusters: usize,
) -> (done: Result<(), ClusterError>)
    requires
        weights.wf(),
        members_wf(
            grid_cells(*old(clusters)),
            lists(*old(cluster_indices)),
            old(clusters).width(),
            old(clusters).height(),
        ),
        can_vote(lists(*old(cluster_indices)), pi@, old(clusters).width(), old(clusters).height()),
        pi@.len() == 0 || old(cluster_indices)@.len() > 0 || no_clusters > 0,
    ensures
        final(clusters).width() == old(clusters).width(),
        final(clusters).height() == old(clusters).height(),
        done.is_ok() <==> old(clusters).width() == weights.width() && old(clusters).height()
            == weights.height(),
        done.is_err() ==> done == Err::<(), ClusterError>(ClusterError::InvalidDimensions)
            && *final(clusters) == *old(clusters) && *final(cluster_indices) == *old(
            cluster_indices,
        ),
        done.is_ok() ==> {
            &&& lists(*final(cluster_indices)) == greedy_lists(
                weights,
                lists(*old(cluster_indices)),
                pi@,
                no_clusters as nat,
            )
            &&& grid_cells(*final(clusters)) == greedy_cells(
                weights,
                grid_cells(*old(clusters)),
                lists(*old(cluster_indices)),
                pi@,
                no_clusters as nat,
            )
            &&& members_wf(
                grid_cells(*final(clusters)),
                lists(*final(cluster_indices)),
                old(clusters).width(),
                old(clusters).height(),
            )
            &&& final(cluster_indices)@.len() <= if old(cluster_indices)@.len() > no_clusters {
                old(cluster_indices)@.len()
            } else {
                no_clusters as nat
            }
            &&& forall|e: Element|
                old(clusters).has(e) && (pi@.contains(e) || listed(
                    grid_cells(*old(clusters)),
                    lists(*old(cluster_indices)),
                    e,
                )) ==> #[trigger] listed(
                    grid_cells(*final(clusters)),
                    lists(*final(cluster_indices)),
                    e,
                )
        },
{
    let (width, height) = clusters.dim();
    let (weights_width, weights_height) = weights.dim();
    if width != weights_width || height != weights_height {
        return Err(ClusterError::InvalidDimensions);
    }
    let ghost cells0 = grid_cells(*clusters);
    let ghost lists0 = lists(*cluster_indices);
    let ghost cap = no_clusters as nat;
    let mut at: usize = 0;
    proof {
        assert(pi@.take(0) =~= Seq::<Element>::empty());
    }
    while at < pi.len()
        invariant
            weights.wf(),
            weights.width() == width,
            weights.height() == height,
            clusters.width() == width,
            clusters.height() == height,
            cap == no_clusters,
            at <= pi@.len(),
            can_vote(lists0, pi@, width as nat, height as nat),
            lists(*cluster_indices) == greedy_lists(weights, lists0, pi@.take(at as int), cap),
            grid_cells(*clusters) == greedy_cells(weights, cells0, lists0, pi@.take(at as int), cap),
            members_wf(
                grid_cells(*clusters),
                lists(*cluster_indices),
                width as nat,
                height as nat,
            ),
            forall|m: int| at <= m < pi@.len() ==> unlisted(lists(*cluster_indices), #[trigger] pi@[m]),
            pi@.len() == 0 || cluster_indices@.len() > 0 || no_clusters > 0,
            cluster_indices@.len() <= if lists0.len() > no_clusters {
                lists0.len()
            } else {
                no_clusters as nat
            },
            forall|m: int|
                0 <= m < at ==> listed(
                    grid_cells(*clusters),
                    lists(*cluster_indices),
                    #[trigger] pi@[m],
                ),
            forall|e: Element|
                listed(cells0, lists0, e) ==> #[trigger] listed(
                    grid_cells(*clusters),
                    lists(*cluster_indices),
                    e,
                ),
        decreases pi@.len() - at,
    {
        let i = pi[at];
        let ghost cells1 = grid_cells(*clusters);
        let ghost lists1 = lists(*cluster_indices);
        proof {
            assert forall|d: int, k: int|
                0 <= d < cluster_indices@.len() && 0 <= k < cluster_indices@[d]@.len() implies weights.has(
                #[trigger] cluster_indices@[d]@[k],
            ) by {
                assert(lists1[d][k] == cluster_indices@[d]@[k]);
            }
        }
        let c = choose_cluster(weights, cluster_indices, i, no_clusters);
        if c == cluster_indices.len() {
            cluster_indices.push(Vec::new());
        }
        cluster_indices[c].push(i);
        clusters.assign(i, c);
        proof {
            let lists2 = lists(*cluster_indices);
            let order = pi@.take(at + 1);
            assert(order.drop_last() =~= pi@.take(at as int));
            assert(order.last() == i);
            assert(lists2 =~= place(lists1, c as int, i)) by {
                if c == lists1.len() {
                    assert(lists2[c as int] =~= seq![i]);
                } else {
                    assert(lists2[c as int] =~= lists1[c as int].push(i));
                }
            }
            assert(unlisted(lists1, i));
            lemma_place_keeps(cells1, lists1, width as nat, height as nat, i, c);
            assert forall|m: int| at + 1 <= m < pi@.len() implies unlisted(
                lists2,
                #[trigger] pi@[m],
            ) by {
                assert(pi@[at as int] != pi@[m]);
                assert(unlisted(lists1, pi@[m]));
            }
            assert forall|m: int| 0 <= m < at + 1 implies listed(
                grid_cells(*clusters),
                lists2,
                #[trigger] pi@[m],
            ) by {
                if m < at {
                    assert(pi@[m] != pi@[at as int]);
                    assert(listed(cells1, lists1, pi@[m]));
                }
            }
            assert forall|e: Element| listed(cells0, lists0, e) implies #[trigger] listed(
                grid_cells(*clusters),
                lists2,
                e,
            ) by {
                assert(listed(cells1, lists1, e));
                let d = label(cells1, e) as int;
                let k = choose|k: int| 0 <= k < lists1[d].len() && lists1[d][k] == e;
                assert(lists1[d][k] != i);
            }
        }
        at += 1;
    }
    proof {
        assert(pi@.take(at as int) =~= pi@);
        assert forall|e: Element|
            old(clusters).has(e) && (pi@.contains(e) || listed(cells0, lists0, e)) implies #[trigger] listed(
            grid_cells(*clusters),
            lists(*cluster_indices),
            e,
        ) by {
            if !listed(cells0, lists0, e) {
                let m = choose|m: int| 0 <= m < pi@.len() && pi@[m] == e;
                assert(listed(grid_cells(*clusters), lists(*cluster_indices), pi@[m]));
            }
        }
    }
    Ok(())
}

/// Greedy assignment with logit weights. The elements of `pi` are visited in
/// order; each joins the cluster of highest quality among those with
/// members, the lowest id winning ties, or opens a new cluster when that
/// quality is zero or less and fewer than `no_clusters` clusters exist. Once
/// `no_clusters` exist an element joins its best cluster whatever the sign
/// of the quality. A grid whose shape is not that of the weights is
/// rejected and nothing changes.
pub fn cc_vote_logarithmic(
    clusters: &mut Grid,
    cluster_indices: &mut Vec<Vec<Element>>,
    logits: &LogitWeights,
    pi: &Vec<Element>,
    no_clusters: usize,
) -> (done: Result<(), ClusterError>)
    requires
        logits.wf(),
        members_wf(
            grid_cells(*old(clusters)),
            lists(*old(cluster_indices)),
            old(clusters).width(),
            old(clusters).height(),
        ),
        can_vote(lists(*old(cluster_indices)), pi@, old(clusters).width(), old(clusters).height()),
        pi@.len() == 0 || old(cluster_indices)@.len() > 0 || no_clusters > 0,
    ensures
        final(clusters).width() == old(clusters).width(),
        final(clusters).height() == old(clusters).height(),
        done.is_ok() <==> old(clusters).width() == logits.width() && old(clusters).height()
            == logits.height(),
        done.is_err() ==> done == Err::<(), ClusterError>(ClusterError::InvalidDimensions)
            && *final(clusters) == *old(clusters) && *final(cluster_indices) == *old(
            cluster_indices,
        ),
        done.is_ok() ==> {
            &&& lists(*final(cluster_indices)) == greedy_lists(
                &PairWeights::Logit(logits),
                lists(*old(cluster_indices)),
                pi@,
                no_clusters as nat,
            )
            &&& grid_cells(*final(clusters)) == greedy_cells(
                &PairWeights::Logit(logits),
                grid_cells(*old(clusters)),
                lists(*old(cluster_indices)),
                pi@,
                no_clusters as nat,
            )
            &&& members_wf(
                grid_cells(*final(clusters)),
                lists(*final(cluster_indices)),
                old(clusters).width(),
                old(clusters).height(),
            )
            &&& final(cluster_indices)@.len() <= if old(cluster_indices)@.len() > no_clusters {
                old(cluster_indices)@.len()
            } else {
                no_clusters as nat
            }
            &&& forall|e: Element|
                old(clusters).has(e) && (pi@.contains(e) || listed(
                    grid_cells(*old(clusters)),
                    lists(*old(cluster_indices)),
                    e,
                )) ==> #[trigger] listed(
                    grid_cells(*final(clusters)),
                    lists(*final(cluster_indices)),
                    e,
                )
        },
{
    let weights = PairWeights::Logit(logits);
    vote_each(clusters, cluster_indices, &weights, pi, no_clusters)
}

/// Greedy assignment with additive weights: as `cc_vote_logarithmic`, with
/// the weight of a pair taken as twice its similarity less one.
pub fn cc_vote_additive(
    clusters: &mut Grid,
    cluster_indices: &mut Vec<Vec<Element>>,
    similarity: &Similarity,
    pi: &Vec<Element>,
    no_clusters: usize,
) -> (done: Result<(), ClusterError>)
    requires
        similarity.wf(),
        members_wf(
            grid_cells(*old(clusters)),
            lists(*old(cluster_indices)),
            old(clusters).width(),
            old(clusters).height(),
        ),
        can_vote(lists(*old(cluster_indices)), pi@, old(clusters).width(), old(clusters).height()),
        pi@.len() == 0 || old(cluster_indices)@.len() > 0 || no_clusters > 0,
    ensures
        final(clusters).width() == old(clusters).width(),
        final(clusters).height() == old(clusters).height(),
        done.is_ok() <==> old(clusters).width() == similarity.width() && old(clusters).height()
            == similarity.height(),
        done.is_err() ==> done == Err::<(), ClusterError>(ClusterError::InvalidDimensions)
            && *final(clusters) == *old(clusters) && *final(cluster_indices) == *old(
            cluster_indices,
        ),
        done.is_ok() ==> {
            &&& lists(*final(cluster_indices)) == greedy_lists(
                &PairWeights::Additive(similarity),
                lists(*old(cluster_indices)),
                pi@,
                no_clusters as nat,
            )
            &&& grid_cells(*final(clusters)) == greedy_cells(
                &PairWeights::Additive(similarity),
                grid_cells(*old(clusters)),
                lists(*old(cluster_indices)),
                pi@,
                no_clusters as nat,
            )
            &&& members_wf(
                grid_cells(*final(clusters)),
                lists(*final(cluster_indices)),
                old(clusters).width(),
                old(clusters).height(),
            )
            &&& final(cluster_indices)@.len() <= if old(cluster_indices)@.len() > no_clusters {
                old(cluster_indices)@.len()
            } else {
                no_clusters as nat
            }
            &&& forall|e: Element|
                old(clusters).has(e) && (pi@.contains(e) || listed(
                    grid_cells(*old(clusters)),
                    lists(*old(cluster_indices)),
                    e,
                )) ==> #[trigger] listed(
                    grid_cells(*final(clusters)),
                    lists(*final(cluster_indices)),
                    e,
                )
        },
{
    let weights = PairWeights::Additive(similarity);
    vote_each(clusters, cluster_indices, &weights, pi, no_clusters)
}

} // verus!
