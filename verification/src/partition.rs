//! A partition of the grid: the assignment of elements to clusters together
//! with the list of members of each cluster.

use crate::grid::{grid_cells, in_grid, Element, Grid};
use crate::objective::label;
use vstd::prelude::*;

verus! {

/// The member lists as sequences: entry `c` lists the elements of
/// cluster `c`.
pub open spec fn lists(members: Vec<Vec<Element>>) -> Seq<Seq<Element>> {
    Seq::new(members@.len(), |c: int| members@[c]@)
}

/// Whether element `e` stands in the list of the cluster that `cells`
/// gives it.
pub open spec fn listed(
    cells: Map<(int, int), usize>,
    lists: Seq<Seq<Element>>,
    e: Element,
) -> bool {
    label(cells, e) < lists.len() && lists[label(cells, e) as int].contains(e)
}

/// The lists agree with the assignment: every listed element lies in the
/// grid and is assigned to the cluster that lists it, and no list holds an
/// element twice.
pub open spec fn members_wf(
    cells: Map<(int, int), usize>,
    lists: Seq<Seq<Element>>,
    width: nat,
    height: nat,
) -> bool {
    &&& forall|c: int, k: int|
        0 <= c < lists.len() && 0 <= k < lists[c].len() ==> in_grid(
            #[trigger] lists[c][k],
            width,
            height,
        ) && label(cells, lists[c][k]) == c
    &&& forall|c: int, k: int, m: int|
        0 <= c < lists.len() && 0 <= k < m < lists[c].len() ==> #[trigger] lists[c][k]
            != #[trigger] lists[c][m]
}

/// The assignment and the lists describe the same partition of the whole
/// grid: the lists agree with the assignment, and every element of the grid
/// stands in the list of its cluster.
pub open spec fn complete(
    cells: Map<(int, int), usize>,
    lists: Seq<Seq<Element>>,
    width: nat,
    height: nat,
) -> bool {
    &&& members_wf(cells, lists, width, height)
    &&& forall|e: Element| in_grid(e, width, height) ==> #[trigger] listed(cells, lists, e)
}

/// No list holds `e`.
pub open spec fn unlisted(lists: Seq<Seq<Element>>, e: Element) -> bool {
    forall|c: int, k: int| 0 <= c < lists.len() && 0 <= k < lists[c].len() ==> #[trigger] lists[c][k] != e
}

/// The lists after `e` joins cluster `c`: appended to list `c`, or alone in
/// a new last list when `c` is the number of lists.
pub open spec fn place(lists: Seq<Seq<Element>>, c: int, e: Element) -> Seq<Seq<Element>> {
    if c == lists.len() {
        lists.push(seq![e])
    } else {
        lists.update(c, lists[c].push(e))
    }
}

/// The assignment after `e` is given cluster `c`.
pub open spec fn relabel(cells: Map<(int, int), usize>, e: Element, c: usize) -> Map<
    (int, int),
    usize,
> {
    cells.insert((e.0 as int, e.1 as int), c)
}

/// What one placement preserves: when an unlisted element of the grid joins
/// cluster `c`, the lists still agree with the assignment, the element is
/// listed, every other listed element stays listed, and every other
/// unlisted element stays unlisted.
pub proof fn lemma_place_keeps(
    cells: Map<(int, int), usize>,
    lists: Seq<Seq<Element>>,
    width: nat,
    height: nat,
    i: Element,
    c: usize,
)
    requires
        members_wf(cells, lists, width, height),
        in_grid(i, width, height),
        unlisted(lists, i),
        c <= lists.len(),
    ensures
        members_wf(relabel(cells, i, c), place(lists, c as int, i), width, height),
        listed(relabel(cells, i, c), place(lists, c as int, i), i),
        forall|e: Element|
            e != i && listed(cells, lists, e) ==> #[trigger] listed(
                relabel(cells, i, c),
                place(lists, c as int, i),
                e,
            ),
        forall|e: Element|
            e != i && unlisted(lists, e) ==> #[trigger] unlisted(place(lists, c as int, i), e),
        place(lists, c as int, i).len() == lists.len() + if c == lists.len() {
            1nat
        } else {
            0nat
        },
{
    let cells2 = relabel(cells, i, c);
    let lists2 = place(lists, c as int, i);
    assert forall|d: int, k: int| 0 <= d < lists2.len() && 0 <= k < lists2[d].len() implies in_grid(
        #[trigger] lists2[d][k],
        width,
        height,
    ) && label(cells2, lists2[d][k]) == d by {
        if d == c && k == lists2[d].len() - 1 {
            assert(lists2[d][k] == i);
        } else {
            assert(lists2[d][k] == lists[d][k]);
            assert(lists[d][k] != i);
        }
    }
    assert forall|d: int, k: int, m: int|
        0 <= d < lists2.len() && 0 <= k < m < lists2[d].len() implies #[trigger] lists2[d][k]
        != #[trigger] lists2[d][m] by {
        if d == c && m == lists2[d].len() - 1 {
            assert(lists2[d][m] == i);
            assert(lists2[d][k] == lists[d][k]);
            assert(lists[d][k] != i);
        } else {
            assert(lists2[d][k] == lists[d][k]);
            assert(lists2[d][m] == lists[d][m]);
        }
    }
    assert(listed(cells2, lists2, i)) by {
        let last = lists2[c as int].len() - 1;
        assert(lists2[c as int][last] == i);
    }
    assert forall|e: Element| e != i && listed(cells, lists, e) implies #[trigger] listed(
        cells2,
        lists2,
        e,
    ) by {
        let d = label(cells, e) as int;
        assert(label(cells2, e) == d);
        let k = choose|k: int| 0 <= k < lists[d].len() && lists[d][k] == e;
        assert(lists2[d][k] == e);
    }
    assert forall|e: Element| e != i && unlisted(lists, e) implies #[trigger] unlisted(
        lists2,
        e,
    ) by {
        assert forall|d: int, k: int|
            0 <= d < lists2.len() && 0 <= k < lists2[d].len() implies #[trigger] lists2[d][k]
            != e by {
            if d == c && k == lists2[d].len() - 1 {
                assert(lists2[d][k] == i);
            } else {
                assert(lists2[d][k] == lists[d][k]);
            }
        }
    }
}

/// Whether a list holds an element.
pub fn holds(list: &Vec<Element>, e: Element) -> (found: bool)
    ensures
        found == list@.contains(e),
{
    let mut k: usize = 0;
    while k < list.len()
        invariant
            k <= list@.len(),
            forall|m: int| 0 <= m < k ==> #[trigger] list@[m] != e,
        decreases list@.len() - k,
    {
        if list[k].0 == e.0 && list[k].1 == e.1 {
            return true;
        }
        k += 1;
    }
    false
}

/// Checks that the lists agree with the assignment.
pub fn lists_agree(clusters: &Grid, cluster_indices: &Vec<Vec<Element>>) -> (ok: bool)
    ensures
        ok == members_wf(
            grid_cells(*clusters),
            lists(*cluster_indices),
            clusters.width(),
            clusters.height(),
        ),
{
    let (width, height) = clusters.dim();
    let ghost cells = grid_cells(*clusters);
    let ghost ls = lists(*cluster_indices);
    let mut c: usize = 0;
    while c < cluster_indices.len()
        invariant
            clusters.width() == width,
            clusters.height() == height,
            cells == grid_cells(*clusters),
            ls == lists(*cluster_indices),
            c <= cluster_indices@.len(),
            forall|d: int, k: int|
                0 <= d < c && 0 <= k < ls[d].len() ==> in_grid(
                    #[trigger] ls[d][k],
                    width as nat,
                    height as nat,
                ) && label(cells, ls[d][k]) == d,
            forall|d: int, k: int, m: int|
                0 <= d < c && 0 <= k < m < ls[d].len() ==> #[trigger] ls[d][k]
                    != #[trigger] ls[d][m],
        decreases cluster_indices@.len() - c,
    {
        let list = &cluster_indices[c];
        proof {
            assert(ls[c as int] == list@);
        }
        let mut k: usize = 0;
        while k < list.len()
            invariant
                clusters.width() == width,
                clusters.height() == height,
                cells == grid_cells(*clusters),
                ls == lists(*cluster_indices),
                c < cluster_indices@.len(),
                ls[c as int] == list@,
                k <= list@.len(),
                forall|j: int|
                    0 <= j < k ==> in_grid(#[trigger] list@[j], width as nat, height as nat)
                        && label(cells, list@[j]) == c,
                forall|j: int, m: int|
                    0 <= j < m < k ==> #[trigger] list@[j] != #[trigger] list@[m],
            decreases list@.len() - k,
        {
            let e = list[k];
            proof {
                assert(ls[c as int][k as int] == e);
            }
            if e.0 >= width || e.1 >= height {
                return false;
            }
            if clusters.id_of(e) != c {
                return false;
            }
            let mut m: usize = 0;
            while m < k
                invariant
                    ls == lists(*cluster_indices),
                    c < cluster_indices@.len(),
                    ls[c as int] == list@,
                    k < list@.len(),
                    e == list@[k as int],
                    m <= k,
                    forall|j: int| 0 <= j < m ==> #[trigger] list@[j] != e,
                decreases k - m,
            {
                if list[m].0 == e.0 && list[m].1 == e.1 {
                    proof {
                        assert(ls[c as int][m as int] == ls[c as int][k as int]);
                    }
                    return false;
                }
                m += 1;
            }
            k += 1;
        }
        c += 1;
    }
    true
}

/// Checks that the assignment and the lists describe one partition of the
/// whole grid.
pub fn is_complete(clusters: &Grid, cluster_indices: &Vec<Vec<Element>>) -> (ok: bool)
    ensures
        ok == complete(
            grid_cells(*clusters),
            lists(*cluster_indices),
            clusters.width(),
            clusters.height(),
        ),
{
    if !lists_agree(clusters, cluster_indices) {
        return false;
    }
    let (width, height) = clusters.dim();
    let ghost cells = grid_cells(*clusters);
    let ghost ls = lists(*cluster_indices);
    let mut x: usize = 0;
    while x < width
        invariant
            clusters.width() == width,
            clusters.height() == height,
            cells == grid_cells(*clusters),
            ls == lists(*cluster_indices),
            members_wf(cells, ls, width as nat, height as nat),
            x <= width,
            forall|e: Element| e.0 < x && e.1 < height ==> #[trigger] listed(cells, ls, e),
        decreases width - x,
    {
        let mut y: usize = 0;
        while y < height
            invariant
                clusters.width() == width,
                clusters.height() == height,
                cells == grid_cells(*clusters),
                ls == lists(*cluster_indices),
                members_wf(cells, ls, width as nat, height as nat),
                x < width,
                y <= height,
                forall|e: Element| e.0 < x && e.1 < height ==> #[trigger] listed(cells, ls, e),
                forall|e: Element| e.0 == x && e.1 < y ==> #[trigger] listed(cells, ls, e),
            decreases height - y,
        {
            let c = clusters.id_of((x, y));
            if c >= cluster_indices.len() {
                proof {
                    assert(!listed(cells, ls, (x, y)));
                }
                return false;
            }
            proof {
                assert(ls[c as int] == cluster_indices@[c as int]@);
            }
            if !holds(&cluster_indices[c], (x, y)) {
                proof {
                    assert(!listed(cells, ls, (x, y)));
                }
                return false;
            }
            y += 1;
        }
        x += 1;
    }
    true
}

/// Checks that no list holds `e`.
pub fn is_unlisted(cluster_indices: &Vec<Vec<Element>>, e: Element) -> (ok: bool)
    ensures
        ok == unlisted(lists(*cluster_indices), e),
{
    let ghost ls = lists(*cluster_indices);
    let mut c: usize = 0;
    while c < cluster_indices.len()
        invariant
            ls == lists(*cluster_indices),
            c <= cluster_indices@.len(),
            forall|d: int, k: int| 0 <= d < c && 0 <= k < ls[d].len() ==> #[trigger] ls[d][k] != e,
        decreases cluster_indices@.len() - c,
    {
        proof {
            assert(ls[c as int] == cluster_indices@[c as int]@);
        }
        if holds(&cluster_indices[c], e) {
            proof {
                let k = choose|k: int| 0 <= k < ls[c as int].len() && ls[c as int][k] == e;
                assert(ls[c as int][k] == e);
            }
            return false;
        }
        c += 1;
    }
    true
}

} // verus!
