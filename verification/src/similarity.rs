//! Pairwise similarity of grid elements in fixed point, and the tables of
//! pair weights derived from it.

use crate::elements::{
    all_elements, flat, indices, lemma_element_of_flat, lemma_flat_of_element,
};
use crate::grid::{in_grid, Element};
use vstd::prelude::*;

verus! {

/// The fixed-point unit: a similarity of `s / SCALE` is stored as `s`.
pub const SCALE: u32 = 1_000_000_000;

/// Why an input was rejected.
#[derive(Clone, Copy, Debug, PartialEq, Eq, Structural)]
pub enum ClusterError {
    /// The shape of a table does not match the grid it is used with.
    InvalidDimensions,
    /// A similarity is not strictly between 0 and 1.
    DegenerateSimilarity,
}

/// Slot of the ordered pair `(i, j)` in a table over the pairs of elements
/// of a `width` by `height` grid.
pub open spec fn pair_slot(i: Element, j: Element, width: nat, height: nat) -> int {
    flat(i, height) * (width * height) + flat(j, height)
}

/// The slot of a pair of grid elements lies inside a table of
/// `(width * height)` squared entries.
pub proof fn lemma_pair_slot_in_table(i: Element, j: Element, width: nat, height: nat)
    requires
        in_grid(i, width, height),
        in_grid(j, width, height),
        width * height <= usize::MAX,
    ensures
        0 <= flat(i, height) < width * height,
        0 <= flat(j, height) < width * height,
        0 <= pair_slot(i, j, width, height) < (width * height) * (width * height),
{
    lemma_flat_of_element(i, width, height);
    lemma_flat_of_element(j, width, height);
    let count = width * height;
    lemma_flat_of_element((flat(i, height) as usize, flat(j, height) as usize), count, count);
}

/// Computes the slot of a pair of grid elements.
fn slot_of(i: Element, j: Element, width: usize, height: usize, len: usize) -> (slot: usize)
    requires
        in_grid(i, width as nat, height as nat),
        in_grid(j, width as nat, height as nat),
        (width * height) * (width * height) == len,
    ensures
        slot == pair_slot(i, j, width as nat, height as nat),
        slot < len,
{
    proof {
        assert(width * height >= 1) by (nonlinear_arith)
            requires
                i.0 < width,
                i.1 < height,
        ;
        assert(width * height <= len) by (nonlinear_arith)
            requires
                (width * height) * (width * height) == len,
                width * height >= 1,
        ;
        lemma_pair_slot_in_table(i, j, width as nat, height as nat);
        assert(i.0 * height >= 0) by (nonlinear_arith);
        assert(j.0 * height >= 0) by (nonlinear_arith);
        assert(flat(i, height as nat) * (width * height) >= 0) by (nonlinear_arith)
            requires
                flat(i, height as nat) >= 0,
                width * height >= 0,
        ;
    }
    let count: usize = width * height;
    let a: usize = i.0 * height + i.1;
    let b: usize = j.0 * height + j.1;
    a * count + b
}

/// Checks that a table of `len` entries has one entry for each ordered pair
/// of elements of a `width` by `height` grid.
fn table_fits(width: usize, height: usize, len: usize) -> (fits: bool)
    ensures
        fits == ((width * height) * (width * height) == len),
{
    match width.checked_mul(height) {
        Some(count) => match count.checked_mul(count) {
            Some(pairs) => pairs == len,
            None => false,
        },
        None => {
            proof {
                assert((width * height) * (width * height) > usize::MAX) by (nonlinear_arith)
                    requires
                        width * height > usize::MAX,
                ;
            }
            false
        },
    }
}

/// Similarity scores for every ordered pair of elements of a grid, each
/// strictly between 0 and `SCALE`.
pub struct Similarity {
    width: usize,
    height: usize,
    scores: Vec<u32>,
}

impl Similarity {
    /// Width of the grid the scores are for.
    pub closed spec fn width(&self) -> nat {
        self.width as nat
    }

    /// Height of the grid the scores are for.
    pub closed spec fn height(&self) -> nat {
        self.height as nat
    }

    /// The stored scores, one per pair slot.
    pub closed spec fn table(&self) -> Seq<u32> {
        self.scores@
    }

    /// Number of elements of the grid.
    pub open spec fn count(&self) -> nat {
        self.width() * self.height()
    }

    /// The table has one score for each ordered pair, and every score lies
    /// strictly between 0 and `SCALE`.
    pub open spec fn wf(&self) -> bool {
        &&& self.count() * self.count() == self.table().len()
        &&& forall|k: int| 0 <= k < self.table().len() ==> 0 < #[trigger] self.table()[k] < SCALE
    }

    /// Whether `e` is an element of the grid the scores are for.
    pub open spec fn has(&self, e: Element) -> bool {
        in_grid(e, self.width(), self.height())
    }

    /// The similarity of the ordered pair `(i, j)`.
    pub open spec fn at(&self, i: Element, j: Element) -> int {
        self.table()[pair_slot(i, j, self.width(), self.height())] as int
    }

    /// The additive weight of the pair: positive when the two are more
    /// similar than not.
    pub open spec fn weight(&self, i: Element, j: Element) -> int {
        2 * self.at(i, j) - SCALE
    }

    /// Whether the similarity of every pair is the same in both directions.
    pub open spec fn symmetric(&self) -> bool {
        forall|i: Element, j: Element|
            self.has(i) && self.has(j) ==> #[trigger] self.at(i, j) == self.at(j, i)
    }

    /// Builds the scores of a `width` by `height` grid from a table in slot
    /// order. The shape is checked first; then every score must lie strictly
    /// between 0 and `SCALE`.
    pub fn new(width: usize, height: usize, scores: Vec<u32>) -> (made: Result<
        Similarity,
        ClusterError,
    >)
        ensures
            (width * height) * (width * height) != scores@.len() ==> made == Err::<
                Similarity,
                ClusterError,
            >(ClusterError::InvalidDimensions),
            (width * height) * (width * height) == scores@.len() ==> {
                if forall|k: int| 0 <= k < scores@.len() ==> 0 < #[trigger] scores@[k] < SCALE {
                    (made matches Ok(sim) && sim.wf() && sim.width() == width && sim.height()
                        == height && sim.table() == scores@)
                } else {
                    made == Err::<Similarity, ClusterError>(ClusterError::DegenerateSimilarity)
                }
            },
    {
        if !table_fits(width, height, scores.len()) {
            return Err(ClusterError::InvalidDimensions);
        }
        let mut k: usize = 0;
        while k < scores.len()
            invariant
                k <= scores.len(),
                (width * height) * (width * height) == scores@.len(),
                forall|m: int| 0 <= m < k ==> 0 < #[trigger] scores@[m] < SCALE,
            decreases scores.len() - k,
        {
            if scores[k] == 0 || scores[k] >= SCALE {
                return Err(ClusterError::DegenerateSimilarity);
            }
            k += 1;
        }
        Ok(Similarity { width, height, scores })
    }

    /// The shape `(width, height)` of the grid the scores are for.
    pub fn dim(&self) -> (shape: (usize, usize))
        ensures
            shape.0 == self.width(),
            shape.1 == self.height(),
    {
        (self.width, self.height)
    }

    /// Checks whether the similarity of every pair is the same in both
    /// directions.
    pub fn is_symmetric(&self) -> (ok: bool)
        requires
            self.wf(),
        ensures
            ok == self.symmetric(),
    {
        proof {
            lemma_count_fits(self);
        }
        let all = indices(self.width, self.height);
        let n: usize = all.len();
        let ghost w = self.width();
        let ghost h = self.height();
        let mut a: usize = 0;
        while a < n
            invariant
                self.wf(),
                w == self.width(),
                h == self.height(),
                w * h <= usize::MAX,
                all@ == all_elements(w, h),
                n == all@.len(),
                a <= n,
                forall|p: int, q: int|
                    0 <= p < a && 0 <= q < n ==> self.at(#[trigger] all@[p], #[trigger] all@[q])
                        == self.at(all@[q], all@[p]),
            decreases n - a,
        {
            let mut b: usize = 0;
            while b < n
                invariant
                    self.wf(),
                    w == self.width(),
                    h == self.height(),
                    w * h <= usize::MAX,
                    all@ == all_elements(w, h),
                    n == all@.len(),
                    a < n,
                    b <= n,
                    forall|p: int, q: int|
                        0 <= p < a && 0 <= q < n ==> self.at(
                            #[trigger] all@[p],
                            #[trigger] all@[q],
                        ) == self.at(all@[q], all@[p]),
                    forall|q: int|
                        0 <= q < b ==> self.at(all@[a as int], #[trigger] all@[q]) == self.at(
                            all@[q],
                            all@[a as int],
                        ),
                decreases n - b,
            {
                proof {
                    lemma_element_of_flat(a as int, w, h);
                    lemma_element_of_flat(b as int, w, h);
                }
                if self.score(all[a], all[b]) != self.score(all[b], all[a]) {
                    return false;
                }
                b += 1;
            }
            a += 1;
        }
        proof {
            assert forall|i: Element, j: Element| self.has(i) && self.has(j) implies #[trigger] self.at(
                i,
                j,
            ) == self.at(j, i) by {
                lemma_flat_of_element(i, w, h);
                lemma_flat_of_element(j, w, h);
                assert(all@[flat(i, h)] == i);
                assert(all@[flat(j, h)] == j);
            }
        }
        true
    }

    /// The similarity of the ordered pair `(i, j)`.
    pub fn score(&self, i: Element, j: Element) -> (s: u32)
        requires
            self.wf(),
            self.has(i),
            self.has(j),
        ensures
            s == self.at(i, j),
            0 < s < SCALE,
    {
        let slot = slot_of(i, j, self.width, self.height, self.scores.len());
        self.scores[slot]
    }
}

/// The number of elements of the grid of well-formed scores, and its
/// square, fit in `usize`.
pub proof fn lemma_count_fits(sim: &Similarity)
    requires
        sim.wf(),
    ensures
        sim.count() <= usize::MAX,
        sim.count() * sim.count() <= usize::MAX,
{
    let n = sim.count() as int;
    assert(sim.scores.len() == sim.table().len());
    assert(n <= n * n) by (nonlinear_arith)
        requires
            0 <= n,
    ;
}

/// The number of elements of the grid of well-formed weights, and its
/// square, fit in `usize`.
pub proof fn lemma_logit_count_fits(logits: &LogitWeights)
    requires
        logits.wf(),
    ensures
        logits.width() * logits.height() <= usize::MAX,
        (logits.width() * logits.height()) * (logits.width() * logits.height()) <= usize::MAX,
{
    let n = (logits.width() * logits.height()) as int;
    assert(logits.values.len() == logits.table().len());
    assert(n <= n * n) by (nonlinear_arith)
        requires
            0 <= n,
    ;
}

/// Logit weights for every ordered pair of elements of a grid, in fixed
/// point: the entry for a pair of similarity `p` stands for
/// `ln(p) - ln(1 - p)`. The logarithm is not an integer operation, so the
/// caller supplies the table.
pub struct LogitWeights {
    width: usize,
    height: usize,
    values: Vec<i64>,
}

impl LogitWeights {
    /// Width of the grid the weights are for.
    pub closed spec fn width(&self) -> nat {
        self.width as nat
    }

    /// Height of the grid the weights are for.
    pub closed spec fn height(&self) -> nat {
        self.height as nat
    }

    /// The stored weights, one per pair slot.
    pub closed spec fn table(&self) -> Seq<i64> {
        self.values@
    }

    /// The table has one weight for each ordered pair.
    pub open spec fn wf(&self) -> bool {
        (self.width() * self.height()) * (self.width() * self.height()) == self.table().len()
    }

    /// Whether `e` is an element of the grid the weights are for.
    pub open spec fn has(&self, e: Element) -> bool {
        in_grid(e, self.width(), self.height())
    }

    /// The weight of the ordered pair `(i, j)`.
    pub open spec fn weight(&self, i: Element, j: Element) -> int {
        self.table()[pair_slot(i, j, self.width(), self.height())] as int
    }

    /// Builds the weights of a `width` by `height` grid from a table in
    /// slot order.
    pub fn new(width: usize, height: usize, values: Vec<i64>) -> (made: Result<
        LogitWeights,
        ClusterError,
    >)
        ensures
            (width * height) * (width * height) != values@.len() ==> made == Err::<
                LogitWeights,
                ClusterError,
            >(ClusterError::InvalidDimensions),
            (width * height) * (width * height) == values@.len() ==> (made matches Ok(logits)
                && logits.wf() && logits.width() == width && logits.height() == height
                && logits.table() == values@),
    {
        if !table_fits(width, height, values.len()) {
            return Err(ClusterError::InvalidDimensions);
        }
        Ok(LogitWeights { width, height, values })
    }

    /// The shape `(width, height)` of the grid the weights are for.
    pub fn dim(&self) -> (shape: (usize, usize))
        ensures
            shape.0 == self.width(),
            shape.1 == self.height(),
    {
        (self.width, self.height)
    }

    /// The weight of the ordered pair `(i, j)`.
    pub fn get(&self, i: Element, j: Element) -> (w: i64)
        requires
            self.wf(),
            self.has(i),
            self.has(j),
        ensures
            w == self.weight(i, j),
    {
        let slot = slot_of(i, j, self.width, self.height, self.values.len());
        self.values[slot]
    }
}

} // verus!
