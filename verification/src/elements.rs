//! The elements of a grid in their canonical order: ascending `x`, then
//! ascending `y`.

use crate::grid::{in_grid, Element};
use vstd::arithmetic::div_mod::{lemma_fundamental_div_mod, lemma_fundamental_div_mod_converse};
use vstd::arithmetic::mul::{lemma_mul_inequality, lemma_mul_is_commutative};
use vstd::prelude::*;

verus! {

/// Position of element `e` in the canonical order of a grid of the given
/// height.
pub open spec fn flat(e: Element, height: nat) -> int {
    e.0 * height + e.1
}

/// The element at position `k` of the canonical order.
pub open spec fn element_at(k: int, height: nat) -> Element {
    ((k / height as int) as usize, (k % height as int) as usize)
}

/// Every element of a `width` by `height` grid, each once, in canonical
/// order.
pub open spec fn all_elements(width: nat, height: nat) -> Seq<Element> {
    Seq::new(width * height, |k: int| element_at(k, height))
}

/// An element of the grid has a position below `width * height`, and the
/// canonical order holds it there.
pub proof fn lemma_flat_of_element(e: Element, width: nat, height: nat)
    requires
        in_grid(e, width, height),
    ensures
        0 <= flat(e, height) < width * height,
        element_at(flat(e, height), height) == e,
        all_elements(width, height)[flat(e, height)] == e,
{
    let x = e.0 as int;
    let h = height as int;
    assert(x * h + h <= width * h) by {
        lemma_mul_inequality(x + 1, width as int, h);
        assert((x + 1) * h == x * h + h) by (nonlinear_arith);
    }
    assert(0 <= x * h) by (nonlinear_arith)
        requires
            0 <= x,
            0 <= h,
    ;
    lemma_fundamental_div_mod_converse(flat(e, height), h, x, e.1 as int);
}

/// The element at a position below `width * height` lies in the grid, and
/// its position is that one.
pub proof fn lemma_element_of_flat(k: int, width: nat, height: nat)
    requires
        0 <= k < width * height,
        width * height <= usize::MAX,
    ensures
        in_grid(element_at(k, height), width, height),
        flat(element_at(k, height), height) == k,
        all_elements(width, height)[k] == element_at(k, height),
{
    let h = height as int;
    assert(h > 0) by (nonlinear_arith)
        requires
            0 <= k < width * h,
            0 <= h,
    ;
    lemma_fundamental_div_mod(k, h);
    lemma_mul_is_commutative(h, k / h);
    let q = k / h;
    let r = k % h;
    assert(0 <= r < h);
    assert(0 <= q < width) by (nonlinear_arith)
        requires
            k == q * h + r,
            0 <= r < h,
            0 <= k < width * h,
    ;
    assert(q <= k) by (nonlinear_arith)
        requires
            k == q * h + r,
            0 <= r,
            0 <= q,
            h >= 1,
    ;
}

/// Distinct elements of the grid have distinct positions.
pub proof fn lemma_flat_injective(a: Element, b: Element, width: nat, height: nat)
    requires
        in_grid(a, width, height),
        in_grid(b, width, height),
        flat(a, height) == flat(b, height),
    ensures
        a == b,
{
    lemma_flat_of_element(a, width, height);
    lemma_flat_of_element(b, width, height);
}

/// The elements of a `width` by `height` grid in canonical order.
pub fn indices(width: usize, height: usize) -> (all: Vec<Element>)
    requires
        width * height <= usize::MAX,
    ensures
        all@ == all_elements(width as nat, height as nat),
{
    let mut all: Vec<Element> = Vec::new();
    let mut x: usize = 0;
    while x < width
        invariant
            x <= width,
            width * height <= usize::MAX,
            all@.len() == x * height,
            forall|k: int| 0 <= k < all@.len() ==> all@[k] == element_at(k, height as nat),
        decreases width - x,
    {
        let mut y: usize = 0;
        while y < height
            invariant
                x < width,
                y <= height,
                width * height <= usize::MAX,
                all@.len() == x * height + y,
                forall|k: int| 0 <= k < all@.len() ==> all@[k] == element_at(k, height as nat),
            decreases height - y,
        {
            proof {
                lemma_flat_of_element((x, y), width as nat, height as nat);
            }
            all.push((x, y));
            y += 1;
        }
        proof {
            assert((x + 1) * height == x * height + height) by (nonlinear_arith);
        }
        x += 1;
    }
    proof {
        assert(x == width);
        assert(all@ =~= all_elements(width as nat, height as nat));
    }
    all
}

} // verus!
