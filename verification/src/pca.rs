//! The verified decision core of the PCA engine: dimension validation before
//! any numeric work, and the deterministic descending order of eigenvalues
//! with ties broken toward the smaller original index.
//!
//! The dense numeric steps (centering, covariance, eigendecomposition,
//! projection) are floating-point linear algebra and live with the caller;
//! this module pins the decisions that make a fit reproducible.

use vstd::prelude::*;
use crate::error::PcaTreeError;
use crate::tree::count_true;
use crate::tree::lemma_count_true_some_false;
use crate::tree::lemma_count_true_update;

verus! {

/// A fit needs at least two observations for the sample covariance and a
/// target dimension between one and the number of features.
pub fn check_fit_dims(n: usize, p: usize, k: usize) -> (r: Result<(), PcaTreeError>)
    ensures
        match r {
            Ok(()) => n >= 2 && 1 <= k <= p,
            Err(PcaTreeError::Dimension) => !(n >= 2 && 1 <= k <= p),
            _ => false,
        },
{
    if n < 2 || k < 1 || k > p {
        Err(PcaTreeError::Dimension)
    } else {
        Ok(())
    }
}

/// `order` lists every index of `vals` once, sorted by strictly descending
/// value, equal values kept in ascending index order. Exactly one sequence
/// satisfies this.
pub open spec fn stable_desc_order(vals: Seq<i64>, order: Seq<usize>) -> bool {
    &&& order.len() == vals.len()
    &&& forall|i: int| 0 <= i < order.len() ==> (#[trigger] order[i] as int) < vals.len()
    &&& forall|i: int, j: int| 0 <= i < j < order.len() ==> order[i] != order[j]
    &&& forall|i: int, j: int|
        0 <= i < j < order.len() ==> (vals[#[trigger] order[i] as int]
            > vals[#[trigger] order[j] as int] || (vals[order[i] as int] == vals[order[j] as int]
            && order[i] < order[j]))
}

/// The eigen-index order of a fit: indices of `vals` by descending value,
/// exact ties broken toward the smaller original index.
pub fn eigen_order_desc(vals: &Vec<i64>) -> (r: Vec<usize>)
    ensures
        stable_desc_order(vals@, r@),
{
    let n = vals.len();
    let mut used: Vec<bool> = Vec::new();
    let mut i: usize = 0;
    while i < n
        invariant
            0 <= i <= n,
            used@.len() == i,
            forall|t: int| 0 <= t < i ==> !used@[t],
        decreases n - i,
    {
        used.push(false);
        i += 1;
    }
    proof {
        lemma_count_none_true(used@);
    }

    let mut order: Vec<usize> = Vec::new();
    let mut pos: usize = 0;
    while pos < n
        invariant
            0 <= pos <= n,
            n == vals@.len(),
            used@.len() == n,
            order@.len() == pos,
            count_true(used@) == pos,
            forall|i: int| 0 <= i < pos ==> (#[trigger] order@[i] as int) < n,
            forall|i: int| 0 <= i < pos ==> used@[#[trigger] order@[i] as int],
            forall|i: int, j: int| 0 <= i < j < pos ==> order@[i] != order@[j],
            forall|i: int, j: int|
                0 <= i < j < pos ==> (vals@[#[trigger] order@[i] as int]
                    > vals@[#[trigger] order@[j] as int] || (vals@[order@[i] as int]
                    == vals@[order@[j] as int] && order@[i] < order@[j])),
            forall|i: int, q: int|
                0 <= i < pos && 0 <= q < n && !used@[q] ==> (vals@[#[trigger] order@[i] as int]
                    > #[trigger] vals@[q] || (vals@[order@[i] as int] == vals@[q] && (
                order@[i] as int) < q)),
        decreases n - pos,
    {
        let mut cand: usize = 0;
        let mut found = false;
        let mut q: usize = 0;
        while q < n
            invariant
                0 <= q <= n,
                n == vals@.len(),
                used@.len() == n,
                found ==> cand < n && !used@[cand as int],
                found ==> (cand as int) < q,
                found ==> forall|t: int|
                    0 <= t < q && !used@[t] ==> (vals@[cand as int] > #[trigger] vals@[t] || (
                    vals@[cand as int] == vals@[t] && (cand as int) <= t)),
                !found ==> forall|t: int| 0 <= t < q ==> used@[t],
            decreases n - q,
        {
            if !used[q] {
                if !found || vals[q] > vals[cand] {
                    cand = q;
                    found = true;
                }
            }
            q += 1;
        }
        proof {
            lemma_count_true_some_false(used@);
        }
        assert(found);
        order.push(cand);
        let ghost pre_used = used@;
        used[cand] = true;
        proof {
            lemma_count_true_update(pre_used, cand as int, true);
        }
        pos += 1;
    }
    order
}

/// An all-false sequence has no true entry.
proof fn lemma_count_none_true(s: Seq<bool>)
    requires
        forall|t: int| 0 <= t < s.len() ==> !s[t],
    ensures
        count_true(s) == 0,
    decreases s.len(),
{
    if s.len() > 0 {
        lemma_count_none_true(s.drop_last());
    }
}

} // verus!
