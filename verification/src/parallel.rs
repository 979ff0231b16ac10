//! Rows that are computed in parallel.

use rayon::iter::{IntoParallelIterator, ParallelIterator};
use vstd::prelude::*;

use crate::layout::{filled, is_matrix, lemma_fill_step, lemma_filled_is_matrix};

verus! {

/// `rayon`: `ParallelIterator::map` over the range of the numbers below `n`, and
/// `collect` into a vector.  There is one result for each number, what the
/// function gives for it, and the results come in the order of the numbers.
#[verifier::external_body]
pub(crate) fn map_rows<R: Send, F: Fn(usize) -> Vec<R> + Sync + Send>(n: usize, f: F) -> (r: Vec<Vec<R>>)
    requires
        forall|i: usize| i < n ==> call_requires(f, (i,)),
    ensures
        r@.len() == n,
        forall|i: usize| i < n ==> call_ensures(f, (i,), #[trigger] r@[i as int]),
{
    (0..n).into_par_iter().map(f).collect()
}

/// Puts rows of one length one after the other.
pub(crate) fn join_rows<R: Copy>(rows: &[Vec<R>], cols: usize) -> (r: Vec<R>)
    requires
        forall|i: int| 0 <= i < rows@.len() ==> (#[trigger] rows@[i])@.len() == cols,
    ensures
        is_matrix(r@, rows@.len() as int, cols as int, |i: int, j: int| rows@[i]@[j]),
{
    let ghost f = |i: int, j: int| rows@[i]@[j];
    let mut r: Vec<R> = Vec::new();
    let mut i: usize = 0;
    while i < rows.len()
        invariant
            i <= rows@.len(),
            forall|k: int| 0 <= k < rows@.len() ==> (#[trigger] rows@[k])@.len() == cols,
            f == (|i: int, j: int| rows@[i]@[j]),
            r@.len() == i * cols,
            filled(r@, cols as int, f),
        decreases rows@.len() - i,
    {
        let row = &rows[i];
        let mut j: usize = 0;
        while j < cols
            invariant
                j <= cols,
                row@ == rows@[i as int]@,
                row@.len() == cols,
                f == (|i: int, j: int| rows@[i]@[j]),
                r@.len() == i * cols + j,
                filled(r@, cols as int, f),
            decreases cols - j,
        {
            proof {
                lemma_fill_step(r@, cols as int, f, i as int, j as int);
            }
            r.push(row[j]);
            j += 1;
        }
        assert((i + 1) * cols == i * cols + cols) by (nonlinear_arith);
        i += 1;
    }
    proof {
        lemma_filled_is_matrix(r@, rows@.len() as int, cols as int, f);
    }
    r
}

} // verus!
