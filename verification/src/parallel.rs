//! Running one function on every index of a range, on the threads of
//! rayon's pool.

use rayon::iter::{IntoParallelIterator, ParallelIterator};
use vstd::prelude::*;

verus! {

/// `f(0)`, `f(1)`, up to `f(n - 1)`, computed on rayon's pool: rayon's
/// `into_par_iter`, `map` and `collect` over the range `0..n`. Claimed of
/// rayon: `f` is called on indices of the range only, and the vector that
/// `collect` returns holds at index `i` what `f` returned for `i`.
#[verifier::external_body]
pub(crate) fn par_map<R: Send, F: Fn(usize) -> R + Sync + Send>(n: usize, f: F) -> (out: Vec<R>)
    requires
        forall|i: usize| i < n ==> call_requires(f, (i,)),
    ensures
        out.len() == n,
        forall|i: int| 0 <= i < n ==> call_ensures(f, (i as usize,), #[trigger] out@[i]),
{
    (0..n).into_par_iter().map(f).collect()
}

} // verus!
