//! The one door to rayon: a parallel map over a range of indices.
use rayon::iter::IntoParallelIterator;
use rayon::iter::ParallelIterator;
use vstd::prelude::*;

verus! {

/// Evaluates `f` at every index below `n` on rayon's thread pool and gathers
/// the results in the order of the indices.
///
/// The body is rayon's `IntoParallelIterator::into_par_iter` on the range
/// `0..n`, followed by `ParallelIterator::map` with `f` and
/// `ParallelIterator::collect` into a `Vec`. Nothing of it is proved. The
/// contract claims of rayon that it calls `f` on indices below `n` only, that
/// the vector it collects has one entry for every index, in the order of the
/// indices, and that the entry for an index is a value that `f` returned for
/// that index. A range of `usize` is an indexed parallel iterator, `map` keeps
/// it indexed, and rayon collects an indexed iterator into a `Vec` by writing
/// every item at its index.
#[verifier::external_body]
pub(crate) fn par_map_range<T: Send, F: Fn(usize) -> T + Sync + Send>(n: usize, f: F) -> (out: Vec<
    T,
>)
    requires
        forall|i: usize| i < n ==> call_requires(f, (i,)),
    ensures
        out.len() == n,
        forall|i: int| 0 <= i < n ==> call_ensures(f, (i as usize,), #[trigger] out[i]),
{
    (0..n).into_par_iter().map(f).collect()
}

} // verus!
