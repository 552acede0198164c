use rayon::iter::{IntoParallelIterator, ParallelIterator};
use vstd::prelude::*;

verus! {

/// Evaluates `f` at every index below `len` on rayon's thread pool and gathers the
/// results in index order.
///
/// Trusted: the body is `(0..len).into_par_iter().map(f).collect()`, three methods of
/// rayon's parallel iterators. Their documentation shows that `map` puts the closure's
/// result in the place of each item and that a range collected into a `Vec` in
/// parallel equals the same range collected sequentially; the source writes the item
/// of position `i` into slot `i` of the vector. So the result has `len` entries, and
/// entry `i` is an outcome of `f(i)`. The closure is only ever called on indices
/// below `len`.
#[verifier::external_body]
pub(crate) fn par_tabulate<T: Send, F: Fn(usize) -> T + Sync + Send>(len: usize, f: F) -> (out:
    Vec<T>)
    requires
        forall|i: usize| i < len ==> call_requires(f, (i,)),
    ensures
        out@.len() == len,
        forall|i: usize| i < len ==> call_ensures(f, (i,), #[trigger] out@[i as int]),
{
    (0..len).into_par_iter().map(f).collect()
}

} // verus!
