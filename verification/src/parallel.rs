//! Handing independent work items out to threads.
use rayon::iter::{IntoParallelIterator, ParallelIterator};
use vstd::prelude::*;

verus! {

/// Applies `g` to every item, in parallel, and returns the results in the
/// items' order.
///
/// Trusted: `into_par_iter` on a `Vec`, `map` and `collect` of rayon's
/// `ParallelIterator`. The claim is that `collect` into a `Vec` keeps the order
/// of the items, and that the entry at each index is what a call of `g` on the
/// item at that index returned.
#[verifier::external_body]
fn par_map<A: Send, B: Send, G: Fn(A) -> B + Sync + Send>(
    items: Vec<A>,
    g: G,
) -> (r: Vec<B>)
    requires
        forall|i: int| 0 <= i < items@.len() ==> call_requires(g, (#[trigger] items@[i],)),
    ensures
        r@.len() == items@.len(),
        forall|i: int|
            #![trigger items@[i]]
            #![trigger r@[i]]
            0 <= i < items@.len() ==> call_ensures(g, (items@[i],), r@[i]),
{
    items.into_par_iter().map(g).collect()
}

/// Applies `g` to every item and returns the results in the items' order, in
/// parallel where there are several items that are worth handing out.
pub(crate) fn map_items<A: Send, B: Send, G: Fn(A) -> B + Sync + Send>(
    items: Vec<A>,
    worthwhile: bool,
    g: G,
) -> (r: Vec<B>)
    requires
        forall|i: int| 0 <= i < items@.len() ==> call_requires(g, (#[trigger] items@[i],)),
    ensures
        r@.len() == items@.len(),
        forall|i: int|
            #![trigger items@[i]]
            #![trigger r@[i]]
            0 <= i < items@.len() ==> call_ensures(g, (items@[i],), r@[i]),
{
    if worthwhile && items.len() > 1 {
        return par_map(items, g);
    }
    let ghost items0 = items@;
    let mut r: Vec<B> = Vec::with_capacity(items.len());
    for item in it: items
        invariant
            it.seq() == items0,
            r@.len() == it.index(),
            forall|i: int| 0 <= i < items0.len() ==> call_requires(g, (#[trigger] items0[i],)),
            forall|i: int| 0 <= i < r@.len() ==> call_ensures(g, (items0[i],), #[trigger] r@[i]),
    {
        r.push(g(item));
    }
    r
}

} // verus!
