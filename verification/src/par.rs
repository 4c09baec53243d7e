//! Work spread over the `rayon` thread pool.

use rayon::iter::{IndexedParallelIterator, IntoParallelRefIterator, ParallelIterator};
use rayon::slice::ParallelSlice;
use vstd::prelude::*;

verus! {

/// The `i`th piece of a list cut into pieces of the given size; the last one may be shorter.
pub open spec fn chunk_at<T>(items: Seq<T>, size: int, i: int) -> Seq<T> {
    items.subrange(
        i * size,
        if (i + 1) * size < items.len() {
            (i + 1) * size
        } else {
            items.len() as int
        },
    )
}

/// How many pieces of the given size a list of the given length is cut into.
pub open spec fn chunk_count(len: nat, size: nat) -> nat {
    ((len + size - 1) / (size as int)) as nat
}

/// The pieces are those that start within the list.
pub proof fn lemma_chunk_count(len: nat, size: nat, i: nat)
    requires
        size > 0,
    ensures
        i < chunk_count(len, size) <==> i * size < len,
{
    let x = len + size - 1;
    let d = x / (size as int);
    vstd::arithmetic::div_mod::lemma_fundamental_div_mod(x, size as int);
    vstd::arithmetic::div_mod::lemma_mod_bound(x, size as int);
    vstd::arithmetic::div_mod::lemma_div_pos_is_pos(x, size as int);
    let r = x % (size as int);
    if i < d {
        assert(i * size < len) by (nonlinear_arith)
            requires
                i < d,
                len + size - 1 == size * d + r,
                0 <= r < size,
                size > 0,
        ;
    } else {
        assert(i * size >= len) by (nonlinear_arith)
            requires
                i >= d,
                len + size - 1 == size * d + r,
                0 <= r < size,
                size > 0,
        ;
    }
}

/// `par_chunks` of `rayon`'s `ParallelSlice`, numbered by `enumerate`, mapped and collected: the
/// function is called once on each piece of the list and its number, and the results stand in the
/// order of the pieces.
#[verifier::external_body]
pub(crate) fn map_chunks<T: Sync, R: Send, F: Fn(usize, &[T]) -> R + Sync + Send>(
    items: &[T],
    size: usize,
    f: F,
) -> (r: Vec<R>)
    requires
        size > 0,
        forall|i: usize, c: &[T]| #![trigger f.requires((i, c))]
            i < chunk_count(items@.len(), size as nat) && c@ == chunk_at(
                items@,
                size as int,
                i as int,
            ) ==> f.requires((i, c)),
    ensures
        r@.len() == chunk_count(items@.len(), size as nat),
        forall|i: usize| #![trigger r@[i as int]]
            i < r@.len() ==> exists|c: &[T]| #![trigger f.ensures((i, c), r@[i as int])]
                c@ == chunk_at(items@, size as int, i as int) && f.ensures((i, c), r@[i as int]),
{
    items.par_chunks(size).enumerate().map(|(i, c)| f(i, c)).collect()
}

/// `par_iter` of `rayon`'s `IntoParallelRefIterator`, numbered by `enumerate`, mapped and
/// collected: the function is called once on each item and its number, and the results stand in
/// the order of the items.
#[verifier::external_body]
pub(crate) fn map_items<T: Sync, R: Send, F: Fn(usize, &T) -> R + Sync + Send>(
    items: &[T],
    f: F,
) -> (r: Vec<R>)
    requires
        forall|i: usize| #![trigger items@[i as int]]
            i < items@.len() ==> f.requires((i, &items@[i as int])),
    ensures
        r@.len() == items@.len(),
        forall|i: usize| #![trigger r@[i as int]]
            i < r@.len() ==> f.ensures((i, &items@[i as int]), r@[i as int]),
{
    items.par_iter().enumerate().map(|(i, x)| f(i, x)).collect()
}

} // verus!
