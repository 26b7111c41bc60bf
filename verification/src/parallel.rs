//! Work handed to rayon's thread pool.
//!
//! The two items here are stated, not proved: they say what rayon does with
//! the closures it is given. The closures themselves are verified where they
//! are written.

use rayon::iter::{IntoParallelIterator, ParallelIterator};
use vstd::prelude::*;

verus! {

/// `rayon::join`: runs both closures, possibly on two threads, waits for
/// both, and returns what each returned, the first closure's result first.
/// Each closure is called exactly once, so each result is one that the
/// closure's own contract allows.
pub assume_specification<A, B, RA, RB>[ rayon::join::<A, B, RA, RB> ](oper_a: A, oper_b: B) -> (res: (
    RA,
    RB,
))
    where
        A: FnOnce() -> RA + Send,
        B: FnOnce() -> RB + Send,
        RA: Send,
        RB: Send,
    requires
        call_requires(oper_a, ()),
        call_requires(oper_b, ()),
    ensures
        call_ensures(oper_a, (), res.0),
        call_ensures(oper_b, (), res.1),
;

/// Rayon's parallel iterator over the range `0..n`, mapped through `f` and
/// collected into a vector. Collecting an indexed parallel iterator keeps the
/// order of the range, so element `i` of the result is what `f` returned on
/// `i`, whichever thread computed it.
#[verifier::external_body]
pub(crate) fn par_tabulate<T, F>(n: usize, f: F) -> (out: Vec<T>) where
    T: Send,
    F: Fn(usize) -> T + Sync + Send,

    requires
        forall|i: usize| i < n ==> call_requires(f, (i,)),
    ensures
        out@.len() == n,
        forall|i: usize| i < n ==> call_ensures(f, (i,), #[trigger] out@[i as int]),
{
    (0..n).into_par_iter().map(f).collect()
}

} // verus!
