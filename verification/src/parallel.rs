//! Data-parallel loops.

use rayon::iter::{IndexedParallelIterator, IntoParallelIterator, ParallelIterator};
use vstd::prelude::*;

verus! {

/// [`ParallelIterator::map`] and `collect` over `0..n` on the current thread pool.
///
/// The calls run in any order and on any thread, in runs of at least `min_len`
/// where `n` allows; the results are collected in index order.
#[verifier::external_body]
pub(crate) fn par_map<T: Send, F: Fn(usize) -> T + Sync + Send>(
    n: usize,
    min_len: usize,
    f: F,
) -> (out: Vec<T>)
    requires
        forall|i: usize| i < n ==> #[trigger] call_requires(f, (i,)),
    ensures
        out@.len() == n,
        forall|i: usize| i < n ==> call_ensures(f, (i,), #[trigger] out@[i as int]),
{
    (0..n).into_par_iter().with_min_len(min_len).map(f).collect()
}

/// [`ParallelIterator::map`] and `collect` over the items of a vector on the
/// current thread pool.
///
/// The calls run in any order and on any thread; the results are collected in
/// the order of the items.
#[verifier::external_body]
pub(crate) fn par_map_items<X: Send, T: Send, F: Fn(X) -> T + Sync + Send>(
    items: Vec<X>,
    f: F,
) -> (out: Vec<T>)
    requires
        forall|i: int| 0 <= i < items@.len() ==> call_requires(f, (#[trigger] items@[i],)),
    ensures
        out@.len() == items@.len(),
        forall|i: int|
            0 <= i < items@.len() ==> call_ensures(f, (items@[i],), #[trigger] out@[i]),
{
    items.into_par_iter().map(f).collect()
}

/// [`rayon::current_num_threads`]: the width of the current thread pool.
///
/// Nothing is claimed of the number; it depends on the machine and on how the
/// pool was configured.
#[verifier::external_body]
pub(crate) fn current_num_threads() -> usize {
    rayon::current_num_threads()
}

/// `trace` is a run of `step` over `lo..hi` from a value of `init`.
pub open spec fn is_fold_trace<U, I: Fn() -> U, S: Fn(U, usize) -> U>(
    init: I,
    step: S,
    lo: int,
    hi: int,
    trace: Seq<U>,
) -> bool {
    &&& lo <= hi
    &&& trace.len() == hi - lo + 1
    &&& call_ensures(init, (), trace[0])
    &&& forall|k: int|
        0 <= k < hi - lo ==> call_ensures(
            step,
            (#[trigger] trace[k], (lo + k) as usize),
            trace[k + 1],
        )
}

/// `u` is what `step` makes of `lo..hi` in order, from a value of `init`.
pub open spec fn is_fold<U, I: Fn() -> U, S: Fn(U, usize) -> U>(
    init: I,
    step: S,
    lo: int,
    hi: int,
    u: U,
) -> bool {
    exists|trace: Seq<U>| #[trigger]
        is_fold_trace(init, step, lo, hi, trace) && trace.last() == u
}

/// `r` is the result of a run that was not split: a fold of `lo..hi`, finished
/// and combined with the identity.
pub open spec fn is_leaf<
    U,
    R,
    I: Fn() -> U,
    S: Fn(U, usize) -> U,
    M: Fn(U) -> R,
    Z: Fn() -> R,
    C: Fn(R, R) -> R,
>(
    fns: (I, S, M, Z, C),
    lo: int,
    hi: int,
    parts: (U, R, R),
    r: R,
) -> bool {
    &&& is_fold(fns.0, fns.1, lo, hi, parts.0)
    &&& call_ensures(fns.2, (parts.0,), parts.1)
    &&& call_ensures(fns.3, (), parts.2)
    &&& call_ensures(fns.4, (parts.2, parts.1), r)
}

/// `r` combines the results of `lo..mid` and `mid..hi`.
pub open spec fn is_join<R, C: Fn(R, R) -> R>(
    combine: C,
    lo: int,
    mid: int,
    hi: int,
    a: R,
    b: R,
    r: R,
) -> bool {
    lo <= mid <= hi && call_ensures(combine, (a, b), r)
}

/// `r` is a result of `lo..hi`, split at most `depth` times in a row.
pub open spec fn is_reduction<
    U,
    R,
    I: Fn() -> U,
    S: Fn(U, usize) -> U,
    M: Fn(U) -> R,
    Z: Fn() -> R,
    C: Fn(R, R) -> R,
>(fns: (I, S, M, Z, C), lo: int, hi: int, r: R, depth: nat) -> bool
    decreases depth,
{
    ||| exists|parts: (U, R, R)| #[trigger] is_leaf(fns, lo, hi, parts, r)
    ||| depth > 0 && exists|mid: int, a: R, b: R|
        #![trigger is_join(fns.4, lo, mid, hi, a, b, r)]
        is_join(fns.4, lo, mid, hi, a, b, r) && is_reduction(fns, lo, mid, a, (depth - 1) as nat)
            && is_reduction(fns, mid, hi, b, (depth - 1) as nat)
}

/// Every call that a fold and reduction over `0..n` can come to is allowed.
pub open spec fn calls_allowed<
    U,
    R,
    I: Fn() -> U,
    S: Fn(U, usize) -> U,
    M: Fn(U) -> R,
    Z: Fn() -> R,
    C: Fn(R, R) -> R,
>(fns: (I, S, M, Z, C), n: usize) -> bool {
    &&& call_requires(fns.0, ())
    &&& call_requires(fns.3, ())
    &&& forall|lo: int, i: usize, u: U|
        0 <= lo <= i < n && #[trigger] is_fold(fns.0, fns.1, lo, i as int, u) ==> call_requires(
            fns.1,
            (u, i),
        )
    &&& forall|lo: int, hi: int, u: U|
        0 <= lo <= hi <= n && #[trigger] is_fold(fns.0, fns.1, lo, hi, u) ==> call_requires(
            fns.2,
            (u,),
        )
    &&& forall|lo: int, hi: int, u: U, m: R, z: R|
        #![trigger is_fold(fns.0, fns.1, lo, hi, u), call_ensures(fns.2, (u,), m), call_ensures(fns.3, (), z)]
        0 <= lo <= hi <= n && is_fold(fns.0, fns.1, lo, hi, u) && call_ensures(fns.2, (u,), m)
            && call_ensures(fns.3, (), z) ==> call_requires(fns.4, (z, m))
    &&& forall|lo: int, mid: int, hi: int, a: R, b: R, d: nat, e: nat|
        #![trigger is_reduction(fns, lo, mid, a, d), is_reduction(fns, mid, hi, b, e)]
        0 <= lo <= mid <= hi <= n && is_reduction(fns, lo, mid, a, d) && is_reduction(
            fns,
            mid,
            hi,
            b,
            e,
        ) ==> call_requires(fns.4, (a, b))
}

/// [`ParallelIterator::fold`], `map` and `reduce` over `0..n` on the current thread pool.
///
/// The pool cuts `0..n` into runs of at least `min_len` where `n` allows. Each
/// run is folded in order from a fresh `init`, finished, and combined with a
/// fresh `identity`; neighbouring runs are combined, left before right. Where
/// the cuts fall is up to the pool.
#[verifier::external_body]
fn par_fold_reduce<
    U: Send,
    R: Send,
    I: Fn() -> U + Sync + Send,
    S: Fn(U, usize) -> U + Sync + Send,
    M: Fn(U) -> R + Sync + Send,
    Z: Fn() -> R + Sync + Send,
    C: Fn(R, R) -> R + Sync + Send,
>(n: usize, min_len: usize, fns: (I, S, M, Z, C)) -> (r: R)
    requires
        calls_allowed(fns, n),
    ensures
        exists|depth: nat| is_reduction(fns, 0, n as int, r, depth),
{
    (0..n).into_par_iter().with_min_len(min_len).fold(fns.0, fns.1).map(fns.2).reduce(fns.3, fns.4)
}

/// `fold_ok` and `reduce_ok` are kept by every call of a fold and reduction.
pub open spec fn is_kept<
    U,
    R,
    I: Fn() -> U,
    S: Fn(U, usize) -> U,
    M: Fn(U) -> R,
    Z: Fn() -> R,
    C: Fn(R, R) -> R,
>(
    fns: (I, S, M, Z, C),
    n: usize,
    fold_ok: spec_fn(int, int, U) -> bool,
    reduce_ok: spec_fn(int, int, R) -> bool,
) -> bool {
    &&& call_requires(fns.0, ())
    &&& call_requires(fns.3, ())
    &&& forall|lo: int, u: U|
        0 <= lo <= n && call_ensures(fns.0, (), u) ==> #[trigger] fold_ok(lo, lo, u)
    &&& forall|lo: int, i: usize, u: U|
        0 <= lo <= i < n && #[trigger] fold_ok(lo, i as int, u) ==> call_requires(fns.1, (u, i))
    &&& forall|lo: int, i: usize, u: U, v: U|
        #![trigger fold_ok(lo, i as int, u), call_ensures(fns.1, (u, i), v)]
        0 <= lo <= i < n && fold_ok(lo, i as int, u) && call_ensures(fns.1, (u, i), v) ==> fold_ok(
            lo,
            i + 1,
            v,
        )
    &&& forall|lo: int, hi: int, u: U|
        0 <= lo <= hi <= n && #[trigger] fold_ok(lo, hi, u) ==> call_requires(fns.2, (u,))
    &&& forall|lo: int, hi: int, u: U, m: R, z: R|
        #![trigger fold_ok(lo, hi, u), call_ensures(fns.2, (u,), m), call_ensures(fns.3, (), z)]
        0 <= lo <= hi <= n && fold_ok(lo, hi, u) && call_ensures(fns.2, (u,), m) && call_ensures(
            fns.3,
            (),
            z,
        ) ==> call_requires(fns.4, (z, m))
    &&& forall|lo: int, hi: int, u: U, m: R, z: R, r: R|
        #![trigger fold_ok(lo, hi, u), call_ensures(fns.2, (u,), m), call_ensures(fns.4, (z, m), r)]
        0 <= lo <= hi <= n && fold_ok(lo, hi, u) && call_ensures(fns.2, (u,), m) && call_ensures(
            fns.3,
            (),
            z,
        ) && call_ensures(fns.4, (z, m), r) ==> reduce_ok(lo, hi, r)
    &&& forall|lo: int, mid: int, hi: int, a: R, b: R|
        #![trigger reduce_ok(lo, mid, a), reduce_ok(mid, hi, b)]
        0 <= lo <= mid <= hi <= n && reduce_ok(lo, mid, a) && reduce_ok(mid, hi, b)
            ==> call_requires(fns.4, (a, b))
    &&& forall|lo: int, mid: int, hi: int, a: R, b: R, r: R|
        #![trigger reduce_ok(lo, mid, a), reduce_ok(mid, hi, b), call_ensures(fns.4, (a, b), r)]
        0 <= lo <= mid <= hi <= n && reduce_ok(lo, mid, a) && reduce_ok(mid, hi, b)
            && call_ensures(fns.4, (a, b), r) ==> reduce_ok(lo, hi, r)
}

proof fn lemma_fold_kept<
    U,
    R,
    I: Fn() -> U,
    S: Fn(U, usize) -> U,
    M: Fn(U) -> R,
    Z: Fn() -> R,
    C: Fn(R, R) -> R,
>(
    fns: (I, S, M, Z, C),
    n: usize,
    fold_ok: spec_fn(int, int, U) -> bool,
    reduce_ok: spec_fn(int, int, R) -> bool,
    lo: int,
    hi: int,
    u: U,
)
    requires
        is_kept(fns, n, fold_ok, reduce_ok),
        0 <= lo <= hi <= n,
        is_fold(fns.0, fns.1, lo, hi, u),
    ensures
        fold_ok(lo, hi, u),
{
    let trace = choose|trace: Seq<U>| #[trigger]
        is_fold_trace(fns.0, fns.1, lo, hi, trace) && trace.last() == u;
    lemma_trace_kept(fns, n, fold_ok, reduce_ok, lo, hi, trace, hi - lo);
}

proof fn lemma_trace_kept<
    U,
    R,
    I: Fn() -> U,
    S: Fn(U, usize) -> U,
    M: Fn(U) -> R,
    Z: Fn() -> R,
    C: Fn(R, R) -> R,
>(
    fns: (I, S, M, Z, C),
    n: usize,
    fold_ok: spec_fn(int, int, U) -> bool,
    reduce_ok: spec_fn(int, int, R) -> bool,
    lo: int,
    hi: int,
    trace: Seq<U>,
    k: int,
)
    requires
        is_kept(fns, n, fold_ok, reduce_ok),
        0 <= lo <= hi <= n,
        is_fold_trace(fns.0, fns.1, lo, hi, trace),
        0 <= k <= hi - lo,
    ensures
        fold_ok(lo, lo + k, trace[k]),
    decreases k,
{
    if k > 0 {
        lemma_trace_kept(fns, n, fold_ok, reduce_ok, lo, hi, trace, k - 1);
        let i = (lo + k - 1) as usize;
        assert(fold_ok(lo, i as int, trace[k - 1]));
        assert(call_ensures(fns.1, (trace[k - 1], i), trace[k - 1 + 1]));
    }
}

proof fn lemma_reduction_kept<
    U,
    R,
    I: Fn() -> U,
    S: Fn(U, usize) -> U,
    M: Fn(U) -> R,
    Z: Fn() -> R,
    C: Fn(R, R) -> R,
>(
    fns: (I, S, M, Z, C),
    n: usize,
    fold_ok: spec_fn(int, int, U) -> bool,
    reduce_ok: spec_fn(int, int, R) -> bool,
    lo: int,
    hi: int,
    r: R,
    depth: nat,
)
    requires
        is_kept(fns, n, fold_ok, reduce_ok),
        0 <= lo <= hi <= n,
        is_reduction(fns, lo, hi, r, depth),
    ensures
        reduce_ok(lo, hi, r),
    decreases depth,
{
    if exists|parts: (U, R, R)| #[trigger] is_leaf(fns, lo, hi, parts, r) {
        let parts = choose|parts: (U, R, R)| #[trigger] is_leaf(fns, lo, hi, parts, r);
        lemma_fold_kept(fns, n, fold_ok, reduce_ok, lo, hi, parts.0);
    } else {
        let (mid, a, b) = choose|mid: int, a: R, b: R|
            #![trigger is_join(fns.4, lo, mid, hi, a, b, r)]
            is_join(fns.4, lo, mid, hi, a, b, r) && is_reduction(
                fns,
                lo,
                mid,
                a,
                (depth - 1) as nat,
            ) && is_reduction(fns, mid, hi, b, (depth - 1) as nat);
        lemma_reduction_kept(fns, n, fold_ok, reduce_ok, lo, mid, a, (depth - 1) as nat);
        lemma_reduction_kept(fns, n, fold_ok, reduce_ok, mid, hi, b, (depth - 1) as nat);
    }
}

/// Fold runs of `0..n`, finish each, and combine the results in order.
///
/// `fold_ok` and `reduce_ok` are what the calls keep; the result has the
/// latter wherever the pool cuts.
pub(crate) fn fold_reduce<
    U: Send,
    R: Send,
    I: Fn() -> U + Sync + Send,
    S: Fn(U, usize) -> U + Sync + Send,
    M: Fn(U) -> R + Sync + Send,
    Z: Fn() -> R + Sync + Send,
    C: Fn(R, R) -> R + Sync + Send,
>(
    n: usize,
    min_len: usize,
    fns: (I, S, M, Z, C),
    Ghost(fold_ok): Ghost<spec_fn(int, int, U) -> bool>,
    Ghost(reduce_ok): Ghost<spec_fn(int, int, R) -> bool>,
) -> (r: R)
    requires
        is_kept(fns, n, fold_ok, reduce_ok),
    ensures
        reduce_ok(0, n as int, r),
{
    proof {
        assert forall|lo: int, hi: int, u: U|
            0 <= lo <= hi <= n && #[trigger] is_fold(fns.0, fns.1, lo, hi, u) implies fold_ok(
            lo,
            hi,
            u,
        ) by {
            lemma_fold_kept(fns, n, fold_ok, reduce_ok, lo, hi, u);
        }
        assert forall|lo: int, hi: int, r: R, depth: nat|
            0 <= lo <= hi <= n && #[trigger] is_reduction(fns, lo, hi, r, depth) implies reduce_ok(
            lo,
            hi,
            r,
        ) by {
            lemma_reduction_kept(fns, n, fold_ok, reduce_ok, lo, hi, r, depth);
        }
        assert(calls_allowed(fns, n));
    }
    par_fold_reduce(n, min_len, fns)
}

} // verus!
