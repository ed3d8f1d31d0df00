//! Gather and scatter loops over level codes.

use vstd::prelude::*;

use crate::arithmetic::Arithmetic;
use crate::parallel::{current_num_threads, fold_reduce};

verus! {

/// The values of the rows `lo..hi` whose code is `level`, in row order.
pub open spec fn values_between<T>(
    codes: Seq<u32>,
    values: Seq<T>,
    level: int,
    lo: int,
    hi: int,
) -> Seq<T>
    decreases hi - lo,
{
    if hi <= lo {
        Seq::empty()
    } else if codes[hi - 1] == level {
        values_between(codes, values, level, lo, hi - 1).push(values[hi - 1])
    } else {
        values_between(codes, values, level, lo, hi - 1)
    }
}

/// The values of all rows whose code is `level`, in row order.
pub open spec fn values_at<T>(codes: Seq<u32>, values: Seq<T>, level: int) -> Seq<T> {
    values_between(codes, values, level, 0, codes.len() as int)
}

proof fn lemma_values_between_split<T>(
    codes: Seq<u32>,
    values: Seq<T>,
    level: int,
    lo: int,
    mid: int,
    hi: int,
)
    requires
        lo <= mid <= hi,
    ensures
        values_between(codes, values, level, lo, hi) == values_between(codes, values, level, lo, mid)
            + values_between(codes, values, level, mid, hi),
    decreases hi - mid,
{
    let left = values_between(codes, values, level, lo, mid);
    if mid < hi {
        lemma_values_between_split(codes, values, level, lo, mid, hi - 1);
        assert(values_between(codes, values, level, lo, hi) =~= left + values_between(
            codes,
            values,
            level,
            mid,
            hi,
        ));
    } else {
        assert(left + values_between(codes, values, level, mid, hi) =~= left);
    }
}

/// A vector of `n` copies.
pub fn filled<T: Copy>(n: usize, value: T) -> (out: Vec<T>)
    ensures
        out@.len() == n,
        forall|i: int| 0 <= i < n ==> #[trigger] out@[i] == value,
{
    let mut out: Vec<T> = Vec::with_capacity(n);
    for i in 0..n
        invariant
            out@.len() == i,
            forall|j: int| 0 <= j < i ==> #[trigger] out@[j] == value,
    {
        out.push(value);
    }
    out
}

// ---------------------------------------------------------------------------
// Scatter
// ---------------------------------------------------------------------------

/// Strategy for a single factor's scatter-add loop.
#[derive(Debug, Clone, Copy, PartialEq, Eq, Structural)]
pub enum ScatterStrategy {
    /// Plain sequential loop - used when there are few rows.
    Sequential,
    /// Parallel fold/reduce with thread-local accumulators - for small factors.
    Fold,
    /// Parallel atomic accumulation - for large factors with low contention.
    Atomic,
}

/// `sum` adds up, in some order, `start` and the items; without items it is `start`.
pub open spec fn is_accumulated<T, A: Arithmetic<T>>(
    ops: A,
    start: T,
    items: Seq<T>,
    sum: T,
) -> bool {
    &&& crate::arithmetic::is_sum_of(ops, items.push(start).to_multiset(), sum)
    &&& items.len() == 0 ==> sum == start
}

/// Shared accumulation of many values into few bins.
///
/// An implementation may add the rows in any order, and from several threads,
/// as long as no addition is lost.
pub trait AtomicBins<T, A: Arithmetic<T>> {
    /// Add `values[i]` to bin `codes[i]` for every row, starting from `initial`.
    fn accumulate(&self, initial: Vec<T>, codes: &[u32], values: &[T], ops: &A) -> (bins: Vec<T>)
        requires
            codes@.len() == values@.len(),
            forall|i: int| 0 <= i < codes@.len() ==> #[trigger] codes@[i] < initial@.len(),
        ensures
            bins@.len() == initial@.len(),
            forall|b: int|
                0 <= b < bins@.len() ==> is_accumulated(
                    *ops,
                    initial@[b],
                    values_at(codes@, values@, b),
                    #[trigger] bins@[b],
                ),
    ;
}

/// Accumulation in row order, on one thread.
#[derive(Debug, Clone, Copy)]
pub struct OrderedBins;

impl<T: Copy, A: Arithmetic<T>> AtomicBins<T, A> for OrderedBins {
    fn accumulate(&self, initial: Vec<T>, codes: &[u32], values: &[T], ops: &A) -> (bins: Vec<T>) {
        let mut bins: Vec<T> = initial;
        let n: usize = bins.len();
        scatter_sequential(bins.as_mut_slice(), 0, n, codes, values, ops);
        proof {
            assert forall|b: int| 0 <= b < bins@.len() implies is_accumulated(
                *ops,
                initial@[b],
                values_at(codes@, values@, b),
                #[trigger] bins@[b],
            ) by {
                let items = values_at(codes@, values@, b);
                assert(crate::arithmetic::sums_to(*ops, initial@[0 + b], items, bins@[0 + b]));
                lemma_ordered_is_accumulated(*ops, initial@[b], items, bins@[b]);
            }
        }
        bins
    }
}

/// A sum in order is an accumulation.
proof fn lemma_ordered_is_accumulated<T, A: Arithmetic<T>>(
    ops: A,
    start: T,
    items: Seq<T>,
    sum: T,
)
    requires
        crate::arithmetic::sums_to(ops, start, items, sum),
    ensures
        is_accumulated(ops, start, items, sum),
{
    broadcast use vstd::seq_lib::group_to_multiset_ensures;

    crate::arithmetic::law_running_sum_is_a_sum(ops, start, items, sum);
    assert(items.push(start).to_multiset() =~= items.to_multiset().insert(start));
}

/// `after` is `before` with the values scattered in row order to the bins from `offset` on.
pub open spec fn is_sequential_scatter<T, A: Arithmetic<T>>(
    ops: A,
    codes: Seq<u32>,
    values: Seq<T>,
    offset: int,
    n_levels: int,
    before: Seq<T>,
    after: Seq<T>,
) -> bool {
    forall|level: int|
        0 <= level < n_levels ==> crate::arithmetic::sums_to(
            ops,
            before[offset + level],
            #[trigger] values_at(codes, values, level),
            after[offset + level],
        )
}

/// `after` is a value of `before` plus a sum of `items` in some order.
pub open spec fn is_folded_sum<T, A: Arithmetic<T>>(
    ops: A,
    before: T,
    items: Seq<T>,
    after: T,
) -> bool {
    exists|partial: T| #[trigger]
        crate::arithmetic::is_sum_of(ops, items.to_multiset(), partial)
            && crate::arithmetic::plus_gives(ops, before, partial, after)
}

/// `after` is `before` with each bin's values summed up first and then added.
pub open spec fn is_folded_scatter<T, A: Arithmetic<T>>(
    ops: A,
    codes: Seq<u32>,
    values: Seq<T>,
    offset: int,
    n_levels: int,
    before: Seq<T>,
    after: Seq<T>,
) -> bool {
    forall|level: int|
        0 <= level < n_levels ==> is_folded_sum(
            ops,
            before[offset + level],
            #[trigger] values_at(codes, values, level),
            after[offset + level],
        )
}

/// `after` is `before` with each bin's values added in some order.
pub open spec fn is_atomic_scatter<T, A: Arithmetic<T>>(
    ops: A,
    codes: Seq<u32>,
    values: Seq<T>,
    offset: int,
    n_levels: int,
    before: Seq<T>,
    after: Seq<T>,
) -> bool {
    forall|level: int|
        0 <= level < n_levels ==> is_accumulated(
            ops,
            before[offset + level],
            #[trigger] values_at(codes, values, level),
            after[offset + level],
        )
}

/// What scattering one factor does to its bins.
pub open spec fn scatter_outcome<T, A: Arithmetic<T>>(
    ops: A,
    strategy: ScatterStrategy,
    codes: Seq<u32>,
    values: Seq<T>,
    offset: int,
    n_levels: int,
    before: Seq<T>,
    after: Seq<T>,
) -> bool {
    match strategy {
        ScatterStrategy::Sequential => is_sequential_scatter(
            ops,
            codes,
            values,
            offset,
            n_levels,
            before,
            after,
        ),
        ScatterStrategy::Fold => is_folded_scatter(
            ops,
            codes,
            values,
            offset,
            n_levels,
            before,
            after,
        ),
        ScatterStrategy::Atomic => is_atomic_scatter(
            ops,
            codes,
            values,
            offset,
            n_levels,
            before,
            after,
        ),
    }
}

/// Entries outside `offset..offset + n_levels` are the same.
pub open spec fn same_outside<T>(before: Seq<T>, after: Seq<T>, offset: int, n_levels: int) -> bool {
    &&& after.len() == before.len()
    &&& forall|j: int|
        0 <= j < before.len() && !(offset <= j < offset + n_levels) ==> #[trigger] after[j]
            == before[j]
}

/// The bin of `level` has been given the values of the first `n` rows, in order.
pub open spec fn bin_sums_to<T, A: Arithmetic<T>>(
    ops: A,
    codes: Seq<u32>,
    values: Seq<T>,
    n: int,
    level: int,
    offset: int,
    before: Seq<T>,
    after: Seq<T>,
) -> bool {
    crate::arithmetic::sums_to(
        ops,
        before[offset + level],
        values_between(codes, values, level, 0, n),
        after[offset + level],
    )
}

/// Scatter in row order.
pub fn scatter_sequential<T: Copy, A: Arithmetic<T>>(
    dst: &mut [T],
    offset: usize,
    n_levels: usize,
    codes: &[u32],
    values: &[T],
    ops: &A,
)
    requires
        offset + n_levels <= old(dst)@.len(),
        codes@.len() == values@.len(),
        forall|i: int| 0 <= i < codes@.len() ==> #[trigger] codes@[i] < n_levels,
    ensures
        same_outside(old(dst)@, final(dst)@, offset as int, n_levels as int),
        is_sequential_scatter(
            *ops,
            codes@,
            values@,
            offset as int,
            n_levels as int,
            old(dst)@,
            final(dst)@,
        ),
{
    let ghost before = dst@;
    let n_slots: usize = dst.len();
    let n_rows: usize = codes.len();
    proof {
        assert forall|level: int| 0 <= level < n_levels implies #[trigger] bin_sums_to(
            *ops,
            codes@,
            values@,
            0,
            level,
            offset as int,
            before,
            dst@,
        ) by {
            crate::arithmetic::lemma_sums_to_nothing(*ops, before[offset + level]);
        }
    }
    let mut i: usize = 0;
    while i < n_rows
        invariant
            i <= n_rows,
            offset + n_levels <= n_slots == before.len(),
            codes@.len() == values@.len() == n_rows,
            forall|i: int| 0 <= i < codes@.len() ==> #[trigger] codes@[i] < n_levels,
            same_outside(before, dst@, offset as int, n_levels as int),
            forall|level: int|
                0 <= level < n_levels ==> #[trigger] bin_sums_to(
                    *ops,
                    codes@,
                    values@,
                    i as int,
                    level,
                    offset as int,
                    before,
                    dst@,
                ),
        decreases n_rows - i,
    {
        let level: usize = codes[i] as usize;
        let slot: usize = offset + level;
        let current: T = dst[slot];
        let sum: T = ops.plus(current, values[i]);
        let ghost dst_before = dst@;
        proof {
            assert(bin_sums_to(
                *ops,
                codes@,
                values@,
                i as int,
                level as int,
                offset as int,
                before,
                dst@,
            ));
            crate::arithmetic::lemma_sums_to_push(
                *ops,
                before[offset + level],
                values_between(codes@, values@, level as int, 0, i as int),
                current,
                values@[i as int],
                sum,
            );
        }
        dst[slot] = sum;
        proof {
            assert forall|l: int| 0 <= l < n_levels implies #[trigger] bin_sums_to(
                *ops,
                codes@,
                values@,
                i + 1,
                l,
                offset as int,
                before,
                dst@,
            ) by {
                assert(bin_sums_to(
                    *ops,
                    codes@,
                    values@,
                    i as int,
                    l,
                    offset as int,
                    before,
                    dst_before,
                ));
            }
        }
        i = i + 1;
    }
    proof {
        assert forall|level: int| 0 <= level < n_levels implies crate::arithmetic::sums_to(
            *ops,
            before[offset + level],
            #[trigger] values_at(codes@, values@, level),
            dst@[offset + level],
        ) by {
            assert(bin_sums_to(
                *ops,
                codes@,
                values@,
                n_rows as int,
                level,
                offset as int,
                before,
                dst@,
            ));
        }
    }
}

/// `acc` holds, per level, a sum of the values of the rows `lo..hi`.
pub open spec fn is_partial_scatter<T, A: Arithmetic<T>>(
    ops: A,
    codes: Seq<u32>,
    values: Seq<T>,
    n_levels: nat,
    lo: int,
    hi: int,
    acc: Seq<T>,
) -> bool {
    &&& acc.len() == n_levels
    &&& forall|level: int|
        0 <= level < n_levels ==> crate::arithmetic::is_sum_of(
            ops,
            (#[trigger] values_between(codes, values, level, lo, hi)).to_multiset(),
            acc[level],
        )
}

/// `after` adds row `i` to whatever run of rows up to `i` `before` sums.
pub open spec fn adds_row<T, A: Arithmetic<T>>(
    ops: A,
    codes: Seq<u32>,
    values: Seq<T>,
    n_levels: nat,
    i: int,
    before: Seq<T>,
    after: Seq<T>,
) -> bool {
    forall|lo: int|
        lo <= i && #[trigger] is_partial_scatter(ops, codes, values, n_levels, lo, i, before)
            ==> is_partial_scatter(ops, codes, values, n_levels, lo, i + 1, after)
}

/// Elementwise sums.
pub open spec fn is_elementwise_sum<T, A: Arithmetic<T>>(
    ops: A,
    a: Seq<T>,
    b: Seq<T>,
    sum: Seq<T>,
) -> bool {
    &&& sum.len() == a.len()
    &&& forall|i: int|
        0 <= i < a.len() ==> crate::arithmetic::plus_gives(ops, a[i], b[i], #[trigger] sum[i])
}

/// Add one row's value to its bin.
fn add_row<T: Copy, A: Arithmetic<T>>(
    acc: Vec<T>,
    codes: &[u32],
    values: &[T],
    i: usize,
    n_levels: usize,
    ops: &A,
) -> (sum: Vec<T>)
    requires
        acc@.len() == n_levels,
        i < codes@.len() == values@.len(),
        codes@[i as int] < n_levels,
    ensures
        sum@.len() == n_levels,
        adds_row(*ops, codes@, values@, n_levels as nat, i as int, acc@, sum@),
{
    let ghost before = acc@;
    let mut acc = acc;
    let level: usize = codes[i] as usize;
    let current: T = acc[level];
    let next: T = ops.plus(current, values[i]);
    acc.set(level, next);
    proof {
        assert forall|lo: int|
            lo <= i && #[trigger] is_partial_scatter(
                *ops,
                codes@,
                values@,
                n_levels as nat,
                lo,
                i as int,
                before,
            ) implies is_partial_scatter(
            *ops,
            codes@,
            values@,
            n_levels as nat,
            lo,
            i + 1,
            acc@,
        ) by {
            assert forall|l: int| 0 <= l < n_levels implies crate::arithmetic::is_sum_of(
                *ops,
                (#[trigger] values_between(codes@, values@, l, lo, i + 1)).to_multiset(),
                acc@[l],
            ) by {
                let items = values_between(codes@, values@, l, lo, i as int);
                assert(crate::arithmetic::is_sum_of(*ops, items.to_multiset(), before[l]));
                if l == level {
                    crate::arithmetic::lemma_sum_plus_item(
                        *ops,
                        items,
                        current,
                        values@[i as int],
                        next,
                    );
                }
            }
        }
    }
    acc
}

/// Add two vectors of equal length.
fn add_vectors<T: Copy, A: Arithmetic<T>>(a: Vec<T>, b: Vec<T>, ops: &A) -> (sum: Vec<T>)
    requires
        a@.len() == b@.len(),
    ensures
        is_elementwise_sum(*ops, a@, b@, sum@),
{
    let ghost before = a@;
    let mut a = a;
    for i in 0..b.len()
        invariant
            a@.len() == before.len() == b@.len(),
            forall|j: int| i <= j < before.len() ==> #[trigger] a@[j] == before[j],
            forall|j: int|
                0 <= j < i ==> crate::arithmetic::plus_gives(
                    *ops,
                    before[j],
                    b@[j],
                    #[trigger] a@[j],
                ),
    {
        let sum: T = ops.plus(a[i], b[i]);
        a.set(i, sum);
    }
    a
}

/// A vector of zeros.
fn zeros<T: Copy, A: Arithmetic<T>>(n: usize, ops: &A) -> (out: Vec<T>)
    ensures
        is_zeros(*ops, n as nat, out@),
{
    filled(n, ops.zero())
}

/// `n` values of zero.
pub open spec fn is_zeros<T, A: Arithmetic<T>>(ops: A, n: nat, out: Seq<T>) -> bool {
    &&& out.len() == n
    &&& forall|i: int| 0 <= i < n ==> crate::arithmetic::zero_gives(ops, #[trigger] out[i])
}

proof fn lemma_partial_scatter_nothing<T, A: Arithmetic<T>>(
    ops: A,
    codes: Seq<u32>,
    values: Seq<T>,
    n_levels: nat,
    lo: int,
    acc: Seq<T>,
)
    requires
        is_zeros(ops, n_levels, acc),
    ensures
        is_partial_scatter(ops, codes, values, n_levels, lo, lo, acc),
{
    broadcast use vstd::seq_lib::group_to_multiset_ensures;

    assert forall|level: int| 0 <= level < n_levels implies crate::arithmetic::is_sum_of(
        ops,
        (#[trigger] values_between(codes, values, level, lo, lo)).to_multiset(),
        acc[level],
    ) by {
        assert(crate::arithmetic::zero_gives(ops, acc[level]));
        crate::arithmetic::lemma_sum_of_none(ops, acc[level]);
        assert(Seq::<T>::empty().to_multiset() =~= vstd::multiset::Multiset::empty());
    }
}

proof fn lemma_partial_scatter_join<T, A: Arithmetic<T>>(
    ops: A,
    codes: Seq<u32>,
    values: Seq<T>,
    n_levels: nat,
    lo: int,
    mid: int,
    hi: int,
    a: Seq<T>,
    b: Seq<T>,
    sum: Seq<T>,
)
    requires
        lo <= mid <= hi,
        is_partial_scatter(ops, codes, values, n_levels, lo, mid, a),
        is_partial_scatter(ops, codes, values, n_levels, mid, hi, b),
        is_elementwise_sum(ops, a, b, sum),
    ensures
        is_partial_scatter(ops, codes, values, n_levels, lo, hi, sum),
{
    assert forall|level: int| 0 <= level < n_levels implies crate::arithmetic::is_sum_of(
        ops,
        (#[trigger] values_between(codes, values, level, lo, hi)).to_multiset(),
        sum[level],
    ) by {
        let left = values_between(codes, values, level, lo, mid);
        let right = values_between(codes, values, level, mid, hi);
        lemma_values_between_split(codes, values, level, lo, mid, hi);
        vstd::seq_lib::lemma_multiset_commutative(left, right);
        assert(crate::arithmetic::plus_gives(ops, a[level], b[level], sum[level]));
        crate::arithmetic::lemma_sum_of_sums(
            ops,
            left.to_multiset(),
            right.to_multiset(),
            a[level],
            b[level],
            sum[level],
        );
    }
}

/// Sum up each level's values, in parallel runs of rows.
fn fold_bins<T: Copy + Send + Sync, A: Arithmetic<T> + Sync>(
    n_levels: usize,
    codes: &[u32],
    values: &[T],
    min_len: usize,
    ops: &A,
) -> (bins: Vec<T>)
    requires
        codes@.len() == values@.len(),
        forall|i: int| 0 <= i < codes@.len() ==> #[trigger] codes@[i] < n_levels,
    ensures
        is_partial_scatter(
            *ops,
            codes@,
            values@,
            n_levels as nat,
            0,
            codes@.len() as int,
            bins@,
        ),
{
    let n_rows: usize = codes.len();
    let ghost fold_ok = |lo: int, hi: int, acc: Vec<T>|
        is_partial_scatter(*ops, codes@, values@, n_levels as nat, lo, hi, acc@);
    let ghost reduce_ok = fold_ok;
    let init = || -> (acc: Vec<T>)
        ensures
            is_zeros(*ops, n_levels as nat, acc@),
        { zeros(n_levels, ops) };
    let step = |acc: Vec<T>, i: usize| -> (sum: Vec<T>)
        requires
            acc@.len() == n_levels,
            i < codes@.len(),
        ensures
            sum@.len() == n_levels,
            adds_row(*ops, codes@, values@, n_levels as nat, i as int, acc@, sum@),
        { add_row(acc, codes, values, i, n_levels, ops) };
    let finish = |acc: Vec<T>| -> (bins: Vec<T>)
        ensures
            bins == acc,
        { acc };
    let identity = || -> (acc: Vec<T>)
        ensures
            is_zeros(*ops, n_levels as nat, acc@),
        { zeros(n_levels, ops) };
    let combine = |a: Vec<T>, b: Vec<T>| -> (sum: Vec<T>)
        requires
            a@.len() == b@.len(),
        ensures
            is_elementwise_sum(*ops, a@, b@, sum@),
        { add_vectors(a, b, ops) };
    let fns = (init, step, finish, identity, combine);
    proof {
        assert forall|lo: int, u: Vec<T>|
            0 <= lo <= n_rows && call_ensures(fns.0, (), u) implies #[trigger] fold_ok(
            lo,
            lo,
            u,
        ) by {
            lemma_partial_scatter_nothing(*ops, codes@, values@, n_levels as nat, lo, u@);
        }
        assert forall|lo: int, i: usize, u: Vec<T>, v: Vec<T>|
            #![trigger fold_ok(lo, i as int, u), call_ensures(fns.1, (u, i), v)]
            0 <= lo <= i < n_rows && fold_ok(lo, i as int, u) && call_ensures(
                fns.1,
                (u, i),
                v,
            ) implies fold_ok(lo, i + 1, v) by {
            assert(adds_row(*ops, codes@, values@, n_levels as nat, i as int, u@, v@));
            assert(is_partial_scatter(
                *ops,
                codes@,
                values@,
                n_levels as nat,
                lo,
                i as int,
                u@,
            ));
        }
        assert forall|lo: int, hi: int, u: Vec<T>, m: Vec<T>, z: Vec<T>, r: Vec<T>|
            #![trigger fold_ok(lo, hi, u), call_ensures(fns.2, (u,), m), call_ensures(fns.4, (z, m), r)]
            0 <= lo <= hi <= n_rows && fold_ok(lo, hi, u) && call_ensures(fns.2, (u,), m)
                && call_ensures(fns.3, (), z) && call_ensures(fns.4, (z, m), r) implies reduce_ok(
            lo,
            hi,
            r,
        ) by {
            lemma_partial_scatter_nothing(*ops, codes@, values@, n_levels as nat, lo, z@);
            lemma_partial_scatter_join(
                *ops,
                codes@,
                values@,
                n_levels as nat,
                lo,
                lo,
                hi,
                z@,
                m@,
                r@,
            );
        }
        assert forall|lo: int, mid: int, hi: int, a: Vec<T>, b: Vec<T>, r: Vec<T>|
            #![trigger reduce_ok(lo, mid, a), reduce_ok(mid, hi, b), call_ensures(fns.4, (a, b), r)]
            0 <= lo <= mid <= hi <= n_rows && reduce_ok(lo, mid, a) && reduce_ok(mid, hi, b)
                && call_ensures(fns.4, (a, b), r) implies reduce_ok(lo, hi, r) by {
            lemma_partial_scatter_join(
                *ops,
                codes@,
                values@,
                n_levels as nat,
                lo,
                mid,
                hi,
                a@,
                b@,
                r@,
            );
        }
        assert(crate::parallel::is_kept(fns, n_rows, fold_ok, reduce_ok));
    }
    let bins = fold_reduce(n_rows, min_len, fns, Ghost(fold_ok), Ghost(reduce_ok));
    assert(reduce_ok(0, n_rows as int, bins));
    bins
}

/// Scatter-add for a single factor, dispatched by strategy.
///
/// Adds each row's value to the bin of its level; the bins are
/// `dst[offset..offset + n_levels]`.
pub fn scatter_add_single_factor<
    T: Copy + Send + Sync,
    A: Arithmetic<T> + Sync,
    B: AtomicBins<T, A>,
>(
    dst: &mut [T],
    offset: usize,
    n_levels: usize,
    codes: &[u32],
    values: &[T],
    strategy: ScatterStrategy,
    ops: &A,
    atomic: &B,
)
    requires
        offset + n_levels <= old(dst)@.len(),
        codes@.len() == values@.len(),
        forall|i: int| 0 <= i < codes@.len() ==> #[trigger] codes@[i] < n_levels,
    ensures
        same_outside(old(dst)@, final(dst)@, offset as int, n_levels as int),
        scatter_outcome(
            *ops,
            strategy,
            codes@,
            values@,
            offset as int,
            n_levels as int,
            old(dst)@,
            final(dst)@,
        ),
{
    let ghost before = dst@;
    let n_slots: usize = dst.len();
    match strategy {
        ScatterStrategy::Sequential => {
            scatter_sequential(dst, offset, n_levels, codes, values, ops);
        },
        ScatterStrategy::Fold => {
            let threads: usize = current_num_threads();
            let share: usize = codes.len() / (if threads > 1 {
                threads
            } else {
                1
            });
            let min_len: usize = if share > 1024 {
                share
            } else {
                1024
            };
            let bins: Vec<T> = fold_bins(n_levels, codes, values, min_len, ops);
            for level in 0..n_levels
                invariant
                    offset + n_levels <= n_slots == before.len(),
                    same_outside(before, dst@, offset as int, n_levels as int),
                    bins@.len() == n_levels,
                    is_partial_scatter(
                        *ops,
                        codes@,
                        values@,
                        n_levels as nat,
                        0,
                        codes@.len() as int,
                        bins@,
                    ),
                    forall|l: int|
                        level <= l < n_levels ==> #[trigger] dst@[offset + l] == before[offset + l],
                    forall|l: int|
                        0 <= l < level ==> is_folded_sum(
                            *ops,
                            before[offset + l],
                            #[trigger] values_at(codes@, values@, l),
                            dst@[offset + l],
                        ),
            {
                let slot: usize = offset + level;
                let current: T = dst[slot];
                let sum: T = ops.plus(current, bins[level]);
                let ghost dst_before = dst@;
                dst[slot] = sum;
                proof {
                    assert(crate::arithmetic::is_sum_of(
                        *ops,
                        values_between(
                            codes@,
                            values@,
                            level as int,
                            0,
                            codes@.len() as int,
                        ).to_multiset(),
                        bins@[level as int],
                    ));
                    assert(dst_before[offset + level] == before[offset + level]);
                    assert(is_folded_sum(
                        *ops,
                        before[offset + level],
                        values_at(codes@, values@, level as int),
                        sum,
                    ));
                    assert forall|l: int| 0 <= l < level + 1 implies is_folded_sum(
                        *ops,
                        before[offset + l],
                        #[trigger] values_at(codes@, values@, l),
                        dst@[offset + l],
                    ) by {
                        if l < level {
                            assert(dst@[offset + l] == dst_before[offset + l]);
                        }
                    }
                }
            }
        },
        ScatterStrategy::Atomic => {
            let mut initial: Vec<T> = Vec::with_capacity(n_levels);
            for level in 0..n_levels
                invariant
                    offset + n_levels <= n_slots == before.len(),
                    dst@ == before,
                    initial@ == before.subrange(offset as int, offset + level),
            {
                initial.push(dst[offset + level]);
                assert(initial@ =~= before.subrange(offset as int, offset + level + 1));
            }
            let ghost given = initial@;
            let bins: Vec<T> = atomic.accumulate(initial, codes, values, ops);
            for level in 0..n_levels
                invariant
                    offset + n_levels <= n_slots == before.len(),
                    n_levels == bins@.len(),
                    same_outside(before, dst@, offset as int, n_levels as int),
                    forall|l: int| 0 <= l < level ==> #[trigger] dst@[offset + l] == bins@[l],
            {
                dst[offset + level] = bins[level];
            }
            proof {
                assert forall|level: int| 0 <= level < n_levels implies is_accumulated(
                    *ops,
                    before[offset + level],
                    #[trigger] values_at(codes@, values@, level),
                    dst@[offset + level],
                ) by {
                    assert(given[level] == before[offset + level]);
                    assert(dst@[offset + level] == bins@[level]);
                }
            }
        },
    }
}

} // verus!
