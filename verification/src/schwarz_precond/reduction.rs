//! Parallel reduction over worker buffers: each worker accumulates a share of
//! the subdomains, then the accumulators are summed.

use vstd::prelude::*;

use crate::arithmetic::Arithmetic;
use crate::parallel::{current_num_threads, par_map_items};
use crate::schwarz_precond::error::{LocalSolveError, SolveError};
use crate::schwarz_precond::executor::{finish_round, take_or_alloc, AdditiveSweepBuffers};
use crate::schwarz_precond::local_solve::{lift_local_error, LocalSolver, SubdomainEntry};

verus! {

/// What the parts contribute to unknown `dof`, in order.
pub open spec fn contributions<T, S>(
    entries: Seq<SubdomainEntry<S>>,
    parts: Seq<Seq<T>>,
    dof: int,
) -> Seq<T> {
    crate::kernels::values_at(
        crate::concat::concat_all(crate::schwarz_precond::apply::part_indices(entries, parts)),
        crate::concat::concat_all(parts),
        dof,
    )
}

/// `sum` adds up, in some order, what the parts contribute to `dof`.
pub open spec fn is_contribution_sum<T, A: Arithmetic<T>, S>(
    ops: A,
    entries: Seq<SubdomainEntry<S>>,
    parts: Seq<Seq<T>>,
    dof: int,
    sum: T,
) -> bool {
    crate::arithmetic::is_sum_of(ops, contributions(entries, parts, dof).to_multiset(), sum)
}

/// `accum[dof]` adds up what the parts contribute to `dof`, for every unknown.
pub open spec fn are_contribution_sums<T, A: Arithmetic<T>, S>(
    ops: A,
    entries: Seq<SubdomainEntry<S>>,
    parts: Seq<Seq<T>>,
    accum: Seq<T>,
) -> bool {
    forall|dof: int|
        0 <= dof < accum.len() ==> is_contribution_sum(
            ops,
            entries,
            parts,
            dof,
            #[trigger] accum[dof],
        )
}

/// No part is longer than its subdomain.
pub open spec fn parts_fit<T, S>(entries: Seq<SubdomainEntry<S>>, parts: Seq<Seq<T>>) -> bool {
    &&& parts.len() == entries.len()
    &&& forall|d: int|
        0 <= d < parts.len() ==> (#[trigger] parts[d]).len()
            <= entries[d].spec_core().indices().len()
}

proof fn lemma_values_at_concat<T>(
    codes: Seq<u32>,
    values: Seq<T>,
    more_codes: Seq<u32>,
    more_values: Seq<T>,
    level: int,
    n: int,
)
    requires
        codes.len() == values.len(),
        0 <= n <= more_codes.len() == more_values.len(),
    ensures
        crate::kernels::values_between(
            codes + more_codes,
            values + more_values,
            level,
            0,
            codes.len() + n,
        ) == crate::kernels::values_at(codes, values, level) + crate::kernels::values_between(
            more_codes,
            more_values,
            level,
            0,
            n,
        ),
    decreases n,
{
    let all_codes = codes + more_codes;
    let all_values = values + more_values;
    let here = crate::kernels::values_at(codes, values, level);
    if n > 0 {
        lemma_values_at_concat(codes, values, more_codes, more_values, level, n - 1);
        assert(all_codes[codes.len() + n - 1] == more_codes[n - 1]);
        assert(all_values[codes.len() + n - 1] == more_values[n - 1]);
        assert(crate::kernels::values_between(
            all_codes,
            all_values,
            level,
            0,
            codes.len() + n,
        ) =~= here + crate::kernels::values_between(more_codes, more_values, level, 0, n));
    } else {
        lemma_values_of_prefix(codes, values, more_codes, more_values, level, codes.len() as int);
        assert(here + crate::kernels::values_between(more_codes, more_values, level, 0, 0)
            =~= here);
    }
}

proof fn lemma_values_of_prefix<T>(
    codes: Seq<u32>,
    values: Seq<T>,
    more_codes: Seq<u32>,
    more_values: Seq<T>,
    level: int,
    n: int,
)
    requires
        codes.len() == values.len(),
        0 <= n <= codes.len(),
    ensures
        crate::kernels::values_between(codes + more_codes, values + more_values, level, 0, n)
            == crate::kernels::values_between(codes, values, level, 0, n),
    decreases n,
{
    if n > 0 {
        lemma_values_of_prefix(codes, values, more_codes, more_values, level, n - 1);
        assert((codes + more_codes)[n - 1] == codes[n - 1]);
        assert((values + more_values)[n - 1] == values[n - 1]);
    }
}

proof fn lemma_part_lengths<T, S>(entries: Seq<SubdomainEntry<S>>, parts: Seq<Seq<T>>)
    requires
        parts_fit(entries, parts),
    ensures
        crate::concat::concat_all(
            crate::schwarz_precond::apply::part_indices(entries, parts),
        ).len() == crate::concat::concat_all(parts).len(),
    decreases parts.len(),
{
    let lists = crate::schwarz_precond::apply::part_indices(entries, parts);
    if parts.len() > 0 {
        let d = parts.len() - 1;
        let front = entries.drop_last();
        assert(parts_fit(front, parts.drop_last())) by {
            assert forall|k: int| 0 <= k < parts.drop_last().len() implies (
            #[trigger] parts.drop_last()[k]).len() <= front[k].spec_core().indices().len() by {
                assert(parts[k].len() <= entries[k].spec_core().indices().len());
            }
        }
        lemma_part_lengths(front, parts.drop_last());
        assert(lists.drop_last() =~= crate::schwarz_precond::apply::part_indices(
            front,
            parts.drop_last(),
        ));
        assert(parts[d].len() <= entries[d].spec_core().indices().len());
    }
}

/// The contributions of two runs of subdomains follow one another.
proof fn lemma_contributions_concat<T, S>(
    a: Seq<SubdomainEntry<S>>,
    a_parts: Seq<Seq<T>>,
    b: Seq<SubdomainEntry<S>>,
    b_parts: Seq<Seq<T>>,
    dof: int,
)
    requires
        parts_fit(a, a_parts),
        parts_fit(b, b_parts),
    ensures
        parts_fit(a + b, a_parts + b_parts),
        contributions(a + b, a_parts + b_parts, dof) == contributions(a, a_parts, dof)
            + contributions(b, b_parts, dof),
{
    let parts = a_parts + b_parts;
    assert forall|d: int| 0 <= d < parts.len() implies (#[trigger] parts[d]).len() <= (a
        + b)[d].spec_core().indices().len() by {
        if d < a_parts.len() {
            assert(a_parts[d].len() <= a[d].spec_core().indices().len());
        } else {
            let k = d - a_parts.len();
            assert(b_parts[k].len() <= b[k].spec_core().indices().len());
        }
    }
    let a_lists = crate::schwarz_precond::apply::part_indices(a, a_parts);
    let b_lists = crate::schwarz_precond::apply::part_indices(b, b_parts);
    assert(crate::schwarz_precond::apply::part_indices(a + b, parts) =~= a_lists + b_lists);
    crate::concat::lemma_concat_all(a_lists, b_lists);
    crate::concat::lemma_concat_all(a_parts, b_parts);
    lemma_part_lengths(a, a_parts);
    lemma_part_lengths(b, b_parts);
    let codes = crate::concat::concat_all(b_lists);
    lemma_values_at_concat(
        crate::concat::concat_all(a_lists),
        crate::concat::concat_all(a_parts),
        codes,
        crate::concat::concat_all(b_parts),
        dof,
        codes.len() as int,
    );
}

/// The contributions of one subdomain.
proof fn lemma_contributions_of_one<T, S>(entry: SubdomainEntry<S>, part: Seq<T>, dof: int)
    ensures
        contributions(seq![entry], seq![part], dof) == crate::kernels::values_at(
            entry.spec_core().indices().take(part.len() as int),
            part,
            dof,
        ),
{
    let lists = crate::schwarz_precond::apply::part_indices(seq![entry], seq![part]);
    assert(lists =~= seq![entry.spec_core().indices().take(part.len() as int)]);
    lemma_concat_of_one(lists);
    lemma_concat_of_one(seq![part]);
}

proof fn lemma_concat_of_one<T>(lists: Seq<Seq<T>>)
    requires
        lists.len() == 1,
    ensures
        crate::concat::concat_all(lists) == lists[0],
{
    assert(lists.drop_last() =~= Seq::empty());
    assert(crate::concat::concat_all(lists.drop_last()) =~= Seq::empty());
    assert(crate::concat::concat_all(lists) =~= lists[0]);
}

/// Adding items in order to a sum gives a sum of everything.
proof fn lemma_sum_continues<T, A: Arithmetic<T>>(
    ops: A,
    before: Seq<T>,
    start: T,
    items: Seq<T>,
    result: T,
)
    requires
        crate::arithmetic::is_sum_of(ops, before.to_multiset(), start),
        crate::arithmetic::sums_to(ops, start, items, result),
    ensures
        crate::arithmetic::is_sum_of(ops, (before + items).to_multiset(), result),
{
    let partial = choose|partial: Seq<T>| #[trigger]
        crate::arithmetic::is_running_sum(ops, start, items, partial) && partial.last() == result;
    lemma_partial_continues(ops, before, start, items, partial, items.len() as int);
    assert(items.take(items.len() as int) =~= items);
}

proof fn lemma_partial_continues<T, A: Arithmetic<T>>(
    ops: A,
    before: Seq<T>,
    start: T,
    items: Seq<T>,
    partial: Seq<T>,
    k: int,
)
    requires
        crate::arithmetic::is_sum_of(ops, before.to_multiset(), start),
        crate::arithmetic::is_running_sum(ops, start, items, partial),
        0 <= k <= items.len(),
    ensures
        crate::arithmetic::is_sum_of(ops, (before + items.take(k)).to_multiset(), partial[k]),
    decreases k,
{
    if k == 0 {
        assert(before + items.take(0) =~= before);
    } else {
        lemma_partial_continues(ops, before, start, items, partial, k - 1);
        assert(crate::arithmetic::plus_gives(
            ops,
            partial[k - 1],
            items[k - 1],
            partial[k - 1 + 1],
        ));
        crate::arithmetic::lemma_sum_plus_item(
            ops,
            before + items.take(k - 1),
            partial[k - 1],
            items[k - 1],
            partial[k],
        );
        assert((before + items.take(k - 1)).push(items[k - 1]) =~= before + items.take(k));
    }
}

/// A column of sums, summed from zero, is a sum of all their items.
proof fn lemma_column_of_sums<T, A: Arithmetic<T>>(
    ops: A,
    zero: T,
    column: Seq<T>,
    pieces: Seq<Seq<T>>,
    partial: Seq<T>,
    k: int,
)
    requires
        crate::arithmetic::zero_gives(ops, zero),
        crate::arithmetic::is_running_sum(ops, zero, column, partial),
        pieces.len() == column.len(),
        forall|w: int|
            0 <= w < column.len() ==> crate::arithmetic::is_sum_of(
                ops,
                pieces[w].to_multiset(),
                #[trigger] column[w],
            ),
        0 <= k <= column.len(),
    ensures
        crate::arithmetic::is_sum_of(
            ops,
            crate::concat::concat_all(pieces.take(k)).to_multiset(),
            partial[k],
        ),
    decreases k,
{
    broadcast use vstd::seq_lib::group_to_multiset_ensures;

    if k == 0 {
        assert(pieces.take(0) =~= Seq::empty());
        assert(crate::concat::concat_all(pieces.take(0)).to_multiset()
            =~= vstd::multiset::Multiset::empty());
        crate::arithmetic::lemma_sum_of_none(ops, zero);
    } else {
        lemma_column_of_sums(ops, zero, column, pieces, partial, k - 1);
        let front = crate::concat::concat_all(pieces.take(k - 1));
        let piece = pieces[k - 1];
        assert(crate::arithmetic::plus_gives(
            ops,
            partial[k - 1],
            column[k - 1],
            partial[k - 1 + 1],
        ));
        crate::arithmetic::lemma_sum_of_sums(
            ops,
            front.to_multiset(),
            piece.to_multiset(),
            partial[k - 1],
            column[k - 1],
            partial[k],
        );
        assert(pieces.take(k).drop_last() =~= pieces.take(k - 1));
        assert(pieces.take(k).last() == piece);
        vstd::seq_lib::lemma_multiset_commutative(front, piece);
    }
}

// ---------------------------------------------------------------------------
// One share
// ---------------------------------------------------------------------------

/// A worker's buffers and the subdomains `lo..hi` that it takes care of.
pub struct Share<T> {
    /// The worker's buffers.
    pub buffers: AdditiveSweepBuffers<T>,
    /// First subdomain.
    pub lo: usize,
    /// One past the last subdomain.
    pub hi: usize,
}

/// A worker's buffers after its share, with the failure that stopped it.
pub struct ShareDone<T> {
    /// The worker's buffers.
    pub buffers: AdditiveSweepBuffers<T>,
    /// How it ended.
    pub result: Result<(), SolveError>,
}

/// `parts` are the weighted local solutions of `entries`, and `accum` sums them.
spec fn is_share_sum<T, A: Arithmetic<T>, S: LocalSolver<T>>(
    ops: A,
    entries: Seq<SubdomainEntry<S>>,
    allow_inner_parallelism: bool,
    r: Seq<T>,
    parts: Seq<Seq<T>>,
    accum: Seq<T>,
) -> bool {
    &&& parts_fit(entries, parts)
    &&& crate::schwarz_precond::apply::are_local_solutions(
        ops,
        entries,
        allow_inner_parallelism,
        r,
        parts,
    )
    &&& are_contribution_sums(ops, entries, parts, accum)
}

/// The subdomain that `e` names is among `lo..hi` and failed with its source.
pub open spec fn is_local_failure<T, A: Arithmetic<T>, S: LocalSolver<T>>(
    ops: A,
    entries: Seq<SubdomainEntry<S>>,
    allow_inner_parallelism: bool,
    r: Seq<T>,
    e: SolveError,
) -> bool {
    e matches SolveError::LocalSolveFailed { subdomain, source } && subdomain < entries.len()
        && crate::schwarz_precond::local_solve::fails_locally(
        ops,
        entries[subdomain as int],
        allow_inner_parallelism,
        r,
        source,
    )
}

/// What a worker makes of its share.
spec fn share_outcome<T, A: Arithmetic<T>, S: LocalSolver<T>>(
    ops: &A,
    entries: &[SubdomainEntry<S>],
    allow_inner_parallelism: bool,
    r: &[T],
    share: Share<T>,
    done: ShareDone<T>,
) -> bool {
    &&& done.buffers.global_accum@.len() == share.buffers.global_accum@.len()
    &&& done.buffers.scratch == share.buffers.scratch
    &&& match done.result {
        Ok(()) => exists|parts: Seq<Seq<T>>| #[trigger]
            is_share_sum(
                *ops,
                entries@.subrange(share.lo as int, share.hi as int),
                allow_inner_parallelism,
                r@,
                parts,
                done.buffers.global_accum@,
            ),
        Err(e) => is_local_failure(*ops, entries@, allow_inner_parallelism, r@, e),
    }
}

/// The share is within the subdomains and its accumulator is zero.
spec fn is_ready<T, A: Arithmetic<T>, S>(
    ops: &A,
    entries: &[SubdomainEntry<S>],
    r: &[T],
    share: Share<T>,
) -> bool {
    &&& share.lo <= share.hi <= entries@.len()
    &&& crate::kernels::is_zeros(*ops, r@.len(), share.buffers.global_accum@)
    &&& forall|d: int| 0 <= d < entries@.len() ==> (#[trigger] entries@[d]).fits(r@.len())
}

/// One more subdomain extends the sums by its contributions.
proof fn lemma_share_grows<T, A: Arithmetic<T>, S: LocalSolver<T>>(
    ops: A,
    entries: Seq<SubdomainEntry<S>>,
    allow_inner_parallelism: bool,
    r: Seq<T>,
    parts: Seq<Seq<T>>,
    entry: SubdomainEntry<S>,
    part: Seq<T>,
    before: Seq<T>,
    after: Seq<T>,
)
    requires
        is_share_sum(ops, entries, allow_inner_parallelism, r, parts, before),
        crate::schwarz_precond::local_solve::is_weighted_local_solution(
            ops,
            entry,
            allow_inner_parallelism,
            r,
            part,
        ),
        after.len() == before.len(),
        crate::kernels::is_sequential_scatter(
            ops,
            entry.spec_core().indices().take(part.len() as int),
            part,
            0,
            before.len() as int,
            before,
            after,
        ),
        part.len() <= entry.spec_core().indices().len(),
    ensures
        is_share_sum(
            ops,
            entries.push(entry),
            allow_inner_parallelism,
            r,
            parts.push(part),
            after,
        ),
{
    let more = entries.push(entry);
    let longer = parts.push(part);
    assert(entries + seq![entry] =~= more);
    assert(parts + seq![part] =~= longer);
    assert(parts_fit(seq![entry], seq![part]));
    lemma_contributions_concat(entries, parts, seq![entry], seq![part], 0);
    assert forall|d: int| 0 <= d < more.len()
        implies crate::schwarz_precond::local_solve::is_weighted_local_solution(
        ops,
        more[d],
        allow_inner_parallelism,
        r,
        #[trigger] longer[d],
    ) by {
        if d < entries.len() {
            assert(crate::schwarz_precond::local_solve::is_weighted_local_solution(
                ops,
                entries[d],
                allow_inner_parallelism,
                r,
                parts[d],
            ));
        }
    }
    assert forall|dof: int| 0 <= dof < after.len() implies is_contribution_sum(
        ops,
        more,
        longer,
        dof,
        #[trigger] after[dof],
    ) by {
        lemma_contributions_concat(entries, parts, seq![entry], seq![part], dof);
        lemma_contributions_of_one(entry, part, dof);
        let items = crate::kernels::values_at(
            entry.spec_core().indices().take(part.len() as int),
            part,
            dof,
        );
        assert(crate::arithmetic::sums_to(ops, before[0 + dof], items, after[0 + dof]));
        assert(is_contribution_sum(ops, entries, parts, dof, before[dof]));
        lemma_sum_continues(
            ops,
            contributions(entries, parts, dof),
            before[dof],
            items,
            after[dof],
        );
    }
}

/// Zeros are the sums of no parts.
proof fn lemma_share_starts<T, A: Arithmetic<T>, S: LocalSolver<T>>(
    ops: A,
    allow_inner_parallelism: bool,
    r: Seq<T>,
    accum: Seq<T>,
)
    requires
        crate::kernels::is_zeros(ops, accum.len(), accum),
    ensures
        is_share_sum::<T, A, S>(
            ops,
            Seq::empty(),
            allow_inner_parallelism,
            r,
            Seq::empty(),
            accum,
        ),
{
    broadcast use vstd::seq_lib::group_to_multiset_ensures;

    let entries = Seq::<SubdomainEntry<S>>::empty();
    let parts = Seq::<Seq<T>>::empty();
    assert forall|dof: int| 0 <= dof < accum.len() implies is_contribution_sum(
        ops,
        entries,
        parts,
        dof,
        #[trigger] accum[dof],
    ) by {
        let lists = crate::schwarz_precond::apply::part_indices(entries, parts);
        assert(lists =~= Seq::empty());
        assert(contributions(entries, parts, dof) =~= Seq::empty());
        assert(contributions(entries, parts, dof).to_multiset()
            =~= vstd::multiset::Multiset::empty());
        assert(crate::arithmetic::zero_gives(ops, accum[dof]));
        crate::arithmetic::lemma_sum_of_none(ops, accum[dof]);
    }
}

/// Apply the subdomains of one share, one after another.
fn run_share<T: Copy, A: Arithmetic<T>, S: LocalSolver<T>>(
    entries: &[SubdomainEntry<S>],
    allow_inner_parallelism: bool,
    r: &[T],
    share: Share<T>,
    ops: &A,
) -> (done: ShareDone<T>)
    requires
        is_ready(ops, entries, r, share),
    ensures
        share_outcome(ops, entries, allow_inner_parallelism, r, share, done),
{
    let Share { buffers, lo, hi } = share;
    let mut buffers = buffers;
    let ghost mut parts = Seq::<Seq<T>>::empty();
    proof {
        lemma_share_starts::<T, A, S>(
            *ops,
            allow_inner_parallelism,
            r@,
            buffers.global_accum@,
        );
        assert(entries@.subrange(lo as int, lo as int) =~= Seq::empty());
    }
    let mut d: usize = lo;
    while d < hi
        invariant
            lo <= d <= hi <= entries@.len(),
            forall|d: int| 0 <= d < entries@.len() ==> (#[trigger] entries@[d]).fits(r@.len()),
            buffers.global_accum@.len() == r@.len(),
            buffers.scratch == share.buffers.scratch,
            share.buffers.global_accum@.len() == r@.len(),
            is_share_sum(
                *ops,
                entries@.subrange(lo as int, d as int),
                allow_inner_parallelism,
                r@,
                parts,
                buffers.global_accum@,
            ),
        decreases hi - d,
    {
        let ghost before = buffers.global_accum@;
        let entry: &SubdomainEntry<S> = &entries[d];
        assert(entries@[d as int].fits(r@.len()));
        let outcome: Result<(), LocalSolveError> = entry.apply_weighted_into(
            r,
            buffers.global_accum.as_mut_slice(),
            allow_inner_parallelism,
            ops,
        );
        match lift_local_error(d, outcome) {
            Err(e) => {
                return ShareDone { buffers, result: Err(e) };
            },
            Ok(()) => {
                proof {
                    let (rhs, solution) = choose|rhs: Vec<T>, solution: Vec<T>| #[trigger]
                        crate::schwarz_precond::local_solve::is_local_solve(
                            *ops,
                            *entry,
                            allow_inner_parallelism,
                            r@,
                            rhs,
                            Ok(solution),
                        ) && crate::schwarz_precond::local_solve::is_prolongation(
                            *ops,
                            entry.spec_core(),
                            solution@,
                            before,
                            buffers.global_accum@,
                        );
                    let part = choose|part: Seq<T>|
                        {
                            &&& #[trigger] crate::schwarz_precond::local_solve::is_weighted_solution(
                                *ops,
                                entry.spec_core(),
                                solution@,
                                part,
                            )
                            &&& buffers.global_accum@.len() == before.len()
                            &&& crate::kernels::is_sequential_scatter(
                                *ops,
                                entry.spec_core().indices().take(part.len() as int),
                                part,
                                0,
                                before.len() as int,
                                before,
                                buffers.global_accum@,
                            )
                        };
                    assert(crate::schwarz_precond::local_solve::is_weighted_local_solution(
                        *ops,
                        *entry,
                        allow_inner_parallelism,
                        r@,
                        part,
                    ));
                    lemma_share_grows(
                        *ops,
                        entries@.subrange(lo as int, d as int),
                        allow_inner_parallelism,
                        r@,
                        parts,
                        *entry,
                        part,
                        before,
                        buffers.global_accum@,
                    );
                    parts = parts.push(part);
                    assert(entries@.subrange(lo as int, d + 1) =~= entries@.subrange(
                        lo as int,
                        d as int,
                    ).push(*entry));
                }
            },
        }
        d = d + 1;
    }
    ShareDone { buffers, result: Ok(()) }
}

// ---------------------------------------------------------------------------
// All shares
// ---------------------------------------------------------------------------

/// The shares follow one another over all `n` subdomains, one per buffer.
spec fn are_shares<T>(
    pool: Seq<AdditiveSweepBuffers<T>>,
    n: nat,
    bounds: Seq<int>,
    shares: Seq<Share<T>>,
) -> bool {
    &&& shares.len() == pool.len()
    &&& is_partition(bounds, pool.len(), n as int)
    &&& forall|w: int|
        0 <= w < shares.len() ==> (#[trigger] shares[w]).buffers == pool[w] && shares[w].lo
            == bounds[w] && shares[w].hi == bounds[w + 1]
}

/// `bounds` cuts `0..n` into `m` runs.
spec fn is_partition(bounds: Seq<int>, m: nat, n: int) -> bool {
    &&& bounds.len() == m + 1
    &&& bounds[0] == 0
    &&& bounds[m as int] == n
    &&& forall|w: int| 0 <= w < m ==> #[trigger] bounds[w] <= bounds[w + 1]
    &&& forall|w: int| 0 <= w <= m ==> 0 <= #[trigger] bounds[w] <= n
}

/// Deal the subdomains out to the buffers in runs of about equal length.
fn deal_shares<T>(pool: Vec<AdditiveSweepBuffers<T>>, n: usize) -> (result: (
    Vec<Share<T>>,
    Ghost<Seq<int>>,
))
    requires
        pool@.len() > 0,
    ensures
        are_shares(pool@, n as nat, result.1@, result.0@),
{
    let m: usize = pool.len();
    let size: usize = n / m;
    let mut shares: Vec<Share<T>> = Vec::with_capacity(m);
    let ghost mut bounds = seq![0int];
    let mut next: usize = 0;
    for buffers in iter: pool
        invariant
            iter.seq() == pool@,
            m == pool@.len() > 0,
            size == n / m,
            shares@.len() == iter.index(),
            bounds.len() == iter.index() + 1,
            bounds[0] == 0,
            next == bounds[iter.index() as int],
            next <= n,
            next == n || next == iter.index() * (size + 1),
            forall|w: int| 0 <= w < iter.index() ==> #[trigger] bounds[w] <= bounds[w + 1],
            forall|w: int| 0 <= w <= iter.index() ==> 0 <= #[trigger] bounds[w] <= n,
            forall|w: int|
                0 <= w < shares@.len() ==> (#[trigger] shares@[w]).buffers == pool@[w]
                    && shares@[w].lo == bounds[w] && shares@[w].hi == bounds[w + 1],
    {
        let ghost k = iter.index() as int;
        let hi: usize = if n - next <= size {
            n
        } else {
            next + size + 1
        };
        proof {
            assert((k + 1) * (size + 1) == k * (size + 1) + (size + 1)) by (nonlinear_arith);
            bounds = bounds.push(hi as int);
        }
        shares.push(Share { buffers, lo: next, hi });
        next = hi;
    }
    proof {
        assert(m * (size + 1) > n) by (nonlinear_arith)
            requires
                size == n / m,
                m > 0,
        ;
    }
    (shares, Ghost(bounds))
}

/// Adjacent shares make up the subdomains before a bound.
proof fn lemma_groups_join<T, A: Arithmetic<T>, S: LocalSolver<T>>(
    ops: A,
    entries: Seq<SubdomainEntry<S>>,
    allow_inner_parallelism: bool,
    r: Seq<T>,
    bounds: Seq<int>,
    groups: Seq<Seq<Seq<T>>>,
    dof: int,
    k: int,
)
    requires
        is_partition(bounds, groups.len(), entries.len() as int),
        forall|w: int|
            0 <= w < groups.len() ==> parts_fit(
                entries.subrange(bounds[w], bounds[w + 1]),
                #[trigger] groups[w],
            ) && crate::schwarz_precond::apply::are_local_solutions(
                ops,
                entries.subrange(bounds[w], bounds[w + 1]),
                allow_inner_parallelism,
                r,
                groups[w],
            ),
        0 <= k <= groups.len(),
    ensures
        parts_fit(entries.take(bounds[k]), crate::concat::concat_all(groups.take(k))),
        crate::schwarz_precond::apply::are_local_solutions(
            ops,
            entries.take(bounds[k]),
            allow_inner_parallelism,
            r,
            crate::concat::concat_all(groups.take(k)),
        ),
        contributions(
            entries.take(bounds[k]),
            crate::concat::concat_all(groups.take(k)),
            dof,
        ) == crate::concat::concat_all(group_pieces(entries, bounds, groups, dof).take(k)),
    decreases k,
{
    let pieces = group_pieces(entries, bounds, groups, dof);
    let parts = crate::concat::concat_all(groups.take(k));
    if k == 0 {
        assert(groups.take(0) =~= Seq::empty());
        assert(pieces.take(0) =~= Seq::empty());
        assert(entries.take(0) =~= Seq::empty());
        let lists = crate::schwarz_precond::apply::part_indices(entries.take(0), parts);
        assert(lists =~= Seq::empty());
        assert(contributions(entries.take(0), parts, dof) =~= Seq::empty());
    } else {
        lemma_groups_join(
            ops,
            entries,
            allow_inner_parallelism,
            r,
            bounds,
            groups,
            dof,
            k - 1,
        );
        let front = crate::concat::concat_all(groups.take(k - 1));
        let group = groups[k - 1];
        let here = entries.subrange(bounds[k - 1], bounds[k - 1 + 1]);
        let before = entries.take(bounds[k - 1]);
        assert(bounds[k - 1] <= bounds[k - 1 + 1]);
        assert(groups.take(k).drop_last() =~= groups.take(k - 1));
        assert(groups.take(k).last() == group);
        assert(parts == front + group);
        assert(entries.take(bounds[k]) =~= before + here);
        lemma_contributions_concat(before, front, here, group, dof);
        assert(pieces.take(k).drop_last() =~= pieces.take(k - 1));
        assert(pieces.take(k).last() == pieces[k - 1]);
        assert forall|d: int| 0 <= d < entries.take(bounds[k]).len()
            implies crate::schwarz_precond::local_solve::is_weighted_local_solution(
            ops,
            entries.take(bounds[k])[d],
            allow_inner_parallelism,
            r,
            #[trigger] parts[d],
        ) by {
            if d < before.len() {
                assert(crate::schwarz_precond::local_solve::is_weighted_local_solution(
                    ops,
                    before[d],
                    allow_inner_parallelism,
                    r,
                    front[d],
                ));
            } else {
                let j = d - before.len();
                assert(crate::schwarz_precond::local_solve::is_weighted_local_solution(
                    ops,
                    here[j],
                    allow_inner_parallelism,
                    r,
                    group[j],
                ));
            }
        }
    }
}

/// What each share contributes to `dof`.
spec fn group_pieces<T, S>(
    entries: Seq<SubdomainEntry<S>>,
    bounds: Seq<int>,
    groups: Seq<Seq<Seq<T>>>,
    dof: int,
) -> Seq<Seq<T>> {
    Seq::new(
        groups.len(),
        |w: int| contributions(entries.subrange(bounds[w], bounds[w + 1]), groups[w], dof),
    )
}

/// `z` sums the weighted local solutions of all subdomains.
pub open spec fn is_reduced_apply<T, A: Arithmetic<T>, S: LocalSolver<T>>(
    ops: A,
    entries: Seq<SubdomainEntry<S>>,
    allow_inner_parallelism: bool,
    r: Seq<T>,
    z: Seq<T>,
) -> bool {
    exists|parts: Seq<Seq<T>>| #[trigger]
        crate::schwarz_precond::apply::are_local_solutions(
            ops,
            entries,
            allow_inner_parallelism,
            r,
            parts,
        ) && parts_fit(entries, parts) && are_contribution_sums(ops, entries, parts, z)
}

/// Summing the workers' accumulators sums over all subdomains.
proof fn lemma_reduction_sums_all<T, A: Arithmetic<T>, S: LocalSolver<T>>(
    ops: A,
    entries: Seq<SubdomainEntry<S>>,
    allow_inner_parallelism: bool,
    r: Seq<T>,
    bounds: Seq<int>,
    groups: Seq<Seq<Seq<T>>>,
    buffers: Seq<AdditiveSweepBuffers<T>>,
    z: Seq<T>,
)
    requires
        is_partition(bounds, groups.len(), entries.len() as int),
        buffers.len() == groups.len(),
        forall|w: int|
            0 <= w < groups.len() ==> buffers[w].global_accum@.len() == z.len() && is_share_sum(
                ops,
                entries.subrange(bounds[w], bounds[w + 1]),
                allow_inner_parallelism,
                r,
                #[trigger] groups[w],
                buffers[w].global_accum@,
            ),
        crate::schwarz_precond::executor::is_reduced(ops, buffers, z),
    ensures
        is_reduced_apply(ops, entries, allow_inner_parallelism, r, z),
{
    let m = groups.len() as int;
    let parts = crate::concat::concat_all(groups);
    assert(groups.take(m) =~= groups);
    assert(entries.take(entries.len() as int) =~= entries);
    lemma_groups_join(ops, entries, allow_inner_parallelism, r, bounds, groups, 0, m);
    assert forall|dof: int| 0 <= dof < z.len() implies is_contribution_sum(
        ops,
        entries,
        parts,
        dof,
        #[trigger] z[dof],
    ) by {
        lemma_groups_join(ops, entries, allow_inner_parallelism, r, bounds, groups, dof, m);
        let pieces = group_pieces(entries, bounds, groups, dof);
        assert(pieces.take(m) =~= pieces);
        let column = crate::schwarz_precond::executor::column_of(buffers, dof);
        assert(crate::schwarz_precond::executor::is_column_sum(ops, buffers, dof, z[dof]));
        let zero = choose|zero: T| #[trigger]
            crate::arithmetic::zero_gives(ops, zero) && crate::arithmetic::sums_to(
                ops,
                zero,
                column,
                z[dof],
            );
        let partial = choose|partial: Seq<T>| #[trigger]
            crate::arithmetic::is_running_sum(ops, zero, column, partial) && partial.last()
                == z[dof];
        assert forall|w: int| 0 <= w < column.len() implies crate::arithmetic::is_sum_of(
            ops,
            pieces[w].to_multiset(),
            #[trigger] column[w],
        ) by {
            assert(is_share_sum(
                ops,
                entries.subrange(bounds[w], bounds[w + 1]),
                allow_inner_parallelism,
                r,
                groups[w],
                buffers[w].global_accum@,
            ));
            assert(is_contribution_sum(
                ops,
                entries.subrange(bounds[w], bounds[w + 1]),
                groups[w],
                dof,
                buffers[w].global_accum@[dof],
            ));
        }
        lemma_column_of_sums(ops, zero, column, pieces, partial, m);
    }
}

/// What a parallel reduction does: `z` sums over all subdomains, or it is zero
/// and the failing subdomain is named.
pub open spec fn reduction_outcome<T, A: Arithmetic<T>, S: LocalSolver<T>>(
    ops: A,
    entries: Seq<SubdomainEntry<S>>,
    allow_inner_parallelism: bool,
    r: Seq<T>,
    z: Seq<T>,
    result: Result<(), SolveError>,
) -> bool {
    match result {
        Ok(()) => is_reduced_apply(ops, entries, allow_inner_parallelism, r, z),
        Err(e) => is_local_failure(ops, entries, allow_inner_parallelism, r, e)
            && crate::kernels::is_zeros(ops, z.len(), z),
    }
}

/// Every buffer fits and is clean.
pub open spec fn are_clean_buffers<T>(
    pool: Seq<AdditiveSweepBuffers<T>>,
    n_dofs: nat,
    max_scratch_size: nat,
    zero: T,
) -> bool {
    forall|b: int|
        0 <= b < pool.len() ==> (#[trigger] pool[b]).fits(n_dofs, max_scratch_size)
            && pool[b].is_clean(zero)
}

/// Apply all subdomains by parallel reduction over worker buffers.
///
/// Each worker takes a buffer from `pool` or gets a fresh one; all come back clean.
pub fn apply_parallel_reduction<
    T: Copy + Send + Sync,
    A: Arithmetic<T> + Sync,
    S: LocalSolver<T> + Sync,
>(
    entries: &[SubdomainEntry<S>],
    max_scratch_size: usize,
    allow_inner_parallelism: bool,
    r: &[T],
    z: &mut [T],
    pool: Vec<AdditiveSweepBuffers<T>>,
    zero: T,
    ops: &A,
) -> (done: (Vec<AdditiveSweepBuffers<T>>, Result<(), SolveError>))
    requires
        forall|d: int| 0 <= d < entries@.len() ==> (#[trigger] entries@[d]).fits(r@.len()),
        old(z)@.len() == r@.len(),
        are_clean_buffers(pool@, r@.len(), max_scratch_size as nat, zero),
        crate::arithmetic::zero_gives(*ops, zero),
    ensures
        final(z)@.len() == old(z)@.len(),
        reduction_outcome(
            *ops,
            entries@,
            allow_inner_parallelism,
            r@,
            final(z)@,
            done.1,
        ),
        are_clean_buffers(done.0@, r@.len(), max_scratch_size as nat, zero),
        done.0@.len() >= pool@.len(),
        done.0@.len() >= 1,
{
    let n: usize = entries.len();
    let n_dofs: usize = r.len();
    let threads: usize = current_num_threads();
    let wanted: usize = if threads < n {
        threads
    } else {
        n
    };
    let workers: usize = if wanted < 1 {
        1
    } else {
        wanted
    };
    let mut shared = pool;
    let mut held: Vec<AdditiveSweepBuffers<T>> = Vec::with_capacity(workers);
    while held.len() < workers
        invariant
            held@.len() <= workers,
            are_clean_buffers(held@, n_dofs as nat, max_scratch_size as nat, zero),
            are_clean_buffers(shared@, n_dofs as nat, max_scratch_size as nat, zero),
            held@.len() + shared@.len() >= pool@.len(),
        decreases workers - held@.len(),
    {
        let ghost left = shared@;
        let buffers = take_or_alloc(&mut shared, n_dofs, max_scratch_size, zero);
        proof {
            if left.len() > 0 {
                assert(left[left.len() - 1].fits(n_dofs as nat, max_scratch_size as nat));
                assert forall|b: int| 0 <= b < shared@.len() implies (#[trigger] shared@[b]).fits(
                    n_dofs as nat,
                    max_scratch_size as nat,
                ) && shared@[b].is_clean(zero) by {
                    assert(left[b].fits(n_dofs as nat, max_scratch_size as nat));
                }
            }
        }
        held.push(buffers);
    }
    let ghost given = held@;
    let (shares, bounds): (Vec<Share<T>>, Ghost<Seq<int>>) = deal_shares(held, n);
    let ghost cuts = bounds@;
    let f = |share: Share<T>| -> (done: ShareDone<T>)
        requires
            is_ready(ops, entries, r, share),
        ensures
            share_outcome(ops, entries, allow_inner_parallelism, r, share, done),
        { run_share(entries, allow_inner_parallelism, r, share, ops) };
    proof {
        assert forall|w: int| 0 <= w < shares@.len() implies call_requires(
            f,
            (#[trigger] shares@[w],),
        ) by {
            assert(given[w].fits(n_dofs as nat, max_scratch_size as nat));
            assert(0 <= cuts[w] <= n && 0 <= cuts[w + 1] <= n);
            assert(cuts[w] <= cuts[w + 1]);
            let accum = shares@[w].buffers.global_accum@;
            assert forall|i: int| 0 <= i < accum.len() implies crate::arithmetic::zero_gives(
                *ops,
                #[trigger] accum[i],
            ) by {
                assert(given[w].global_accum@[i] == zero);
            }
            assert(is_ready(ops, entries, r, shares@[w]));
        }
    }
    let outcomes: Vec<ShareDone<T>> = par_map_items(shares, f);
    let mut buffers: Vec<AdditiveSweepBuffers<T>> = Vec::with_capacity(outcomes.len());
    let mut result: Result<(), SolveError> = Ok(());
    let ghost mut groups = Seq::<Seq<Seq<T>>>::empty();
    for done in iter: outcomes
        invariant
            iter.seq() == outcomes@,
            outcomes@.len() == shares@.len() == given.len(),
            n_dofs == r@.len(),
            are_shares(given, entries@.len(), cuts, shares@),
            are_clean_buffers(given, n_dofs as nat, max_scratch_size as nat, zero),
            forall|w: int|
                0 <= w < shares@.len() ==> share_outcome(
                    ops,
                    entries,
                    allow_inner_parallelism,
                    r,
                    shares@[w],
                    #[trigger] outcomes@[w],
                ),
            buffers@.len() == iter.index(),
            forall|w: int|
                0 <= w < buffers@.len() ==> (#[trigger] buffers@[w]).fits(
                    n_dofs as nat,
                    max_scratch_size as nat,
                ),
            match result {
                Ok(()) => {
                    &&& groups.len() == iter.index()
                    &&& forall|w: int|
                        0 <= w < groups.len() ==> is_share_sum(
                            *ops,
                            entries@.subrange(cuts[w], cuts[w + 1]),
                            allow_inner_parallelism,
                            r@,
                            #[trigger] groups[w],
                            buffers@[w].global_accum@,
                        )
                },
                Err(e) => is_local_failure(*ops, entries@, allow_inner_parallelism, r@, e),
            },
    {
        let ghost w = buffers@.len() as int;
        let ghost earlier = buffers@;
        let ghost groups_before = groups;
        proof {
            assert(share_outcome(
                ops,
                entries,
                allow_inner_parallelism,
                r,
                shares@[w],
                outcomes@[w],
            ));
            assert(given[w].fits(n_dofs as nat, max_scratch_size as nat));
            assert(shares@[w].buffers == given[w]);
        }
        let ShareDone { buffers: used, result: ended } = done;
        if result.is_ok() {
            proof {
                if ended is Ok {
                    let parts = choose|parts: Seq<Seq<T>>| #[trigger]
                        is_share_sum(
                            *ops,
                            entries@.subrange(shares@[w].lo as int, shares@[w].hi as int),
                            allow_inner_parallelism,
                            r@,
                            parts,
                            used.global_accum@,
                        );
                    groups = groups.push(parts);
                }
            }
            result = ended;
        }
        buffers.push(used);
        proof {
            if result is Ok {
                assert forall|v: int| 0 <= v < groups.len() implies is_share_sum(
                    *ops,
                    entries@.subrange(cuts[v], cuts[v + 1]),
                    allow_inner_parallelism,
                    r@,
                    #[trigger] groups[v],
                    buffers@[v].global_accum@,
                ) by {
                    if v < w {
                        assert(groups[v] == groups_before[v]);
                        assert(buffers@[v] == earlier[v]);
                    }
                }
            }
        }
    }
    let ghost accumulated = buffers@;
    proof {
        assert forall|b: int| 0 <= b < buffers@.len() implies (
        #[trigger] buffers@[b]).global_accum@.len() == z@.len() by {
            assert(buffers@[b].fits(n_dofs as nat, max_scratch_size as nat));
        }
    }
    let mut recovered: Vec<AdditiveSweepBuffers<T>> = finish_round(
        buffers,
        z,
        &result,
        zero,
        ops,
    );
    proof {
        if result is Ok {
            lemma_reduction_sums_all(
                *ops,
                entries@,
                allow_inner_parallelism,
                r@,
                cuts,
                groups,
                accumulated,
                z@,
            );
        }
        assert forall|b: int| 0 <= b < recovered@.len() implies (#[trigger] recovered@[b]).fits(
            n_dofs as nat,
            max_scratch_size as nat,
        ) && recovered@[b].is_clean(zero) by {
            assert(accumulated[b].fits(n_dofs as nat, max_scratch_size as nat));
        }
    }
    let ghost cleaned = recovered@;
    let ghost unused = shared@;
    recovered.append(&mut shared);
    proof {
        assert forall|b: int| 0 <= b < recovered@.len() implies (#[trigger] recovered@[b]).fits(
            n_dofs as nat,
            max_scratch_size as nat,
        ) && recovered@[b].is_clean(zero) by {
            if b < cleaned.len() {
                assert(recovered@[b] == cleaned[b]);
            } else {
                assert(recovered@[b] == unused[b - cleaned.len()]);
            }
        }
    }
    (recovered, result)
}

} // verus!
