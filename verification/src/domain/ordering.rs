//! Row orders: stable argsort and the map from caller order to internal order.

use std::borrow::Cow;

use vstd::prelude::*;

use crate::kernels::filled;

verus! {

/// `rows` is strictly ascending by `(key[row], row)`.
///
/// This is what a stable sort by `key` makes of an ascending list of rows.
pub open spec fn is_stably_ordered(key: Seq<u32>, rows: Seq<u32>) -> bool {
    forall|i: int, j: int|
        #![trigger rows[i], rows[j]]
        0 <= i < j < rows.len() ==> key[rows[i] as int] < key[rows[j] as int] || (
        key[rows[i] as int] == key[rows[j] as int] && rows[i] < rows[j])
}

/// `perm` is the stable argsort of `key`.
pub open spec fn is_stable_argsort(key: Seq<u32>, perm: Seq<u32>) -> bool {
    &&& perm.len() == key.len()
    &&& forall|k: int| 0 <= k < perm.len() ==> #[trigger] perm[k] < key.len()
    &&& is_stably_ordered(key, perm)
}

/// How often `level` occurs in `key`.
pub open spec fn occurrences(key: Seq<u32>, level: int) -> nat
    decreases key.len(),
{
    if key.len() == 0 {
        0
    } else {
        occurrences(key.drop_last(), level) + if key.last() == level {
            1nat
        } else {
            0nat
        }
    }
}

/// How many entries of `key` are below `level`: where `level`'s bucket starts.
pub open spec fn bucket_start(key: Seq<u32>, level: int) -> nat
    decreases level,
{
    if level <= 0 {
        0
    } else {
        bucket_start(key, level - 1) + occurrences(key, level - 1)
    }
}

proof fn lemma_bucket_start_push(key: Seq<u32>, level: int)
    requires
        key.len() > 0,
    ensures
        bucket_start(key, level) == bucket_start(key.drop_last(), level) + if key.last() < level {
            1nat
        } else {
            0nat
        },
    decreases level,
{
    if level > 0 {
        lemma_bucket_start_push(key, level - 1);
    }
}

/// The buckets of all levels together hold every entry.
proof fn lemma_buckets_cover(key: Seq<u32>, n_levels: int)
    requires
        n_levels >= 0,
        forall|i: int| 0 <= i < key.len() ==> #[trigger] key[i] < n_levels,
    ensures
        bucket_start(key, n_levels) == key.len(),
    decreases key.len(),
{
    if key.len() == 0 {
        lemma_empty_buckets(key, n_levels);
    } else {
        let front = key.drop_last();
        assert forall|i: int| 0 <= i < front.len() implies #[trigger] front[i] < n_levels by {
            assert(key[i] < n_levels);
        }
        lemma_buckets_cover(front, n_levels);
        lemma_bucket_start_push(key, n_levels);
        assert(key[key.len() - 1] < n_levels);
    }
}

proof fn lemma_empty_buckets(key: Seq<u32>, level: int)
    requires
        key.len() == 0,
    ensures
        bucket_start(key, level) == 0,
    decreases level,
{
    if level > 0 {
        lemma_empty_buckets(key, level - 1);
    }
}

proof fn lemma_bucket_start_monotone(key: Seq<u32>, a: int, b: int)
    requires
        0 <= a <= b,
    ensures
        bucket_start(key, a) <= bucket_start(key, b),
    decreases b - a,
{
    if a < b {
        lemma_bucket_start_monotone(key, a, b - 1);
    }
}

/// Counting one more entry can only add occurrences.
proof fn lemma_occurrences_monotone(key: Seq<u32>, i: int, level: int)
    requires
        0 <= i <= key.len(),
    ensures
        occurrences(key.take(i), level) <= occurrences(key, level),
    decreases key.len() - i,
{
    if i < key.len() {
        lemma_occurrences_monotone(key, i + 1, level);
        assert(key.take(i + 1).drop_last() =~= key.take(i));
    } else {
        assert(key.take(i) =~= key);
    }
}

/// Every position lies in some level's bucket.
proof fn lemma_position_bucket(key: Seq<u32>, n_levels: int, p: int) -> (level: int)
    requires
        0 <= p < bucket_start(key, n_levels),
        0 <= n_levels,
    ensures
        0 <= level < n_levels,
        bucket_start(key, level) <= p < bucket_start(key, level + 1),
    decreases n_levels,
{
    if p >= bucket_start(key, n_levels - 1) {
        n_levels - 1
    } else {
        lemma_position_bucket(key, n_levels - 1, p)
    }
}

/// Level of a row.
fn level_of(key: &[u32], row: u32) -> (level: u32)
    requires
        row < key@.len(),
    ensures
        level == key@[row as int],
{
    key[row as usize]
}

/// [`slice::sort_by_cached_key`], sorting rows by their level.
///
/// The sort is stable, so rows that come in ascending order leave ascending
/// by `(level, row)`; it only rearranges its input.
#[verifier::external_body]
fn sort_by_cached_level(rows: &mut Vec<u32>, key: &[u32])
    requires
        forall|k: int| 0 <= k < old(rows)@.len() ==> #[trigger] old(rows)@[k] < key@.len(),
        forall|i: int, j: int| 0 <= i < j < old(rows)@.len() ==> old(rows)@[i] < old(rows)@[j],
    ensures
        final(rows)@.to_multiset() == old(rows)@.to_multiset(),
        is_stably_ordered(key@, final(rows)@),
{
    rows.sort_by_cached_key(|&row| level_of(key, row));
}

/// Sort ascending rows by their level, ties by row.
pub fn sort_rows_by_level(rows: &mut Vec<u32>, key: &[u32])
    requires
        forall|k: int| 0 <= k < old(rows)@.len() ==> #[trigger] old(rows)@[k] < key@.len(),
        forall|i: int, j: int| 0 <= i < j < old(rows)@.len() ==> old(rows)@[i] < old(rows)@[j],
    ensures
        final(rows)@.len() == old(rows)@.len(),
        forall|row: u32| final(rows)@.contains(row) <==> old(rows)@.contains(row),
        is_stably_ordered(key@, final(rows)@),
{
    let ghost before = rows@;
    sort_by_cached_level(rows, key);
    proof {
        broadcast use vstd::seq_lib::group_to_multiset_ensures;

        assert(rows@.to_multiset().len() == before.to_multiset().len());
        assert forall|row: u32| rows@.contains(row) <==> before.contains(row) by {
            assert(rows@.to_multiset().count(row) == before.to_multiset().count(row));
        }
    }
}

/// Stable argsort of observations by a level column, ascending.
///
/// Dense counting sort in `O(n_obs + n_levels)` or sparse comparison sort - same
/// permutation either way. Gappy caller codes can span far more levels than
/// rows, where the bucket array would outgrow the output.
pub fn stable_argsort(key: &[u32], n_levels: usize) -> (perm: Vec<u32>)
    requires
        key@.len() <= u32::MAX,
        n_levels <= key@.len() ==> forall|i: int|
            0 <= i < key@.len() ==> #[trigger] key@[i] < n_levels,
    ensures
        is_stable_argsort(key@, perm@),
{
    let n_obs: usize = key.len();
    if n_obs < n_levels {
        let mut perm: Vec<u32> = Vec::with_capacity(n_obs);
        for row in 0..n_obs
            invariant
                n_obs <= u32::MAX,
                perm@.len() == row,
                forall|k: int| 0 <= k < row ==> perm@[k] == k,
        {
            perm.push(row as u32);
        }
        let ghost before = perm@;
        sort_rows_by_level(&mut perm, key);
        proof {
            assert forall|k: int| 0 <= k < perm@.len() implies #[trigger] perm@[k] < n_obs by {
                assert(perm@.contains(perm@[k]));
                assert(before.contains(perm@[k]));
            }
        }
        return perm;
    }
    let mut cursors: Vec<usize> = vec![0usize; n_levels];
    for i in 0..n_obs
        invariant
            n_obs == key@.len(),
            n_obs <= u32::MAX,
            n_levels == cursors@.len(),
            forall|i: int| 0 <= i < key@.len() ==> #[trigger] key@[i] < n_levels,
            forall|k: int|
                0 <= k < n_levels ==> #[trigger] cursors@[k] == occurrences(key@.take(i as int), k),
            forall|k: int| 0 <= k < n_levels ==> #[trigger] cursors@[k] <= i,
    {
        let level: usize = key[i] as usize;
        let count: usize = cursors[level];
        cursors.set(level, count + 1);
        proof {
            assert(key@.take(i + 1).drop_last() =~= key@.take(i as int));
        }
    }
    assert(key@.take(n_obs as int) =~= key@);
    proof {
        lemma_buckets_cover(key@, n_levels as int);
    }
    let mut start: usize = 0;
    for level in 0..n_levels
        invariant
            n_obs == key@.len(),
            n_levels == cursors@.len(),
            bucket_start(key@, n_levels as int) == n_obs,
            start == bucket_start(key@, level as int),
            forall|k: int|
                0 <= k < level ==> #[trigger] cursors@[k] == bucket_start(key@, k),
            forall|k: int|
                level <= k < n_levels ==> #[trigger] cursors@[k] == occurrences(key@, k),
    {
        proof {
            lemma_bucket_start_monotone(key@, level + 1, n_levels as int);
        }
        let count: usize = cursors[level];
        cursors.set(level, start);
        start = start + count;
    }
    let mut perm: Vec<u32> = vec![0u32; n_obs];
    for i in 0..n_obs
        invariant
            n_obs == key@.len() == perm@.len(),
            n_obs <= u32::MAX,
            n_levels == cursors@.len(),
            bucket_start(key@, n_levels as int) == n_obs,
            forall|i: int| 0 <= i < key@.len() ==> #[trigger] key@[i] < n_levels,
            forall|k: int|
                0 <= k < n_levels ==> #[trigger] cursors@[k] == bucket_start(key@, k) + occurrences(
                    key@.take(i as int),
                    k,
                ),
            forall|k: int, p: int|
                #![trigger cursors@[k], perm@[p]]
                0 <= k < n_levels && bucket_start(key@, k) <= p < cursors@[k] ==> perm@[p] < i
                    && key@[perm@[p] as int] == k,
            forall|k: int, p: int, r: int|
                #![trigger cursors@[k], perm@[p], perm@[r]]
                0 <= k < n_levels && bucket_start(key@, k) <= p < r < cursors@[k] ==> perm@[p]
                    < perm@[r],
    {
        let level: usize = key[i] as usize;
        let cursor: usize = cursors[level];
        proof {
            assert(key@.take(i + 1).drop_last() =~= key@.take(i as int));
            lemma_occurrences_monotone(key@, i + 1, level as int);
            assert(cursor < bucket_start(key@, level + 1));
            lemma_bucket_start_monotone(key@, level + 1, n_levels as int);
            assert forall|k: int| 0 <= k < n_levels && k != level implies !(bucket_start(key@, k)
                <= cursor < #[trigger] cursors@[k]) by {
                lemma_occurrences_monotone(key@, i as int, k);
                if k < level {
                    lemma_bucket_start_monotone(key@, k + 1, level as int);
                } else {
                    lemma_bucket_start_monotone(key@, level + 1, k);
                }
            }
        }
        let ghost cursors_before = cursors@;
        let ghost perm_before = perm@;
        perm.set(cursor, i as u32);
        cursors.set(level, cursor + 1);
        proof {
            assert forall|k: int, p: int|
                #![trigger cursors@[k], perm@[p]]
                0 <= k < n_levels && bucket_start(key@, k) <= p < cursors@[k] implies perm@[p] < i
                + 1 && key@[perm@[p] as int] == k by {
                assert(cursors_before[k] == bucket_start(key@, k) + occurrences(
                    key@.take(i as int),
                    k,
                ));
                lemma_occurrences_monotone(key@, i + 1, k);
                lemma_bucket_start_monotone(key@, k + 1, n_levels as int);
                if p != cursor {
                    assert(perm@[p] == perm_before[p]);
                }
            }
            assert forall|k: int, p: int, r: int|
                #![trigger cursors@[k], perm@[p], perm@[r]]
                0 <= k < n_levels && bucket_start(key@, k) <= p < r < cursors@[k] implies perm@[p]
                < perm@[r] by {
                assert(cursors_before[k] == bucket_start(key@, k) + occurrences(
                    key@.take(i as int),
                    k,
                ));
                lemma_occurrences_monotone(key@, i + 1, k);
                lemma_bucket_start_monotone(key@, k + 1, n_levels as int);
                if p != cursor {
                    assert(perm@[p] == perm_before[p]);
                }
                if r != cursor {
                    assert(perm@[r] == perm_before[r]);
                }
            }
        }
    }
    proof {
        assert forall|k: int| 0 <= k < n_levels implies #[trigger] cursors@[k] == bucket_start(
            key@,
            k + 1,
        ) by {
            assert(key@.take(n_obs as int) =~= key@);
        }
        assert forall|p: int| 0 <= p < n_obs implies #[trigger] perm@[p] < n_obs by {
            let k = lemma_position_bucket(key@, n_levels as int, p);
            assert(p < cursors@[k]);
        }
        assert forall|p: int, r: int|
            #![trigger perm@[p], perm@[r]]
            0 <= p < r < perm@.len() implies key@[perm@[p] as int] < key@[perm@[r] as int] || (
        key@[perm@[p] as int] == key@[perm@[r] as int] && perm@[p] < perm@[r]) by {
            let k = lemma_position_bucket(key@, n_levels as int, p);
            let l = lemma_position_bucket(key@, n_levels as int, r);
            assert(p < cursors@[k] && r < cursors@[l]);
            if l < k {
                lemma_bucket_start_monotone(key@, l + 1, k);
            }
        }
    }
    perm
}

/// Caller order to internal order: `out[k] = values[rows[k]]`.
///
/// Borrows when `rows` is `None`, which stands for the caller's order.
pub fn map_to_internal_order<'v, T: Clone>(
    rows: Option<&[u32]>,
    n_obs_input: usize,
    values: &'v [T],
) -> (out: Cow<'v, [T]>)
    requires
        values@.len() == n_obs_input,
        rows matches Some(rows) ==> forall|k: int|
            0 <= k < rows@.len() ==> #[trigger] rows@[k] < n_obs_input,
    ensures
        match rows {
            None => out matches Cow::Borrowed(slice) && slice == values,
            Some(rows) => out matches Cow::Owned(items) && items@.len() == rows@.len() && (forall|
                k: int,
            |
                0 <= k < rows@.len() ==> cloned(
                    values@[rows@[k] as int],
                    #[trigger] items@[k],
                )),
        },
{
    match rows {
        None => Cow::Borrowed(values),
        Some(rows) => {
            let mut items: Vec<T> = Vec::with_capacity(rows.len());
            for k in 0..rows.len()
                invariant
                    values@.len() == n_obs_input,
                    forall|k: int| 0 <= k < rows@.len() ==> #[trigger] rows@[k] < n_obs_input,
                    items@.len() == k,
                    forall|j: int|
                        0 <= j < k ==> cloned(values@[rows@[j] as int], #[trigger] items@[j]),
            {
                items.push(values[rows[k] as usize].clone());
            }
            Cow::Owned(items)
        },
    }
}

/// `out` holds `values[k]` at caller row `rows[k]` and `missing` at every other row.
pub open spec fn is_restored<T>(
    rows: Seq<u32>,
    n_obs_input: nat,
    values: Seq<T>,
    missing: T,
    out: Seq<T>,
) -> bool {
    &&& out.len() == n_obs_input
    &&& forall|k: int| 0 <= k < rows.len() ==> out[#[trigger] rows[k] as int] == values[k]
    &&& forall|row: int|
        0 <= row < n_obs_input && !rows.contains(row as u32) ==> #[trigger] out[row] == missing
}

/// Internal order to caller order.
///
/// Caller rows that `rows` does not list are filled with `missing`.
pub fn restore_caller_order<T: Copy>(
    rows: &[u32],
    n_obs_input: usize,
    values: &[T],
    missing: T,
) -> (out: Vec<T>)
    requires
        rows@.len() == values@.len(),
        rows@.no_duplicates(),
        n_obs_input <= u32::MAX + 1,
        forall|k: int| 0 <= k < rows@.len() ==> #[trigger] rows@[k] < n_obs_input,
    ensures
        is_restored(rows@, n_obs_input as nat, values@, missing, out@),
{
    let mut out: Vec<T> = filled(n_obs_input, missing);
    for k in 0..rows.len()
        invariant
            rows@.len() == values@.len(),
            rows@.no_duplicates(),
            n_obs_input <= u32::MAX + 1,
            out@.len() == n_obs_input,
            forall|k: int| 0 <= k < rows@.len() ==> #[trigger] rows@[k] < n_obs_input,
            forall|j: int| 0 <= j < k ==> out@[#[trigger] rows@[j] as int] == values@[j],
            forall|row: int|
                0 <= row < n_obs_input && !rows@.take(k as int).contains(row as u32)
                    ==> #[trigger] out@[row] == missing,
    {
        let ghost before = out@;
        out.set(rows[k] as usize, values[k]);
        proof {
            assert forall|row: int|
                0 <= row < n_obs_input && !rows@.take(k + 1).contains(
                    row as u32,
                ) implies #[trigger] out@[row] == missing by {
                let taken = rows@.take(k as int);
                assert(rows@.take(k + 1)[k as int] == rows@[k as int]);
                assert(row != rows@[k as int]);
                if taken.contains(row as u32) {
                    let j = choose|j: int| 0 <= j < taken.len() && taken[j] == row as u32;
                    assert(rows@.take(k + 1)[j] == row as u32);
                }
                assert(before[row] == missing);
            }
        }
    }
    assert(rows@.take(rows@.len() as int) =~= rows@);
    out
}

/// A stable argsort lists every row, and lists it once.
pub proof fn law_argsort_is_permutation(key: Seq<u32>, perm: Seq<u32>)
    requires
        is_stable_argsort(key, perm),
        key.len() <= u32::MAX,
    ensures
        perm.no_duplicates(),
        forall|row: u32| row < key.len() ==> perm.contains(row),
{
    assert forall|i: int, j: int| 0 <= i < perm.len() && 0 <= j < perm.len() && i != j implies perm[i]
        != perm[j] by {
        if i < j {
            assert(perm[i] != perm[j]);
        } else {
            assert(perm[j] != perm[i]);
        }
    }
    let rows = perm.map_values(|row: u32| row as int);
    assert(rows.no_duplicates());
    rows.unique_seq_to_set();
    let range = vstd::set_lib::set_int_range(0, key.len() as int);
    vstd::set_lib::lemma_int_range(0, key.len() as int);
    vstd::seq_lib::seq_to_set_is_finite(rows);
    assert forall|row: int| rows.to_set().contains(row) implies range.contains(row) by {
        let k = choose|k: int| 0 <= k < rows.len() && rows[k] == row;
        assert(perm[k] < key.len());
    }
    vstd::set_lib::lemma_subset_equality(rows.to_set(), range);
    assert forall|row: u32| row < key.len() implies perm.contains(row) by {
        assert(range.contains(row as int));
        assert(rows.contains(row as int));
        let k = choose|k: int| 0 <= k < rows.len() && rows[k] == row as int;
        assert(perm[k] == row);
    }
}

/// Two lists of the same rows that are both ordered by `(key, row)` are equal.
pub proof fn law_stable_order_is_unique(key: Seq<u32>, a: Seq<u32>, b: Seq<u32>)
    requires
        is_stably_ordered(key, a),
        is_stably_ordered(key, b),
        a.len() == b.len(),
        forall|row: u32| a.contains(row) <==> b.contains(row),
    ensures
        a == b,
{
    assert forall|i: int| 0 <= i < a.len() implies a[i] == b[i] by {
        lemma_same_prefix(key, a, b, i);
    }
    assert(a =~= b);
}

proof fn lemma_same_prefix(key: Seq<u32>, a: Seq<u32>, b: Seq<u32>, i: int)
    requires
        is_stably_ordered(key, a),
        is_stably_ordered(key, b),
        a.len() == b.len(),
        forall|row: u32| a.contains(row) <==> b.contains(row),
        0 <= i < a.len(),
    ensures
        forall|j: int| 0 <= j <= i ==> a[j] == b[j],
    decreases i,
{
    if i > 0 {
        lemma_same_prefix(key, a, b, i - 1);
    }
    assert(a.contains(a[i]) && b.contains(b[i]));
    let j = choose|j: int| 0 <= j < b.len() && b[j] == a[i];
    let l = choose|l: int| 0 <= l < a.len() && a[l] == b[i];
    if j < i {
        assert(a[j] == a[i]);
    }
    if l < i {
        assert(b[l] == b[i]);
    }
    if i < j && i < l {
        assert(a[i] != a[l]);
        assert(b[i] != b[j]);
    }
}

/// The stable argsort of a key is unique, whichever way it is computed.
pub proof fn law_argsort_is_unique(key: Seq<u32>, a: Seq<u32>, b: Seq<u32>)
    requires
        is_stable_argsort(key, a),
        is_stable_argsort(key, b),
        key.len() <= u32::MAX,
    ensures
        a == b,
{
    law_argsort_is_permutation(key, a);
    law_argsort_is_permutation(key, b);
    assert forall|row: u32| a.contains(row) <==> b.contains(row) by {
        if a.contains(row) {
            let k = choose|k: int| 0 <= k < a.len() && a[k] == row;
            assert(a[k] < key.len());
        }
        if b.contains(row) {
            let k = choose|k: int| 0 <= k < b.len() && b[k] == row;
            assert(b[k] < key.len());
        }
    }
    law_stable_order_is_unique(key, a, b);
}

/// Reading restored values back in internal order gives the values.
pub proof fn law_restore_then_select<T>(
    rows: Seq<u32>,
    n_obs_input: nat,
    values: Seq<T>,
    missing: T,
    out: Seq<T>,
)
    requires
        rows.len() == values.len(),
        is_restored(rows, n_obs_input, values, missing, out),
    ensures
        crate::observation::selected(out, rows) == values,
{
    assert(crate::observation::selected(out, rows) =~= values);
}

/// Restoring what was selected gives every listed row its own value back,
/// and every other row the filler.
pub proof fn law_select_then_restore<T>(
    rows: Seq<u32>,
    caller: Seq<T>,
    missing: T,
    out: Seq<T>,
)
    requires
        forall|k: int| 0 <= k < rows.len() ==> #[trigger] rows[k] < caller.len(),
        caller.len() <= u32::MAX + 1,
        is_restored(rows, caller.len(), crate::observation::selected(caller, rows), missing, out),
    ensures
        out.len() == caller.len(),
        forall|row: int|
            0 <= row < caller.len() ==> #[trigger] out[row] == if rows.contains(row as u32) {
                caller[row]
            } else {
                missing
            },
{
    assert forall|row: int| 0 <= row < caller.len() implies #[trigger] out[row]
        == if rows.contains(row as u32) {
        caller[row]
    } else {
        missing
    } by {
        if rows.contains(row as u32) {
            let k = choose|k: int| 0 <= k < rows.len() && rows[k] == row as u32;
            assert(out[rows[k] as int] == crate::observation::selected(caller, rows)[k]);
        }
    }
}

} // verus!
