//! Iterative removal of observations that are alone on a level.

use vstd::prelude::*;

use crate::error::BuildError;
use crate::observation::ObservationFrame;

verus! {

/// Within `keep`, no row is alone on its level in any column.
pub open spec fn is_singleton_free(columns: Seq<Seq<u32>>, keep: Set<int>) -> bool {
    forall|row: int, term: int|
        #![trigger keep.contains(row), columns[term]]
        keep.contains(row) && 0 <= term < columns.len() ==> has_companion(columns[term], keep, row)
}

/// Another row of `keep` shares `row`'s level.
pub open spec fn has_companion(column: Seq<u32>, keep: Set<int>, row: int) -> bool {
    exists|other: int|
        #[trigger] keep.contains(other) && other != row && column[other] == column[row]
}

/// All rows of a frame.
pub open spec fn all_rows(n_obs: nat) -> Set<int> {
    Set::new(|row: int| 0 <= row < n_obs)
}

/// `row` survives: some singleton-free set of rows holds it.
///
/// The union of singleton-free sets is singleton-free, so the surviving rows
/// are the largest set in which every retained level occurs at least twice.
pub open spec fn survives(columns: Seq<Seq<u32>>, n_obs: nat, row: int) -> bool {
    exists|keep: Set<int>|
        #[trigger] is_singleton_free(columns, keep) && keep.subset_of(all_rows(n_obs))
            && keep.contains(row)
}

/// The rows that survive.
pub open spec fn survivors(columns: Seq<Seq<u32>>, n_obs: nat) -> Set<int> {
    Set::new(|row: int| survives(columns, n_obs, row))
}

/// The surviving rows are singleton-free, and every singleton-free set of rows
/// is among them. So removing singletons once more removes nothing.
pub proof fn law_survivors_are_the_largest_singleton_free_set(
    columns: Seq<Seq<u32>>,
    n_obs: nat,
)
    ensures
        is_singleton_free(columns, survivors(columns, n_obs)),
        survivors(columns, n_obs).subset_of(all_rows(n_obs)),
        forall|keep: Set<int>| #[trigger]
            is_singleton_free(columns, keep) && keep.subset_of(all_rows(n_obs))
                ==> keep.subset_of(survivors(columns, n_obs)),
{
    let all = survivors(columns, n_obs);
    assert forall|row: int, term: int|
        #![trigger all.contains(row), columns[term]]
        all.contains(row) && 0 <= term < columns.len() implies has_companion(
        columns[term],
        all,
        row,
    ) by {
        let keep = choose|keep: Set<int>| #[trigger]
            is_singleton_free(columns, keep) && keep.subset_of(all_rows(n_obs)) && keep.contains(
                row,
            );
        assert(has_companion(columns[term], keep, row));
        let other = choose|other: int| #[trigger]
            keep.contains(other) && other != row && columns[term][other] == columns[term][row];
        assert(survives(columns, n_obs, other));
        assert(all.contains(other));
    }
}

/// The rows listed by `rows`.
pub open spec fn row_set(rows: Seq<u32>) -> Set<int> {
    Set::new(|row: int| exists|k: int| 0 <= k < rows.len() && #[trigger] rows[k] == row)
}

/// `rows` lists exactly the surviving rows, in ascending order.
pub open spec fn lists_survivors(columns: Seq<Seq<u32>>, n_obs: nat, rows: Seq<u32>) -> bool {
    &&& forall|i: int, j: int| 0 <= i < j < rows.len() ==> rows[i] < rows[j]
    &&& forall|row: int| #[trigger] row_set(rows).contains(row) <==> survives(columns, n_obs, row)
}

/// How many of `rows` have `level` in `column`.
pub open spec fn level_count(column: Seq<u32>, rows: Seq<u32>, level: int) -> nat
    decreases rows.len(),
{
    if rows.len() == 0 {
        0
    } else {
        level_count(column, rows.drop_last(), level) + if column[rows.last() as int] == level {
            1nat
        } else {
            0nat
        }
    }
}

/// How many entries of `counts` are one.
pub open spec fn ones(counts: Seq<u32>) -> nat
    decreases counts.len(),
{
    if counts.len() == 0 {
        0
    } else {
        ones(counts.drop_last()) + if counts.last() == 1 {
            1nat
        } else {
            0nat
        }
    }
}

proof fn lemma_ones_update(counts: Seq<u32>, i: int, v: u32)
    requires
        0 <= i < counts.len(),
    ensures
        ones(counts.update(i, v)) == ones(counts) - (if counts[i] == 1 {
            1int
        } else {
            0
        }) + (if v == 1 {
            1int
        } else {
            0
        }),
    decreases counts.len(),
{
    let updated = counts.update(i, v);
    if i == counts.len() - 1 {
        assert(updated.drop_last() =~= counts.drop_last());
    } else {
        lemma_ones_update(counts.drop_last(), i, v);
        assert(updated.drop_last() =~= counts.drop_last().update(i, v));
    }
}

proof fn lemma_ones_bound(counts: Seq<u32>, i: int)
    requires
        0 <= i < counts.len(),
        counts[i] == 1,
    ensures
        ones(counts) >= 1,
    decreases counts.len(),
{
    if i < counts.len() - 1 {
        lemma_ones_bound(counts.drop_last(), i);
    }
}

proof fn lemma_no_ones(counts: Seq<u32>)
    requires
        ones(counts) > 0,
    ensures
        exists|i: int| 0 <= i < counts.len() && counts[i] == 1,
    decreases counts.len(),
{
    if counts.last() == 1 {
        assert(counts[counts.len() - 1] == 1);
    } else {
        lemma_no_ones(counts.drop_last());
        let i = choose|i: int| 0 <= i < counts.len() - 1 && counts.drop_last()[i] == 1;
        assert(counts[i] == 1);
    }
}

proof fn lemma_ones_of_zeros(counts: Seq<u32>)
    requires
        forall|i: int| 0 <= i < counts.len() ==> counts[i] == 0,
    ensures
        ones(counts) == 0,
    decreases counts.len(),
{
    if counts.len() > 0 {
        lemma_ones_of_zeros(counts.drop_last());
    }
}

proof fn lemma_level_count_bound(column: Seq<u32>, rows: Seq<u32>, level: int)
    ensures
        level_count(column, rows, level) <= rows.len(),
    decreases rows.len(),
{
    if rows.len() > 0 {
        lemma_level_count_bound(column, rows.drop_last(), level);
    }
}

/// A listed row's level is counted.
proof fn lemma_counted(column: Seq<u32>, rows: Seq<u32>, i: int)
    requires
        0 <= i < rows.len(),
    ensures
        level_count(column, rows, column[rows[i] as int] as int) >= 1,
    decreases rows.len(),
{
    if i < rows.len() - 1 {
        lemma_counted(column, rows.drop_last(), i);
    }
}

/// Two listed rows on one level are counted twice.
proof fn lemma_counted_twice(column: Seq<u32>, rows: Seq<u32>, i: int, j: int)
    requires
        0 <= i < j < rows.len(),
        column[rows[i] as int] == column[rows[j] as int],
    ensures
        level_count(column, rows, column[rows[i] as int] as int) >= 2,
    decreases rows.len(),
{
    if j < rows.len() - 1 {
        lemma_counted_twice(column, rows.drop_last(), i, j);
    } else {
        lemma_counted(column, rows.drop_last(), i);
    }
}

/// A count of at least one is witnessed by a listed row.
proof fn lemma_count_witness(column: Seq<u32>, rows: Seq<u32>, level: int) -> (i: int)
    requires
        level_count(column, rows, level) >= 1,
    ensures
        0 <= i < rows.len(),
        column[rows[i] as int] == level,
    decreases rows.len(),
{
    if column[rows.last() as int] == level {
        rows.len() - 1
    } else {
        lemma_count_witness(column, rows.drop_last(), level)
    }
}

/// If a listed row's level is counted twice, another position shares it.
proof fn lemma_companion(column: Seq<u32>, rows: Seq<u32>, i: int) -> (j: int)
    requires
        0 <= i < rows.len(),
        level_count(column, rows, column[rows[i] as int] as int) != 1,
    ensures
        0 <= j < rows.len(),
        j != i,
        column[rows[j] as int] == column[rows[i] as int],
    decreases rows.len(),
{
    lemma_counted(column, rows, i);
    let level = column[rows[i] as int] as int;
    if i == rows.len() - 1 {
        lemma_count_witness(column, rows.drop_last(), level)
    } else if column[rows.last() as int] == level {
        rows.len() - 1
    } else {
        lemma_companion(column, rows.drop_last(), i)
    }
}

/// Every surviving row is listed.
spec fn holds_survivors(columns: Seq<Seq<u32>>, n_obs: nat, rows: Seq<u32>) -> bool {
    forall|row: int| survives(columns, n_obs, row) ==> #[trigger] row_set(rows).contains(row)
}

/// The first `n` of `retained` form an ascending list of rows that holds every survivor.
spec fn is_candidate(columns: Seq<Seq<u32>>, n_obs: nat, rows: Seq<u32>) -> bool {
    &&& forall|i: int, j: int| 0 <= i < j < rows.len() ==> rows[i] < rows[j]
    &&& forall|i: int| 0 <= i < rows.len() ==> #[trigger] rows[i] < n_obs
    &&& holds_survivors(columns, n_obs, rows)
}

/// No listed row is alone on its level in `column`.
spec fn no_singletons(column: Seq<u32>, rows: Seq<u32>) -> bool {
    forall|i: int|
        0 <= i < rows.len() ==> level_count(column, rows, column[#[trigger] rows[i] as int] as int)
            != 1
}

/// A row that is alone on its level among candidates does not survive.
proof fn lemma_singleton_dies(columns: Seq<Seq<u32>>, n_obs: nat, rows: Seq<u32>, term: int, i: int)
    requires
        is_candidate(columns, n_obs, rows),
        0 <= term < columns.len(),
        0 <= i < rows.len(),
        level_count(columns[term], rows, columns[term][rows[i] as int] as int) == 1,
    ensures
        !survives(columns, n_obs, rows[i] as int),
{
    let row = rows[i] as int;
    if survives(columns, n_obs, row) {
        let keep = choose|keep: Set<int>|
            #[trigger] is_singleton_free(columns, keep) && keep.subset_of(all_rows(n_obs))
                && keep.contains(row);
        assert(has_companion(columns[term], keep, row));
        let other = choose|other: int|
            #[trigger] keep.contains(other) && other != row && columns[term][other]
                == columns[term][row];
        assert(survives(columns, n_obs, other));
        assert(row_set(rows).contains(other));
        let j = choose|j: int| 0 <= j < rows.len() && #[trigger] rows[j] == other;
        if i < j {
            lemma_counted_twice(columns[term], rows, i, j);
        } else {
            lemma_counted_twice(columns[term], rows, j, i);
        }
    }
}

/// A candidate list without singletons lists exactly the survivors.
proof fn lemma_stable_is_core(columns: Seq<Seq<u32>>, n_obs: nat, rows: Seq<u32>)
    requires
        is_candidate(columns, n_obs, rows),
        forall|term: int| 0 <= term < columns.len() ==> no_singletons(#[trigger] columns[term], rows),
    ensures
        lists_survivors(columns, n_obs, rows),
{
    let keep = row_set(rows);
    assert forall|row: int, term: int|
        #![trigger keep.contains(row), columns[term]]
        keep.contains(row) && 0 <= term < columns.len() implies has_companion(
        columns[term],
        keep,
        row,
    ) by {
        let i = choose|i: int| 0 <= i < rows.len() && #[trigger] rows[i] == row;
        assert(no_singletons(columns[term], rows));
        let j = lemma_companion(columns[term], rows, i);
        assert(keep.contains(rows[j] as int));
    }
    assert(is_singleton_free(columns, keep));
    assert(keep.subset_of(all_rows(n_obs)));
    assert forall|row: int| #[trigger] row_set(rows).contains(row) implies survives(
        columns,
        n_obs,
        row,
    ) by {
        assert(keep.contains(row));
    }
}

/// Largest level code of the frame, or zero.
fn max_level(frame: &ObservationFrame<'_>) -> (max: u32)
    requires
        frame.wf(),
    ensures
        forall|term: int, row: int|
            0 <= term < frame.levels().len() && 0 <= row < frame.spec_n_obs() ==> (
            #[trigger] frame.levels()[term][row]) <= max,
        max == 0 || exists|term: int, row: int|
            0 <= term < frame.levels().len() && 0 <= row < frame.spec_n_obs()
                && #[trigger] frame.levels()[term][row] == max,
{
    let mut max: u32 = 0;
    let n_factors: usize = frame.n_factors();
    for term in 0..n_factors
        invariant
            frame.wf(),
            n_factors == frame.levels().len(),
            forall|t: int, row: int|
                0 <= t < term && 0 <= row < frame.spec_n_obs() ==> (
                #[trigger] frame.levels()[t][row]) <= max,
            max == 0 || exists|t: int, row: int|
                0 <= t < frame.levels().len() && 0 <= row < frame.spec_n_obs()
                    && #[trigger] frame.levels()[t][row] == max,
    {
        let column = frame.level_column(term);
        assert(column@.len() == frame.spec_n_obs());
        for row in 0..column.len()
            invariant
                term < frame.levels().len(),
                column@ == frame.levels()[term as int],
                column@.len() == frame.spec_n_obs(),
                forall|t: int, r: int|
                    0 <= t < term && 0 <= r < frame.spec_n_obs() ==> (
                    #[trigger] frame.levels()[t][r]) <= max,
                forall|r: int| 0 <= r < row ==> (#[trigger] frame.levels()[term as int][r]) <= max,
                max == 0 || exists|t: int, r: int|
                    0 <= t < frame.levels().len() && 0 <= r < frame.spec_n_obs()
                        && #[trigger] frame.levels()[t][r] == max,
        {
            if column[row] > max {
                max = column[row];
                assert(frame.levels()[term as int][row as int] == max);
            }
        }
    }
    max
}

/// Count, for each level, how many of the first `n` candidates have it.
///
/// Returns how many levels have exactly one.
fn count_levels(column: &[u32], retained: &Vec<u32>, n: usize, counts: &mut Vec<u32>) -> (singletons:
    u64)
    requires
        n <= retained@.len() <= u32::MAX,
        forall|i: int| 0 <= i < n ==> (#[trigger] retained@[i]) < column@.len(),
        forall|i: int| 0 <= i < column@.len() ==> #[trigger] column@[i] < old(counts)@.len(),
    ensures
        final(counts)@.len() == old(counts)@.len(),
        forall|level: int|
            0 <= level < final(counts)@.len() ==> #[trigger] final(counts)@[level] == level_count(
                column@,
                retained@.take(n as int),
                level,
            ),
        singletons == ones(final(counts)@),
{
    let n_levels: usize = counts.len();
    for level in 0..n_levels
        invariant
            n_levels == counts@.len(),
            counts@.len() == old(counts)@.len(),
            forall|l: int| 0 <= l < level ==> counts@[l] == 0,
    {
        counts.set(level, 0);
    }
    proof {
        lemma_ones_of_zeros(counts@);
    }
    let mut singletons: u64 = 0;
    for i in 0..n
        invariant
            n <= retained@.len() <= u32::MAX,
            forall|i: int| 0 <= i < n ==> (#[trigger] retained@[i]) < column@.len(),
            forall|i: int| 0 <= i < column@.len() ==> #[trigger] column@[i] < counts@.len(),
            counts@.len() == old(counts)@.len(),
            forall|level: int|
                0 <= level < counts@.len() ==> #[trigger] counts@[level] == level_count(
                    column@,
                    retained@.take(i as int),
                    level,
                ),
            singletons == ones(counts@),
            singletons <= i,
    {
        let level: usize = column[retained[i] as usize] as usize;
        let count: u32 = counts[level];
        proof {
            lemma_level_count_bound(column@, retained@.take(i as int), level as int);
            lemma_ones_update(counts@, level as int, (count + 1) as u32);
            if count == 1 {
                lemma_ones_bound(counts@, level as int);
            }
            assert(retained@.take(i + 1).drop_last() =~= retained@.take(i as int));
        }
        if count == 0 {
            singletons = singletons + 1;
        } else if count == 1 {
            singletons = singletons - 1;
        }
        counts.set(level, count + 1);
    }
    singletons
}

/// Drop candidates that are alone on their level in one column.
///
/// The first `n` entries of `retained` are the candidates; the survivors are
/// moved to the front and their number is returned.
fn drop_column_singletons(
    Ghost(columns): Ghost<Seq<Seq<u32>>>,
    Ghost(term): Ghost<int>,
    column: &[u32],
    retained: &mut Vec<u32>,
    n: usize,
    counts: &mut Vec<u32>,
) -> (kept: usize)
    requires
        0 <= term < columns.len(),
        columns[term] == column@,
        n <= old(retained)@.len() <= u32::MAX,
        is_candidate(columns, column@.len(), old(retained)@.take(n as int)),
        forall|i: int| 0 <= i < column@.len() ==> #[trigger] column@[i] < old(counts)@.len(),
    ensures
        kept <= n,
        final(retained)@.len() == old(retained)@.len(),
        final(counts)@.len() == old(counts)@.len(),
        is_candidate(columns, column@.len(), final(retained)@.take(kept as int)),
        kept == n ==> final(retained)@ == old(retained)@ && no_singletons(
            column@,
            final(retained)@.take(kept as int),
        ),
{
    let ghost n_obs = column@.len();
    let ghost before = retained@.take(n as int);
    proof {
        assert forall|i: int| 0 <= i < n implies (#[trigger] retained@[i]) < column@.len() by {
            assert(before[i] < n_obs);
        }
    }
    let singletons: u64 = count_levels(column, retained, n, counts);
    if singletons == 0 {
        proof {
            assert forall|i: int| 0 <= i < before.len() implies level_count(
                column@,
                before,
                column@[#[trigger] before[i] as int] as int,
            ) != 1 by {
                let level = column@[before[i] as int] as int;
                assert(before[i] < n_obs);
                assert(counts@[level] == level_count(column@, before, level));
                if counts@[level] == 1 {
                    lemma_ones_bound(counts@, level);
                }
            }
        }
        return n;
    }
    let mut write: usize = 0;
    for read in 0..n
        invariant
            write <= read,
            n == before.len(),
            n_obs == column@.len(),
            n <= retained@.len(),
            retained@.len() == old(retained)@.len(),
            is_candidate(columns, n_obs, before),
            forall|i: int| 0 <= i < n_obs ==> #[trigger] column@[i] < counts@.len(),
            forall|level: int|
                0 <= level < counts@.len() ==> #[trigger] counts@[level] == level_count(
                    column@,
                    before,
                    level,
                ),
            forall|k: int| read <= k < n ==> #[trigger] retained@[k] == before[k],
            forall|k: int|
                0 <= k < write ==> row_set(before.take(read as int)).contains(
                    #[trigger] retained@[k] as int,
                ),
            forall|i: int, j: int| 0 <= i < j < write ==> retained@[i] < retained@[j],
            forall|j: int|
                0 <= j < read && level_count(
                    column@,
                    before,
                    column@[#[trigger] before[j] as int] as int,
                ) != 1 ==> row_set(retained@.take(write as int)).contains(before[j] as int),
            write == read ==> forall|j: int|
                0 <= j < read ==> level_count(
                    column@,
                    before,
                    column@[#[trigger] before[j] as int] as int,
                ) != 1,
    {
        let row: u32 = retained[read];
        assert(row == before[read as int] && row < n_obs);
        let ghost seen = row_set(before.take(read as int));
        proof {
            assert forall|r: int| seen.contains(r) implies #[trigger] row_set(
                before.take(read + 1),
            ).contains(r) && r < row by {
                let k = choose|k: int|
                    0 <= k < before.take(read as int).len() && #[trigger] before.take(read as int)[k]
                        == r;
                assert(before.take(read + 1)[k] == r);
                assert(before[k] < before[read as int]);
            }
            assert(before.take(read + 1)[read as int] == row);
            assert(row_set(before.take(read + 1)).contains(row as int));
        }
        if counts[column[row as usize] as usize] != 1 {
            let ghost kept_before = retained@.take(write as int);
            retained.set(write, row);
            proof {
                let kept_after = retained@.take(write + 1);
                assert(kept_after =~= kept_before.push(row));
                assert(kept_after[write as int] == row);
                assert forall|r: int| row_set(kept_before).contains(r) implies #[trigger] row_set(
                    kept_after,
                ).contains(r) by {
                    let k = choose|k: int| 0 <= k < kept_before.len() && #[trigger] kept_before[k]
                        == r;
                    assert(kept_after[k] == r);
                }
            }
            write = write + 1;
        }
    }
    proof {
        assert(before.take(n as int) =~= before);
        let kept = retained@.take(write as int);
        assert forall|i: int| 0 <= i < kept.len() implies #[trigger] kept[i] < n_obs by {
            assert(row_set(before).contains(retained@[i] as int));
        }
        assert forall|row: int| survives(columns, n_obs, row) implies #[trigger] row_set(
            kept,
        ).contains(row) by {
            assert(row_set(before).contains(row));
            let j = choose|j: int| 0 <= j < before.len() && #[trigger] before[j] == row;
            if level_count(column@, before, column@[before[j] as int] as int) == 1 {
                lemma_singleton_dies(columns, n_obs, before, term, j);
            }
        }
        if write == n {
            lemma_no_ones(counts@);
            let level = choose|i: int| 0 <= i < counts@.len() && counts@[i] == 1;
            assert(counts@[level] == level_count(column@, before, level));
            let j = lemma_count_witness(column@, before, level);
            assert(column@[before[j] as int] == level);
        }
    }
    write
}

/// Return caller rows surviving iterative singleton removal.
///
/// `None` stands for every row. A frame without factors keeps every row.
pub fn retained_non_singletons(frame: &ObservationFrame<'_>) -> (result: Result<
    Option<Vec<u32>>,
    BuildError,
>)
    requires
        frame.wf(),
        forall|term: int, row: int|
            0 <= term < frame.levels().len() && 0 <= row < frame.spec_n_obs() ==> (
            #[trigger] frame.levels()[term][row]) < usize::MAX,
    ensures
        ({
            let columns = frame.levels();
            let n_obs = frame.spec_n_obs();
            let someone_dies = exists|row: int|
                0 <= row < n_obs && !#[trigger] survives(columns, n_obs, row);
            let someone_survives = exists|row: int|
                0 <= row < n_obs && #[trigger] survives(columns, n_obs, row);
            match result {
                Ok(None) => columns.len() == 0 || (n_obs <= u32::MAX && !someone_dies),
                Ok(Some(rows)) => {
                    &&& columns.len() > 0
                    &&& n_obs <= u32::MAX
                    &&& someone_dies
                    &&& someone_survives
                    &&& lists_survivors(columns, n_obs, rows@)
                },
                Err(BuildError::RowIndexSpaceExceedsU32 { n_obs: n }) => columns.len() > 0
                    && n_obs > u32::MAX && n == n_obs,
                Err(BuildError::EmptyObservations) => columns.len() > 0 && 0 < n_obs <= u32::MAX
                    && !someone_survives,
                Err(_) => false,
            }
        }),
{
    let ghost columns = frame.levels();
    let n_obs: usize = frame.n_obs();
    let n_factors: usize = frame.n_factors();
    if n_factors == 0 {
        return Ok(None);
    }
    if n_obs > u32::MAX as usize {
        return Err(BuildError::RowIndexSpaceExceedsU32 { n_obs });
    }
    let max_level: u32 = max_level(frame);
    let mut counts: Vec<u32> = vec![0u32; max_level as usize + 1];
    let mut retained: Vec<u32> = Vec::with_capacity(n_obs);
    for row in 0..n_obs
        invariant
            n_obs <= u32::MAX,
            retained@.len() == row,
            forall|k: int| 0 <= k < row ==> retained@[k] == k,
    {
        retained.push(row as u32);
    }
    let mut n_retained: usize = n_obs;
    proof {
        let all = retained@.take(n_obs as int);
        assert forall|row: int| survives(columns, n_obs as nat, row) implies #[trigger] row_set(
            all,
        ).contains(row) by {
            let keep = choose|keep: Set<int>|
                #[trigger] is_singleton_free(columns, keep) && keep.subset_of(
                    all_rows(n_obs as nat),
                ) && keep.contains(row);
            assert(all_rows(n_obs as nat).contains(row));
            assert(all[row] == row);
        }
    }
    let mut settled: bool = false;
    while !settled
        invariant
            columns == frame.levels(),
            n_obs == frame.spec_n_obs(),
            n_obs <= u32::MAX,
            n_factors == columns.len(),
            frame.wf(),
            n_retained <= n_obs,
            n_obs == retained@.len(),
            counts@.len() == max_level + 1,
            forall|term: int, row: int|
                0 <= term < frame.levels().len() && 0 <= row < frame.spec_n_obs() ==> (
                #[trigger] frame.levels()[term][row]) <= max_level,
            is_candidate(columns, n_obs as nat, retained@.take(n_retained as int)),
            settled ==> forall|term: int|
                0 <= term < columns.len() ==> no_singletons(
                    #[trigger] columns[term],
                    retained@.take(n_retained as int),
                ),
        decreases n_retained + (if settled {
            0int
        } else {
            1int
        }),
    {
        let previous: usize = n_retained;
        for term in 0..n_factors
            invariant
                columns == frame.levels(),
                n_obs == frame.spec_n_obs(),
                n_obs <= u32::MAX,
                n_factors == columns.len(),
                frame.wf(),
                n_retained <= previous <= n_obs,
                n_obs == retained@.len(),
                counts@.len() == max_level + 1,
                forall|term: int, row: int|
                    0 <= term < frame.levels().len() && 0 <= row < frame.spec_n_obs() ==> (
                    #[trigger] frame.levels()[term][row]) <= max_level,
                is_candidate(columns, n_obs as nat, retained@.take(n_retained as int)),
                n_retained == previous ==> forall|t: int|
                    0 <= t < term ==> no_singletons(
                        #[trigger] columns[t],
                        retained@.take(n_retained as int),
                    ),
        {
            let column = frame.level_column(term);
            assert(column@ == columns[term as int] && column@.len() == n_obs);
            proof {
                assert forall|i: int| 0 <= i < column@.len() implies #[trigger] column@[i]
                    < counts@.len() by {
                    assert(frame.levels()[term as int][i] <= max_level);
                }
            }
            n_retained = drop_column_singletons(
                Ghost(columns),
                Ghost(term as int),
                column,
                &mut retained,
                n_retained,
                &mut counts,
            );
        }
        settled = previous == n_retained;
    }
    proof {
        lemma_stable_is_core(columns, n_obs as nat, retained@.take(n_retained as int));
    }
    if n_retained == n_obs {
        proof {
            let kept = retained@.take(n_retained as int);
            lemma_full_list(kept, n_obs as nat);
            assert forall|row: int| 0 <= row < n_obs implies #[trigger] survives(
                columns,
                n_obs as nat,
                row,
            ) by {
                assert(row_set(kept).contains(row));
            }
        }
        return Ok(None);
    }
    if n_retained == 0 {
        proof {
            assert(retained@.take(0).len() == 0);
            assert forall|row: int| !#[trigger] survives(columns, n_obs as nat, row) by {
                assert(!row_set(retained@.take(0)).contains(row));
            }
        }
        return Err(BuildError::EmptyObservations);
    }
    proof {
        let kept = retained@.take(n_retained as int);
        lemma_short_list(kept, n_obs as nat);
        assert(row_set(kept).contains(kept[0] as int));
        assert(survives(columns, n_obs as nat, kept[0] as int));
    }
    retained.truncate(n_retained);
    Ok(Some(retained))
}

/// An ascending list of as many rows as there are lists every row.
proof fn lemma_full_list(rows: Seq<u32>, n_obs: nat)
    requires
        rows.len() == n_obs,
        forall|i: int, j: int| 0 <= i < j < rows.len() ==> rows[i] < rows[j],
        forall|i: int| 0 <= i < rows.len() ==> #[trigger] rows[i] < n_obs,
    ensures
        forall|row: int| 0 <= row < n_obs ==> #[trigger] row_set(rows).contains(row),
{
    lemma_ascending_lower(rows);
    lemma_ascending_upper(rows, n_obs);
    assert forall|row: int| 0 <= row < n_obs implies #[trigger] row_set(rows).contains(row) by {
        assert(rows[row] == row);
    }
}

/// The `i`-th entry of an ascending list is at least `i`.
proof fn lemma_ascending_lower(rows: Seq<u32>)
    requires
        forall|i: int, j: int| 0 <= i < j < rows.len() ==> rows[i] < rows[j],
    ensures
        forall|i: int| 0 <= i < rows.len() ==> #[trigger] rows[i] >= i,
    decreases rows.len(),
{
    if rows.len() > 0 {
        let front = rows.drop_last();
        lemma_ascending_lower(front);
        assert forall|i: int| 0 <= i < rows.len() implies #[trigger] rows[i] >= i by {
            if i < rows.len() - 1 {
                assert(front[i] >= i);
            } else if i > 0 {
                assert(front[i - 1] >= i - 1);
                assert(rows[i - 1] < rows[i]);
            }
        }
    }
}

/// The `i`-th entry of an ascending list below `n` leaves room for the entries after it.
proof fn lemma_ascending_upper(rows: Seq<u32>, n: nat)
    requires
        forall|i: int, j: int| 0 <= i < j < rows.len() ==> rows[i] < rows[j],
        forall|i: int| 0 <= i < rows.len() ==> #[trigger] rows[i] < n,
    ensures
        forall|i: int| 0 <= i < rows.len() ==> #[trigger] rows[i] <= n - rows.len() + i,
    decreases rows.len(),
{
    if rows.len() > 0 {
        let last = rows.last() as nat;
        let front = rows.drop_last();
        assert forall|i: int| 0 <= i < front.len() implies #[trigger] front[i] < last by {
            assert(rows[i] < rows[rows.len() - 1]);
        }
        assert(rows[rows.len() - 1] < n);
        lemma_ascending_upper(front, last);
        assert forall|i: int| 0 <= i < rows.len() implies #[trigger] rows[i] <= n - rows.len()
            + i by {
            if i < rows.len() - 1 {
                assert(front[i] <= last - front.len() + i);
            }
        }
    }
}

/// A shorter ascending list misses a row.
proof fn lemma_short_list(rows: Seq<u32>, n_obs: nat)
    requires
        rows.len() < n_obs,
        forall|i: int, j: int| 0 <= i < j < rows.len() ==> rows[i] < rows[j],
    ensures
        exists|row: int| 0 <= row < n_obs && !#[trigger] row_set(rows).contains(row),
    decreases n_obs,
{
    let top = n_obs - 1;
    if row_set(rows).contains(top) {
        let k = choose|k: int| 0 <= k < rows.len() && #[trigger] rows[k] == top;
        let front = rows.take(k);
        lemma_short_list(front, top as nat);
        let row = choose|row: int| 0 <= row < top && !#[trigger] row_set(front).contains(row);
        if row_set(rows).contains(row) {
            let i = choose|i: int| 0 <= i < rows.len() && #[trigger] rows[i] == row;
            if i >= k {
                assert(i == k || rows[k] < rows[i]);
            }
            assert(front[i] == row);
        }
    }
}

} // verus!
