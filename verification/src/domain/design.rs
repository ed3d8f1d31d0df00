//! Fixed-effects design: observation columns plus coefficient-space layout.

use std::borrow::Cow;

use vstd::prelude::*;

use crate::binary64::Binary64;
use crate::domain::columns::{Loading, NonEmpty, TermMeta};
use crate::domain::ordering::{sort_rows_by_level, stable_argsort};
use crate::domain::singletons::retained_non_singletons;
use crate::error::BuildError;
use crate::observation::{as_slice, ObservationFrame};

verus! {

// ---------------------------------------------------------------------------
// What a design is
// ---------------------------------------------------------------------------

/// Largest level code of a column, or zero.
pub open spec fn max_code(column: Seq<u32>) -> nat
    decreases column.len(),
{
    if column.len() == 0 {
        0
    } else {
        let front = max_code(column.drop_last());
        if column.last() > front {
            column.last() as nat
        } else {
            front
        }
    }
}

/// Non-decreasing.
pub open spec fn is_non_decreasing(column: Seq<u32>) -> bool {
    forall|i: int, j: int| 0 <= i < j < column.len() ==> column[i] <= column[j]
}

/// The coefficient columns of each term.
pub open spec fn structure_of(columns: Seq<NonEmpty<Loading<u32>>>) -> Seq<Seq<Loading<u32>>> {
    Seq::new(columns.len(), |t: int| columns[t]@)
}

/// Number of coefficients of term `t`: one per column and level.
pub open spec fn dofs_of(levels: Seq<Seq<u32>>, structure: Seq<Seq<Loading<u32>>>, t: int) -> nat {
    structure[t].len() * (max_code(levels[t]) + 1)
}

/// Number of coefficients of the terms before `t`.
pub open spec fn dofs_before(
    levels: Seq<Seq<u32>>,
    structure: Seq<Seq<Loading<u32>>>,
    t: int,
) -> nat
    decreases t,
{
    if t <= 0 {
        0
    } else {
        dofs_before(levels, structure, t - 1) + dofs_of(levels, structure, t - 1)
    }
}

/// Number of coefficients of all terms.
pub open spec fn total_dofs(levels: Seq<Seq<u32>>, structure: Seq<Seq<Loading<u32>>>) -> nat {
    dofs_before(levels, structure, levels.len() as int)
}

/// `d` is the term with the most coefficients, the last one among equals.
pub open spec fn is_dominant(
    levels: Seq<Seq<u32>>,
    structure: Seq<Seq<Loading<u32>>>,
    d: int,
) -> bool {
    &&& 0 <= d < levels.len()
    &&& forall|q: int|
        0 <= q < levels.len() ==> #[trigger] dofs_of(levels, structure, q) <= dofs_of(
            levels,
            structure,
            d,
        )
    &&& forall|q: int|
        d < q < levels.len() ==> #[trigger] dofs_of(levels, structure, q) < dofs_of(
            levels,
            structure,
            d,
        )
}

/// Configuration applied while constructing a [`Design`].
///
/// Options operate on the observation data before the design's internal row
/// order is finalized. The convenience constructors on [`Design`] use
/// [`DesignOptions::default`].
#[derive(Clone, Debug, PartialEq)]
pub struct DesignOptions<'a> {
    /// Whether observations alone on a level are removed.
    pub drop_singletons: bool,
    /// Whether rows are sorted by the dominant term's levels.
    pub locality_sort: bool,
    /// Observation weights in caller row order.
    pub weights: Option<Cow<'a, [Binary64]>>,
}

/// The elements of an optional column.
pub open spec fn optional_elements<'a>(weights: Option<Cow<'a, [Binary64]>>) -> Option<
    Seq<Binary64>,
> {
    match weights {
        None => None,
        Some(w) => Some(crate::observation::elements(w)),
    }
}

/// Rows are put into the order of the dominant term's levels.
pub open spec fn sorts(
    levels: Seq<Seq<u32>>,
    structure: Seq<Seq<Loading<u32>>>,
    n_obs: nat,
    options: DesignOptions<'_>,
) -> bool {
    &&& options.locality_sort
    &&& n_obs <= u32::MAX
    &&& exists|d: int|
        #[trigger] is_dominant(levels, structure, d) && !is_non_decreasing(levels[d])
}

/// Caller row `row` is part of the design.
pub open spec fn is_retained(
    levels: Seq<Seq<u32>>,
    n_obs: nat,
    drop_singletons: bool,
    row: int,
) -> bool {
    &&& 0 <= row < n_obs
    &&& drop_singletons && levels.len() > 0 ==> crate::domain::singletons::survives(
        levels,
        n_obs,
        row,
    )
}

/// The view of an optional row list.
pub open spec fn optional_rows(rows: Option<Vec<u32>>) -> Option<Seq<u32>> {
    match rows {
        None => None,
        Some(rows) => Some(rows@),
    }
}

/// Some caller row is not part of the design.
pub open spec fn drops_rows(levels: Seq<Seq<u32>>, n_obs: nat, options: DesignOptions<'_>) -> bool {
    exists|row: int|
        0 <= row < n_obs && !#[trigger] is_retained(levels, n_obs, options.drop_singletons, row)
}

/// `rows` lists exactly the retained rows: in the order of `(level, row)` of the
/// dominant term if rows are sorted, ascending otherwise.
pub open spec fn is_row_list(
    levels: Seq<Seq<u32>>,
    structure: Seq<Seq<Loading<u32>>>,
    n_obs: nat,
    options: DesignOptions<'_>,
    rows: Seq<u32>,
) -> bool {
    &&& forall|row: int|
        #[trigger] crate::domain::singletons::row_set(rows).contains(row) <==> is_retained(
            levels,
            n_obs,
            options.drop_singletons,
            row,
        )
    &&& if sorts(levels, structure, n_obs, options) {
        is_ordered_by_dominant(levels, structure, rows)
    } else {
        is_ascending(rows)
    }
}

/// Strictly ascending.
pub open spec fn is_ascending(rows: Seq<u32>) -> bool {
    forall|i: int, j: int| 0 <= i < j < rows.len() ==> rows[i] < rows[j]
}

/// Ordered by `(level, row)` of the dominant term.
pub open spec fn is_ordered_by_dominant(
    levels: Seq<Seq<u32>>,
    structure: Seq<Seq<Loading<u32>>>,
    rows: Seq<u32>,
) -> bool {
    forall|d: int| #[trigger]
        is_dominant(levels, structure, d) ==> crate::domain::ordering::is_stably_ordered(
            levels[d],
            rows,
        )
}

/// `rows` maps internal positions to caller rows; `None` is the identity,
/// used exactly when no row is dropped or moved.
pub open spec fn is_row_map(
    levels: Seq<Seq<u32>>,
    structure: Seq<Seq<Loading<u32>>>,
    n_obs: nat,
    options: DesignOptions<'_>,
    rows: Option<Seq<u32>>,
) -> bool {
    &&& rows is Some <==> sorts(levels, structure, n_obs, options) || drops_rows(
        levels,
        n_obs,
        options,
    )
    &&& rows matches Some(rows) ==> is_row_list(levels, structure, n_obs, options, rows)
}

/// Caller row `row` is represented in the design.
pub open spec fn is_listed(rows: Option<Seq<u32>>, n_obs_input: nat, row: int) -> bool {
    &&& 0 <= row < n_obs_input
    &&& rows matches Some(rows) ==> crate::domain::singletons::row_set(rows).contains(row)
}

/// What validating `weights` against a row map answers.
///
/// A wrong count is reported first; otherwise the smallest caller row in the
/// design whose weight is negative, infinite or not a number is.
pub open spec fn weights_outcome(
    rows: Option<Seq<u32>>,
    n_obs_input: nat,
    weights: Option<Seq<Binary64>>,
    result: Result<(), BuildError>,
) -> bool {
    match weights {
        None => result is Ok,
        Some(w) => if w.len() != n_obs_input {
            result matches Err(BuildError::WeightCountMismatch { expected, got }) && expected
                == n_obs_input && got == w.len()
        } else {
            match result {
                Ok(()) => forall|row: int|
                    #[trigger] is_listed(rows, n_obs_input, row)
                        ==> w[row].spec_is_finite_non_negative(),
                Err(BuildError::InvalidWeight { index, value }) => {
                    &&& is_listed(rows, n_obs_input, index as int)
                    &&& value == w[index as int]
                    &&& !value.spec_is_finite_non_negative()
                    &&& forall|row: int|
                        #[trigger] is_listed(rows, n_obs_input, row) && row < index
                            ==> w[row].spec_is_finite_non_negative()
                },
                Err(_) => false,
            }
        },
    }
}

/// Fixed-effects design: observation columns plus coefficient-space layout.
#[derive(Clone, Debug)]
pub struct Design<'a> {
    /// Columns in internal row order (the caller's, or an owned rearranged copy).
    pub frame: ObservationFrame<'a>,
    /// One entry per categorical column.
    pub terms: Vec<TermMeta>,
    /// Number of observations provided by the caller.
    pub n_obs_input: usize,
    /// Number of retained observations.
    pub n_obs: usize,
    /// Number of coefficients.
    pub n_dofs: usize,
    /// `rows[k]` is the caller's row at internal position `k`.
    ///
    /// This single map composes row selection with locality sorting. `None` is
    /// the identity map and preserves zero-copy observation input.
    pub rows: Option<Vec<u32>>,
    /// Construction configuration in caller order.
    pub options: DesignOptions<'a>,
}

/// Number of coefficients of the terms before `t`.
pub open spec fn offset_before(terms: Seq<TermMeta>, t: int) -> nat
    decreases t,
{
    if t <= 0 {
        0
    } else {
        offset_before(terms, t - 1) + terms[t - 1].spec_n_dofs()
    }
}

/// The terms' coefficients lie one after another and fill `n_dofs`.
pub open spec fn is_layout(terms: Seq<TermMeta>, n_dofs: nat) -> bool {
    &&& forall|t: int|
        0 <= t < terms.len() ==> (#[trigger] terms[t]).offset == offset_before(terms, t)
    &&& forall|t: int| 0 <= t < terms.len() ==> (#[trigger] terms[t]).n_levels > 0
    &&& forall|t: int| 0 <= t < terms.len() ==> (#[trigger] terms[t]).columns@.len() > 0
    &&& n_dofs == offset_before(terms, terms.len() as int)
    &&& n_dofs <= u32::MAX
}

impl<'a> Design<'a> {
    /// The parts of the design fit together.
    pub open spec fn wf(self) -> bool {
        let levels = self.frame.levels();
        &&& self.frame.wf()
        &&& self.frame.spec_n_obs() == self.n_obs
        &&& self.n_obs > 0
        &&& self.terms@.len() == levels.len()
        &&& is_layout(self.terms@, self.n_dofs as nat)
        &&& forall|t: int, i: int|
            #![trigger levels[t][i]]
            0 <= t < levels.len() && 0 <= i < self.n_obs ==> levels[t][i] < self.terms@[t].n_levels
        &&& forall|t: int|
            0 <= t < levels.len() ==> (#[trigger] self.terms@[t]).sorted == is_non_decreasing(
                levels[t],
            )
        &&& match self.rows {
            None => self.n_obs == self.n_obs_input,
            Some(rows) => {
                &&& rows@.len() == self.n_obs
                &&& rows@.no_duplicates()
                &&& self.n_obs_input <= u32::MAX
                &&& forall|k: int| 0 <= k < rows@.len() ==> #[trigger] rows@[k] < self.n_obs_input
            },
        }
    }

    /// Validate that an optional weight slice matches this design's observation count.
    ///
    /// Each weight of a retained row must be finite and non-negative; weights of
    /// removed rows are not looked at.
    pub fn validate_weights(&self, weights: Option<&[Binary64]>) -> (result: Result<(), BuildError>)
        requires
            self.wf(),
        ensures
            weights_outcome(
                optional_rows(self.rows),
                self.n_obs_input as nat,
                match weights {
                    None => None,
                    Some(w) => Some(w@),
                },
                result,
            ),
    {
        let w: &[Binary64] = match weights {
            None => {
                return Ok(());
            },
            Some(w) => w,
        };
        if w.len() != self.n_obs_input {
            return Err(
                BuildError::WeightCountMismatch { expected: self.n_obs_input, got: w.len() },
            );
        }
        let ghost listed_rows = optional_rows(self.rows);
        let ghost n_input = self.n_obs_input as nat;
        match &self.rows {
            None => {
                for row in 0..w.len()
                    invariant
                        w@.len() == n_input == self.n_obs_input,
                        weights == Some(w),
                        listed_rows == optional_rows(self.rows),
                        listed_rows is None,
                        forall|r: int|
                            0 <= r < row ==> (#[trigger] w@[r]).spec_is_finite_non_negative(),
                {
                    let value: Binary64 = w[row];
                    if !value.is_finite_non_negative() {
                        assert(is_listed(listed_rows, n_input, row as int));
                        return Err(BuildError::InvalidWeight { index: row, value });
                    }
                }
                Ok(())
            },
            Some(rows) => {
                let mut first: Option<u32> = None;
                for k in 0..rows.len()
                    invariant
                        w@.len() == n_input == self.n_obs_input,
                        listed_rows == Some(rows@),
                        forall|k: int| 0 <= k < rows@.len() ==> #[trigger] rows@[k] < n_input,
                        match first {
                            None => forall|j: int|
                                0 <= j < k
                                    ==> w@[#[trigger] rows@[j] as int].spec_is_finite_non_negative(),
                            Some(f) => {
                                &&& f < n_input
                                &&& crate::domain::singletons::row_set(rows@).contains(f as int)
                                &&& !w@[f as int].spec_is_finite_non_negative()
                                &&& forall|j: int|
                                    0 <= j < k && #[trigger] rows@[j] < f
                                        ==> w@[rows@[j] as int].spec_is_finite_non_negative()
                            },
                        },
                {
                    let row: u32 = rows[k];
                    if !w[row as usize].is_finite_non_negative() {
                        assert(rows@[k as int] == row);
                        first = match first {
                            None => Some(row),
                            Some(f) => if row < f {
                                Some(row)
                            } else {
                                Some(f)
                            },
                        };
                    }
                }
                match first {
                    None => {
                        proof {
                            assert forall|row: int| #[trigger]
                                is_listed(
                                    listed_rows,
                                    n_input,
                                    row,
                                ) implies w@[row].spec_is_finite_non_negative() by {
                                let k = choose|k: int|
                                    0 <= k < rows@.len() && #[trigger] rows@[k] == row;
                                assert(w@[rows@[k] as int].spec_is_finite_non_negative());
                            }
                        }
                        Ok(())
                    },
                    Some(f) => {
                        proof {
                            assert forall|row: int| #[trigger]
                                is_listed(listed_rows, n_input, row) && row
                                    < f implies w@[row].spec_is_finite_non_negative() by {
                                let k = choose|k: int|
                                    0 <= k < rows@.len() && #[trigger] rows@[k] == row;
                                assert(rows@[k] < f);
                            }
                            assert(is_listed(listed_rows, n_input, f as int));
                        }
                        Err(BuildError::InvalidWeight { index: f as usize, value: w[f as usize] })
                    },
                }
            },
        }
    }
}

// ---------------------------------------------------------------------------
// Construction
// ---------------------------------------------------------------------------

/// The columns of a design: the caller's, rearranged by the row map.
pub open spec fn rearranged<T>(columns: Seq<Seq<T>>, rows: Option<Seq<u32>>) -> Seq<Seq<T>> {
    match rows {
        None => columns,
        Some(rows) => columns.map_values(
            |column: Seq<T>| crate::observation::selected(column, rows),
        ),
    }
}

/// `design` is what the columns, the coefficient structure and the options ask for.
pub open spec fn is_design_of(
    levels: Seq<Seq<u32>>,
    loadings: Seq<Seq<Binary64>>,
    n_obs: nat,
    structure: Seq<Seq<Loading<u32>>>,
    options: DesignOptions<'_>,
    design: Design<'_>,
) -> bool {
    let rows = optional_rows(design.rows);
    &&& design.wf()
    &&& design.options == options
    &&& design.n_obs_input == n_obs
    &&& is_row_map(levels, structure, n_obs, options, rows)
    &&& design.frame.levels() == rearranged(levels, rows)
    &&& design.frame.loadings() == rearranged(loadings, rows)
    &&& design.n_dofs == total_dofs(levels, structure)
    &&& forall|t: int|
        0 <= t < levels.len() ==> {
            &&& (#[trigger] design.terms@[t]).columns@ == structure[t]
            &&& design.terms@[t].n_levels == max_code(levels[t]) + 1
            &&& design.terms@[t].offset == dofs_before(levels, structure, t)
        }
}

/// What building a design answers.
///
/// The checks run in this order: there are observations; coefficients can be
/// numbered by `u32`; with singleton removal, rows can be numbered by `u32` and
/// some row survives; the weights of the retained rows are valid.
pub open spec fn build_outcome(
    levels: Seq<Seq<u32>>,
    loadings: Seq<Seq<Binary64>>,
    n_obs: nat,
    structure: Seq<Seq<Loading<u32>>>,
    options: DesignOptions<'_>,
    result: Result<Design<'_>, BuildError>,
) -> bool {
    let total = total_dofs(levels, structure);
    let drops = options.drop_singletons && levels.len() > 0;
    if n_obs == 0 {
        result matches Err(BuildError::EmptyObservations)
    } else if total > u32::MAX {
        result matches Err(BuildError::DofSpaceExceedsU32 { n_dofs }) && n_dofs == if total
            > usize::MAX {
            usize::MAX as nat
        } else {
            total
        }
    } else if drops && n_obs > u32::MAX {
        result matches Err(BuildError::RowIndexSpaceExceedsU32 { n_obs: n }) && n == n_obs
    } else if drops && (forall|row: int|
        !#[trigger] crate::domain::singletons::survives(levels, n_obs, row)) {
        result matches Err(BuildError::EmptyObservations)
    } else {
        exists|rows: Option<Seq<u32>>|
            {
                &&& #[trigger] is_row_map(levels, structure, n_obs, options, rows)
                &&& weights_outcome(
                    rows,
                    n_obs,
                    optional_elements(options.weights),
                    match result {
                        Ok(_) => Ok(()),
                        Err(e) => Err(e),
                    },
                )
                &&& result matches Ok(design) ==> is_design_of(
                    levels,
                    loadings,
                    n_obs,
                    structure,
                    options,
                    design,
                )
            }
    }
}

pub proof fn lemma_max_code(column: Seq<u32>, i: int)
    requires
        0 <= i < column.len(),
    ensures
        column[i] <= max_code(column),
        max_code(column) <= u32::MAX,
    decreases column.len(),
{
    if i < column.len() - 1 {
        lemma_max_code(column.drop_last(), i);
    } else if column.len() > 1 {
        lemma_max_code(column.drop_last(), 0);
    }
}

proof fn lemma_dofs_before_monotone(
    levels: Seq<Seq<u32>>,
    structure: Seq<Seq<Loading<u32>>>,
    a: int,
    b: int,
)
    requires
        0 <= a <= b,
    ensures
        dofs_before(levels, structure, a) <= dofs_before(levels, structure, b),
    decreases b - a,
{
    if a < b {
        lemma_dofs_before_monotone(levels, structure, a, b - 1);
    }
}

/// Largest level code of a column.
fn column_max(column: &[u32]) -> (max: u32)
    ensures
        max == max_code(column@),
{
    let mut max: u32 = 0;
    for i in 0..column.len()
        invariant
            max == max_code(column@.take(i as int)),
    {
        proof {
            assert(column@.take(i + 1).drop_last() =~= column@.take(i as int));
        }
        if column[i] > max {
            max = column[i];
        }
    }
    assert(column@.take(column@.len() as int) =~= column@);
    max
}

/// Whether a column is non-decreasing.
fn column_is_sorted(column: &[u32]) -> (sorted: bool)
    ensures
        sorted == is_non_decreasing(column@),
{
    let mut i: usize = 1;
    while i < column.len()
        invariant
            1 <= i,
            forall|a: int, b: int| 0 <= a < b < i && b < column@.len() ==> column@[a] <= column@[b],
        decreases column@.len() - i,
    {
        if column[i - 1] > column[i] {
            assert(!(column@[i - 1] <= column@[i as int]));
            return false;
        }
        proof {
            assert forall|a: int, b: int| 0 <= a < b < i + 1 && b < column@.len() implies column@[a]
                <= column@[b] by {
                if b == i && a < i - 1 {
                    assert(column@[a] <= column@[i - 1]);
                }
            }
        }
        i = i + 1;
    }
    true
}

/// Total number of coefficients, cut off at `u64::MAX`.
fn saturated_total_dofs(
    frame: &ObservationFrame<'_>,
    columns: &Vec<NonEmpty<Loading<u32>>>,
    maxima: &Vec<u32>,
) -> (total: u64)
    requires
        frame.levels().len() == columns@.len() == maxima@.len(),
        forall|t: int|
            0 <= t < maxima@.len() ==> #[trigger] maxima@[t] == max_code(frame.levels()[t]),
    ensures
        ({
            let exact = total_dofs(frame.levels(), structure_of(columns@));
            total == if exact > u64::MAX {
                u64::MAX as nat
            } else {
                exact
            }
        }),
{
    let ghost levels = frame.levels();
    let ghost structure = structure_of(columns@);
    let mut total: u64 = 0;
    for t in 0..columns.len()
        invariant
            levels == frame.levels(),
            structure == structure_of(columns@),
            levels.len() == columns@.len() == maxima@.len(),
            forall|t: int|
                0 <= t < maxima@.len() ==> #[trigger] maxima@[t] == max_code(levels[t]),
            total == if dofs_before(levels, structure, t as int) > u64::MAX {
                u64::MAX as nat
            } else {
                dofs_before(levels, structure, t as int)
            },
    {
        let width: u64 = columns[t].len() as u64;
        let n_levels: u64 = maxima[t] as u64 + 1;
        assert(width * n_levels == dofs_of(levels, structure, t as int));
        let dofs: u64 = match width.checked_mul(n_levels) {
            Some(dofs) => dofs,
            None => u64::MAX,
        };
        total = total.saturating_add(dofs);
    }
    total
}

/// There is at most one dominant term.
pub proof fn law_dominant_is_unique(
    levels: Seq<Seq<u32>>,
    structure: Seq<Seq<Loading<u32>>>,
    a: int,
    b: int,
)
    requires
        is_dominant(levels, structure, a),
        is_dominant(levels, structure, b),
    ensures
        a == b,
{
    assert(dofs_of(levels, structure, a) == dofs_of(levels, structure, b));
}

/// The term with the most coefficients, the last one among equals.
fn dominant_term(
    terms: &Vec<TermMeta>,
    Ghost(levels): Ghost<Seq<Seq<u32>>>,
    Ghost(structure): Ghost<Seq<Seq<Loading<u32>>>>,
) -> (dominant: Option<usize>)
    requires
        terms@.len() == levels.len(),
        forall|t: int|
            0 <= t < terms@.len() ==> {
                &&& (#[trigger] terms@[t]).spec_n_dofs() == dofs_of(levels, structure, t)
                &&& terms@[t].spec_n_dofs() <= u32::MAX
            },
    ensures
        match dominant {
            None => levels.len() == 0,
            Some(d) => is_dominant(levels, structure, d as int),
        },
{
    if terms.len() == 0 {
        return None;
    }
    let mut d: usize = 0;
    let mut most: usize = terms[0].n_dofs();
    for t in 1..terms.len()
        invariant
            terms@.len() == levels.len(),
            terms@.len() > 0,
            d < t,
            d < terms@.len(),
            most == dofs_of(levels, structure, d as int),
            forall|t: int|
                0 <= t < terms@.len() ==> {
                    &&& (#[trigger] terms@[t]).spec_n_dofs() == dofs_of(levels, structure, t)
                    &&& terms@[t].spec_n_dofs() <= u32::MAX
                },
            forall|q: int| 0 <= q < t ==> #[trigger] dofs_of(levels, structure, q) <= most,
            forall|q: int| d < q < t ==> #[trigger] dofs_of(levels, structure, q) < most,
    {
        let dofs: usize = terms[t].n_dofs();
        if dofs >= most {
            d = t;
            most = dofs;
        }
    }
    Some(d)
}

proof fn lemma_survivors_in_range(levels: Seq<Seq<u32>>, n_obs: nat)
    ensures
        forall|row: int|
            #[trigger] crate::domain::singletons::survives(levels, n_obs, row) ==> 0 <= row < n_obs,
{
    assert forall|row: int| #[trigger]
        crate::domain::singletons::survives(levels, n_obs, row) implies 0 <= row < n_obs by {
        let keep = choose|keep: Set<int>|
            #[trigger] crate::domain::singletons::is_singleton_free(levels, keep) && keep.subset_of(
                crate::domain::singletons::all_rows(n_obs),
            ) && keep.contains(row);
        assert(crate::domain::singletons::all_rows(n_obs).contains(row));
    }
}

/// Lists with the same members have the same row set.
proof fn lemma_same_row_set(a: Seq<u32>, b: Seq<u32>)
    requires
        forall|row: u32| a.contains(row) <==> b.contains(row),
    ensures
        crate::domain::singletons::row_set(a) == crate::domain::singletons::row_set(b),
{
    let in_a = crate::domain::singletons::row_set(a);
    let in_b = crate::domain::singletons::row_set(b);
    assert forall|row: int| in_a.contains(row) <==> in_b.contains(row) by {
        if in_a.contains(row) {
            let k = choose|k: int| 0 <= k < a.len() && #[trigger] a[k] == row;
            assert(a.contains(a[k]));
            assert(b.contains(a[k]));
            let j = choose|j: int| 0 <= j < b.len() && b[j] == a[k];
            assert(b[j] == row);
        }
        if in_b.contains(row) {
            let k = choose|k: int| 0 <= k < b.len() && #[trigger] b[k] == row;
            assert(b.contains(b[k]));
            assert(a.contains(b[k]));
            let j = choose|j: int| 0 <= j < a.len() && a[j] == b[k];
            assert(a[j] == row);
        }
    }
    assert(in_a =~= in_b);
}

/// A list of every row has the full row set.
proof fn lemma_full_row_set(perm: Seq<u32>, n_obs: nat)
    requires
        n_obs <= u32::MAX,
        forall|row: u32| row < n_obs ==> perm.contains(row),
        forall|k: int| 0 <= k < perm.len() ==> #[trigger] perm[k] < n_obs,
    ensures
        forall|row: int|
            #[trigger] crate::domain::singletons::row_set(perm).contains(row) <==> 0 <= row < n_obs,
{
    assert forall|row: int| 0 <= row < n_obs implies #[trigger] crate::domain::singletons::row_set(
        perm,
    ).contains(row) by {
        assert(perm.contains(row as u32));
        let k = choose|k: int| 0 <= k < perm.len() && perm[k] == row as u32;
        assert(perm[k] == row);
    }
}

/// A row map lists rows of the input, none of them twice.
proof fn lemma_row_map_is_injective(
    levels: Seq<Seq<u32>>,
    structure: Seq<Seq<Loading<u32>>>,
    n_obs: nat,
    options: DesignOptions<'_>,
    rows: Seq<u32>,
)
    requires
        is_row_list(levels, structure, n_obs, options, rows),
    ensures
        rows.no_duplicates(),
        forall|k: int| 0 <= k < rows.len() ==> #[trigger] rows[k] < n_obs,
{
    assert forall|k: int| 0 <= k < rows.len() implies #[trigger] rows[k] < n_obs by {
        assert(crate::domain::singletons::row_set(rows).contains(rows[k] as int));
    }
    if sorts(levels, structure, n_obs, options) {
        let d = choose|d: int|
            #[trigger] is_dominant(levels, structure, d) && !is_non_decreasing(levels[d]);
        assert(crate::domain::ordering::is_stably_ordered(levels[d], rows));
    }
    assert forall|i: int, j: int| 0 <= i < rows.len() && 0 <= j < rows.len() && i != j implies rows[i]
        != rows[j] by {
        if i < j {
            assert(rows[i] != rows[j]);
        } else {
            assert(rows[j] != rows[i]);
        }
    }
}

/// `rows` lists the retained rows in ascending order; `None` stands for all rows.
spec fn is_retained_list(
    levels: Seq<Seq<u32>>,
    n_obs: nat,
    options: DesignOptions<'_>,
    rows: Option<Seq<u32>>,
) -> bool {
    &&& rows is Some <==> drops_rows(levels, n_obs, options)
    &&& rows matches Some(rows) ==> {
        &&& is_ascending(rows)
        &&& forall|row: int|
            #[trigger] crate::domain::singletons::row_set(rows).contains(row) <==> is_retained(
                levels,
                n_obs,
                options.drop_singletons,
                row,
            )
        &&& forall|k: int| 0 <= k < rows.len() ==> #[trigger] rows[k] < n_obs
        &&& rows.len() > 0
        &&& n_obs <= u32::MAX
    }
}

/// Select the retained rows.
fn select_rows(frame: &ObservationFrame<'_>, options: &DesignOptions<'_>) -> (result: Result<
    Option<Vec<u32>>,
    BuildError,
>)
    requires
        frame.wf(),
        frame.spec_n_obs() > 0,
        forall|term: int, row: int|
            0 <= term < frame.levels().len() && 0 <= row < frame.spec_n_obs() ==> (
            #[trigger] frame.levels()[term][row]) < usize::MAX,
    ensures
        ({
            let levels = frame.levels();
            let n_obs = frame.spec_n_obs();
            let drops = options.drop_singletons && levels.len() > 0;
            if drops && n_obs > u32::MAX {
                result matches Err(BuildError::RowIndexSpaceExceedsU32 { n_obs: n }) && n == n_obs
            } else if drops && (forall|row: int|
                !#[trigger] crate::domain::singletons::survives(levels, n_obs, row)) {
                result matches Err(BuildError::EmptyObservations)
            } else {
                result matches Ok(rows) && is_retained_list(
                    levels,
                    n_obs,
                    *options,
                    optional_rows(rows),
                )
            }
        }),
{
    let ghost levels = frame.levels();
    let ghost n_obs = frame.spec_n_obs();
    proof {
        lemma_survivors_in_range(levels, n_obs);
    }
    if !options.drop_singletons {
        assert(is_retained_list(levels, n_obs, *options, None));
        return Ok(None);
    }
    match retained_non_singletons(frame) {
        Err(e) => Err(e),
        Ok(None) => {
            proof {
                if levels.len() > 0 {
                    assert(crate::domain::singletons::survives(levels, n_obs, 0));
                }
                assert(!drops_rows(levels, n_obs, *options));
            }
            Ok(None)
        },
        Ok(Some(rows)) => {
            proof {
                let row = choose|row: int|
                    0 <= row < n_obs && !#[trigger] crate::domain::singletons::survives(
                        levels,
                        n_obs,
                        row,
                    );
                assert(!is_retained(levels, n_obs, options.drop_singletons, row));
                assert forall|k: int| 0 <= k < rows@.len() implies #[trigger] rows@[k] < n_obs by {
                    assert(crate::domain::singletons::row_set(rows@).contains(rows@[k] as int));
                }
                let kept = choose|row: int|
                    0 <= row < n_obs && #[trigger] crate::domain::singletons::survives(
                        levels,
                        n_obs,
                        row,
                    );
                assert(crate::domain::singletons::row_set(rows@).contains(kept));
                assert(is_retained_list(levels, n_obs, *options, Some(rows@)));
            }
            Ok(Some(rows))
        },
    }
}

/// Put the retained rows in order.
fn order_rows(
    frame: &ObservationFrame<'_>,
    terms: &Vec<TermMeta>,
    options: &DesignOptions<'_>,
    retained: Option<Vec<u32>>,
    Ghost(structure): Ghost<Seq<Seq<Loading<u32>>>>,
) -> (rows: Option<Vec<u32>>)
    requires
        frame.wf(),
        frame.spec_n_obs() > 0,
        terms@.len() == frame.levels().len(),
        forall|t: int|
            0 <= t < terms@.len() ==> is_term_of(
                frame.levels(),
                structure,
                t,
                #[trigger] terms@[t],
            ),
        is_retained_list(
            frame.levels(),
            frame.spec_n_obs(),
            *options,
            optional_rows(retained),
        ),
    ensures
        is_row_map(
            frame.levels(),
            structure,
            frame.spec_n_obs(),
            *options,
            optional_rows(rows),
        ),
        rows matches Some(rows) ==> {
            &&& rows@.len() > 0
            &&& rows@.no_duplicates()
            &&& frame.spec_n_obs() <= u32::MAX
            &&& forall|k: int| 0 <= k < rows@.len() ==> #[trigger] rows@[k] < frame.spec_n_obs()
        },
{
    let ghost levels = frame.levels();
    let n_obs: usize = frame.n_obs();
    let dominant: Option<usize> = dominant_term(terms, Ghost(levels), Ghost(structure));
    let d: usize = match dominant {
        None => {
            proof {
                assert(!sorts(levels, structure, n_obs as nat, *options));
                if let Some(rows) = optional_rows(retained) {
                    lemma_row_map_is_injective(levels, structure, n_obs as nat, *options, rows);
                }
            }
            return retained;
        },
        Some(d) => d,
    };
    let key = frame.level_column(d);
    proof {
        assert forall|e: int| #[trigger] is_dominant(levels, structure, e) implies e == d by {
            law_dominant_is_unique(levels, structure, e, d as int);
        }
        assert(key@.len() == n_obs);
    }
    let should_sort: bool = options.locality_sort && n_obs <= u32::MAX as usize
        && !column_is_sorted(key);
    assert(should_sort == sorts(levels, structure, n_obs as nat, *options));
    if !should_sort {
        proof {
            if let Some(rows) = optional_rows(retained) {
                lemma_row_map_is_injective(levels, structure, n_obs as nat, *options, rows);
            }
        }
        return retained;
    }
    let rows: Vec<u32> = match retained {
        Some(mut rows) => {
            let ghost before = rows@;
            sort_rows_by_level(&mut rows, key);
            proof {
                lemma_same_row_set(before, rows@);
            }
            rows
        },
        None => {
            proof {
                assert forall|i: int| 0 <= i < key@.len() implies #[trigger] key@[i]
                    < terms@[d as int].n_levels by {
                    lemma_max_code(key@, i);
                }
            }
            let perm: Vec<u32> = stable_argsort(key, terms[d].n_levels);
            proof {
                crate::domain::ordering::law_argsort_is_permutation(key@, perm@);
                lemma_full_row_set(perm@, n_obs as nat);
                assert forall|row: int|
                    #[trigger] crate::domain::singletons::row_set(perm@).contains(row)
                        <==> is_retained(
                        levels,
                        n_obs as nat,
                        options.drop_singletons,
                        row,
                    ) by {
                    if 0 <= row < n_obs {
                        assert(is_retained(levels, n_obs as nat, options.drop_singletons, row));
                    }
                }
            }
            perm
        },
    };
    proof {
        assert(is_row_list(levels, structure, n_obs as nat, *options, rows@));
        lemma_row_map_is_injective(levels, structure, n_obs as nat, *options, rows@);
    }
    Some(rows)
}

impl<'a> Design<'a> {
    /// `column_structure[term]` is that term's coefficient columns, aligned with the frame.
    pub fn build(
        frame: ObservationFrame<'a>,
        column_structure: Vec<NonEmpty<Loading<u32>>>,
        options: DesignOptions<'a>,
    ) -> (result: Result<Design<'a>, BuildError>)
        requires
            frame.wf(),
            column_structure@.len() == frame.levels().len(),
        ensures
            build_outcome(
                frame.levels(),
                frame.loadings(),
                frame.spec_n_obs(),
                structure_of(column_structure@),
                options,
                result,
            ),
    {
        let ghost levels = frame.levels();
        let ghost loadings = frame.loadings();
        let ghost structure = structure_of(column_structure@);
        let n_obs_input: usize = frame.n_obs();
        if n_obs_input == 0 {
            return Err(BuildError::EmptyObservations);
        }
        let n_terms: usize = frame.n_factors();
        let mut maxima: Vec<u32> = Vec::with_capacity(n_terms);
        for t in 0..n_terms
            invariant
                n_terms == levels.len(),
                levels == frame.levels(),
                maxima@.len() == t,
                forall|s: int| 0 <= s < t ==> #[trigger] maxima@[s] == max_code(levels[s]),
        {
            maxima.push(column_max(frame.level_column(t)));
        }

        let total: u64 = saturated_total_dofs(&frame, &column_structure, &maxima);
        if total > u32::MAX as u64 {
            let n_dofs: usize = if total > usize::MAX as u64 {
                usize::MAX
            } else {
                total as usize
            };
            return Err(BuildError::DofSpaceExceedsU32 { n_dofs });
        }
        let n_dofs: usize = total as usize;

        let terms = layout_terms(column_structure, &maxima, Ghost(levels));
        proof {
            assert forall|term: int, row: int|
                0 <= term < levels.len() && 0 <= row < n_obs_input implies (
            #[trigger] levels[term][row]) < usize::MAX by {
                lemma_max_code(levels[term], row);
                assert(is_term_of(levels, structure, term, terms@[term]));
            }
        }
        let retained: Option<Vec<u32>> = match select_rows(&frame, &options) {
            Ok(rows) => rows,
            Err(e) => {
                return Err(e);
            },
        };
        let rows: Option<Vec<u32>> = order_rows(
            &frame,
            &terms,
            &options,
            retained,
            Ghost(structure),
        );
        let design = assemble(frame, terms, rows, n_dofs, options, Ghost(structure));
        let weights: Option<&[Binary64]> = match &design.options.weights {
            None => None,
            Some(w) => Some(as_slice(w)),
        };
        match design.validate_weights(weights) {
            Ok(()) => Ok(design),
            Err(e) => Err(e),
        }
    }
}

/// Lay out the terms one after another.
fn layout_terms(
    column_structure: Vec<NonEmpty<Loading<u32>>>,
    maxima: &Vec<u32>,
    Ghost(levels): Ghost<Seq<Seq<u32>>>,
) -> (terms: Vec<TermMeta>)
    requires
        levels.len() == maxima@.len() == column_structure@.len(),
        forall|s: int| 0 <= s < maxima@.len() ==> #[trigger] maxima@[s] == max_code(levels[s]),
        total_dofs(levels, structure_of(column_structure@)) <= u32::MAX,
    ensures
        terms@.len() == levels.len(),
        forall|t: int|
            0 <= t < terms@.len() ==> is_term_of(
                levels,
                structure_of(column_structure@),
                t,
                #[trigger] terms@[t],
            ),
{
    let ghost structure = structure_of(column_structure@);
    let ghost n_terms = levels.len();
    let mut terms: Vec<TermMeta> = Vec::with_capacity(maxima.len());
    let mut offset: usize = 0;
    for columns in iter: column_structure
        invariant
            n_terms == levels.len() == maxima@.len() == structure.len(),
            iter.seq() == column_structure@,
            structure == structure_of(column_structure@),
            forall|s: int| 0 <= s < n_terms ==> #[trigger] maxima@[s] == max_code(levels[s]),
            total_dofs(levels, structure) <= u32::MAX,
            terms@.len() == iter.index(),
            offset == dofs_before(levels, structure, iter.index()),
            forall|t: int|
                0 <= t < terms@.len() ==> is_term_of(levels, structure, t, #[trigger] terms@[t]),
    {
        let t: usize = terms.len();
        let width: usize = columns.len();
        proof {
            assert(columns == column_structure@[t as int]);
            assert(structure[t as int] == columns@);
            lemma_dofs_before_monotone(levels, structure, t + 1, n_terms as int);
            let n = max_code(levels[t as int]) + 1;
            assert(width * n >= n) by (nonlinear_arith)
                requires
                    width >= 1,
                    n >= 0,
            ;
            assert(dofs_of(levels, structure, t as int) == width * n);
        }
        let n_levels: usize = maxima[t] as usize + 1;
        let meta = TermMeta { n_levels, offset, sorted: false, columns };
        offset = offset + width * n_levels;
        terms.push(meta);
    }
    terms
}

/// `term` is the layout of term `t`, but for its `sorted` flag.
pub open spec fn is_term_of(
    levels: Seq<Seq<u32>>,
    structure: Seq<Seq<Loading<u32>>>,
    t: int,
    term: TermMeta,
) -> bool {
    &&& term.columns@ == structure[t]
    &&& term.columns@.len() > 0
    &&& term.n_levels == max_code(levels[t]) + 1
    &&& term.n_levels <= u32::MAX
    &&& term.offset == dofs_before(levels, structure, t)
    &&& term.spec_n_dofs() == dofs_of(levels, structure, t)
    &&& term.spec_n_dofs() <= u32::MAX
}

/// Rearrange the columns and record what the row map did to them.
fn assemble<'a>(
    frame: ObservationFrame<'a>,
    terms: Vec<TermMeta>,
    rows: Option<Vec<u32>>,
    n_dofs: usize,
    options: DesignOptions<'a>,
    Ghost(structure): Ghost<Seq<Seq<Loading<u32>>>>,
) -> (design: Design<'a>)
    requires
        frame.wf(),
        frame.spec_n_obs() > 0,
        terms@.len() == frame.levels().len(),
        forall|t: int|
            0 <= t < terms@.len() ==> is_term_of(
                frame.levels(),
                structure,
                t,
                #[trigger] terms@[t],
            ),
        n_dofs == total_dofs(frame.levels(), structure),
        n_dofs <= u32::MAX,
        is_row_map(
            frame.levels(),
            structure,
            frame.spec_n_obs(),
            options,
            optional_rows(rows),
        ),
        rows matches Some(rows) ==> {
            &&& rows@.len() > 0
            &&& rows@.no_duplicates()
            &&& frame.spec_n_obs() <= u32::MAX
            &&& forall|k: int| 0 <= k < rows@.len() ==> #[trigger] rows@[k] < frame.spec_n_obs()
        },
    ensures
        is_design_of(
            frame.levels(),
            frame.loadings(),
            frame.spec_n_obs(),
            structure,
            options,
            design,
        ),
        design.rows == rows,
        design.options == options,
{
    let ghost levels = frame.levels();
    let ghost loadings = frame.loadings();
    let n_obs_input: usize = frame.n_obs();
    let ghost n_terms = terms@.len();
    let ghost row_map = optional_rows(rows);

    let n_obs: usize = match &rows {
        None => n_obs_input,
        Some(rows) => rows.len(),
    };
    let frame = match &rows {
        None => frame,
        Some(rows) => frame.permuted(rows.as_slice()),
    };

    // Filtering and locality sorting can change whether any factor is
    // non-decreasing in internal row order.
    let terms = rescan_sorted(&frame, terms);

    let design = Design { frame, terms, n_obs_input, n_obs, n_dofs, rows, options };
    proof {
        lemma_offsets(levels, structure, design.terms@, n_terms as int);
        assert forall|t: int, i: int|
            #![trigger design.frame.levels()[t][i]]
            0 <= t < levels.len() && 0 <= i < n_obs implies design.frame.levels()[t][i]
            < design.terms@[t].n_levels by {
            match row_map {
                None => {
                    lemma_max_code(levels[t], i);
                },
                Some(rows) => {
                    lemma_max_code(levels[t], rows[i] as int);
                },
            }
        }
        assert(design.wf());
        assert(is_design_of(
            levels,
            loadings,
            n_obs_input as nat,
            structure,
            options,
            design,
        ));
    }
    design
}

/// Offsets counted over the terms agree with offsets counted over the columns.
proof fn lemma_offsets(
    levels: Seq<Seq<u32>>,
    structure: Seq<Seq<Loading<u32>>>,
    terms: Seq<TermMeta>,
    t: int,
)
    requires
        0 <= t <= terms.len(),
        terms.len() == levels.len(),
        forall|s: int|
            0 <= s < terms.len() ==> (#[trigger] terms[s]).spec_n_dofs() == dofs_of(
                levels,
                structure,
                s,
            ),
    ensures
        forall|s: int|
            0 <= s <= t ==> #[trigger] offset_before(terms, s) == dofs_before(levels, structure, s),
    decreases t,
{
    if t > 0 {
        lemma_offsets(levels, structure, terms, t - 1);
        assert(offset_before(terms, t - 1) == dofs_before(levels, structure, t - 1));
        assert(terms[t - 1].spec_n_dofs() == dofs_of(levels, structure, t - 1));
    }
}

/// Record for each term whether its column is non-decreasing.
fn rescan_sorted(frame: &ObservationFrame<'_>, terms: Vec<TermMeta>) -> (rescanned: Vec<TermMeta>)
    requires
        terms@.len() == frame.levels().len(),
    ensures
        rescanned@.len() == terms@.len(),
        forall|t: int|
            0 <= t < terms@.len() ==> #[trigger] rescanned@[t] == (TermMeta {
                sorted: is_non_decreasing(frame.levels()[t]),
                ..terms@[t]
            }),
{
    let mut rescanned: Vec<TermMeta> = Vec::with_capacity(terms.len());
    for meta in iter: terms
        invariant
            iter.seq() == terms@,
            terms@.len() == frame.levels().len(),
            rescanned@.len() == iter.index(),
            forall|t: int|
                0 <= t < rescanned@.len() ==> #[trigger] rescanned@[t] == (TermMeta {
                    sorted: is_non_decreasing(frame.levels()[t]),
                    ..terms@[t]
                }),
    {
        let t: usize = rescanned.len();
        let sorted: bool = column_is_sorted(frame.level_column(t));
        rescanned.push(
            TermMeta {
                n_levels: meta.n_levels,
                offset: meta.offset,
                sorted,
                columns: meta.columns,
            },
        );
    }
    rescanned
}

/// Rows and order are fixed by the columns, the structure and the options.
pub proof fn law_row_map_is_unique(
    levels: Seq<Seq<u32>>,
    structure: Seq<Seq<Loading<u32>>>,
    n_obs: nat,
    options: DesignOptions<'_>,
    a: Option<Seq<u32>>,
    b: Option<Seq<u32>>,
)
    requires
        is_row_map(levels, structure, n_obs, options, a),
        is_row_map(levels, structure, n_obs, options, b),
    ensures
        a == b,
{
    if let (Some(x), Some(y)) = (a, b) {
        lemma_row_map_is_injective(levels, structure, n_obs, options, x);
        lemma_row_map_is_injective(levels, structure, n_obs, options, y);
        let in_x = crate::domain::singletons::row_set(x);
        let in_y = crate::domain::singletons::row_set(y);
        assert forall|row: u32| x.contains(row) <==> y.contains(row) by {
            assert(in_x.contains(row as int) <==> in_y.contains(row as int));
            if x.contains(row) {
                let k = choose|k: int| 0 <= k < x.len() && x[k] == row;
                assert(x[k] == row as int);
                assert(in_x.contains(row as int));
            }
            if y.contains(row) {
                let k = choose|k: int| 0 <= k < y.len() && y[k] == row;
                assert(y[k] == row as int);
                assert(in_y.contains(row as int));
            }
        }
        assert(x.to_set() =~= y.to_set());
        x.unique_seq_to_set();
        y.unique_seq_to_set();
        if sorts(levels, structure, n_obs, options) {
            let d = choose|d: int|
                #[trigger] is_dominant(levels, structure, d) && !is_non_decreasing(levels[d]);
            crate::domain::ordering::law_stable_order_is_unique(levels[d], x, y);
        } else {
            let flat = Seq::new(u32::MAX as nat + 1, |i: int| 0u32);
            crate::domain::ordering::law_stable_order_is_unique(flat, x, y);
        }
    }
}

/// The columns, the coefficient structure and the options determine the design's
/// rows, levels and coefficients.
pub proof fn law_design_is_determined(
    levels: Seq<Seq<u32>>,
    loadings: Seq<Seq<Binary64>>,
    n_obs: nat,
    structure: Seq<Seq<Loading<u32>>>,
    options: DesignOptions<'_>,
    a: Design<'_>,
    b: Design<'_>,
)
    requires
        is_design_of(levels, loadings, n_obs, structure, options, a),
        is_design_of(levels, loadings, n_obs, structure, options, b),
    ensures
        crate::operator::fit::is_same_model(a, b),
{
    law_row_map_is_unique(
        levels,
        structure,
        n_obs,
        options,
        optional_rows(a.rows),
        optional_rows(b.rows),
    );
    match optional_rows(a.rows) {
        None => {},
        Some(rows) => {
            assert(a.rows->Some_0@.len() == b.rows->Some_0@.len());
        },
    }
    assert(a.terms@.len() == levels.len());
    assert forall|t: int|
        #![trigger a.terms@[t]]
        #![trigger b.terms@[t]]
        0 <= t < a.terms@.len() implies a.terms@[t].offset == b.terms@[t].offset
        && a.terms@[t].n_levels == b.terms@[t].n_levels by {
        assert(a.terms@[t].n_levels == max_code(levels[t]) + 1);
        assert(b.terms@[t].n_levels == max_code(levels[t]) + 1);
    }
}

} // verus!
