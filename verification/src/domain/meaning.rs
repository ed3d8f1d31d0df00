//! What a design represents: which of the caller's rows, in which order, and where
//! the coefficients of their levels lie.

use vstd::prelude::*;

use crate::binary64::Binary64;
use crate::domain::columns::{Loading, NonEmpty};
use crate::domain::design::{Design, DesignOptions};
use crate::domain::effect::Effect;
use crate::error::BuildError;

verus! {

/// Some internal row stands for the caller's row.
pub open spec fn is_represented(design: Design<'_>, row: int) -> bool {
    exists|k: int| 0 <= k < design.n_obs && #[trigger] caller_row_of(design, k) == row
}

/// The caller's row that internal row `k` stands for.
pub open spec fn caller_row_of(design: Design<'_>, k: int) -> int {
    match design.rows {
        None => k,
        Some(rows) => rows@[k] as int,
    }
}

/// Another row of `keep` has `row`'s level.
pub open spec fn shares_level(column: Seq<u32>, keep: Set<int>, row: int) -> bool {
    exists|other: int| #[trigger] keep.contains(other) && other != row && column[other] == column[row]
}

/// In every column, every row of `keep` shares its level with another one.
pub open spec fn no_row_is_alone(levels: Seq<Seq<u32>>, keep: Set<int>) -> bool {
    forall|row: int, t: int|
        keep.contains(row) && 0 <= t < levels.len() ==> #[trigger] shares_level(
            levels[t],
            keep,
            row,
        )
}

/// Every column has one level code per row.
pub open spec fn are_columns(levels: Seq<Seq<u32>>, n_obs: nat) -> bool {
    forall|t: int| 0 <= t < levels.len() ==> (#[trigger] levels[t]).len() == n_obs
}

/// An accepted design represents its input. Every internal row stands for a row of
/// the caller, none twice, and carries that row's levels and covariates. Without
/// removal of singletons every row of the caller is represented.
pub proof fn law_design_represents_its_rows(
    levels: Seq<Seq<u32>>,
    loadings: Seq<Seq<Binary64>>,
    n_obs: nat,
    structure: Seq<Seq<Loading<u32>>>,
    options: DesignOptions<'_>,
    design: Design<'_>,
)
    requires
        are_columns(levels, n_obs),
        crate::domain::design::build_outcome(
            levels,
            loadings,
            n_obs,
            structure,
            options,
            Ok(design),
        ),
    ensures
        design.n_obs_input == n_obs,
        design.options == options,
        design.n_obs > 0,
        forall|k: int|
            0 <= k < design.n_obs ==> 0 <= #[trigger] caller_row_of(design, k) < n_obs,
        forall|j: int, k: int|
            #![trigger caller_row_of(design, j), caller_row_of(design, k)]
            0 <= j < k < design.n_obs ==> caller_row_of(design, j) != caller_row_of(design, k),
        design.frame.levels().len() == levels.len(),
        forall|t: int, k: int|
            #![trigger design.frame.levels()[t][k]]
            0 <= t < levels.len() && 0 <= k < design.n_obs ==> design.frame.levels()[t][k]
                == levels[t][caller_row_of(design, k)],
        design.frame.loadings().len() == loadings.len(),
        forall|c: int, k: int|
            #![trigger design.frame.loadings()[c][k]]
            0 <= c < loadings.len() && 0 <= k < design.n_obs ==> design.frame.loadings()[c][k]
                == loadings[c][caller_row_of(design, k)],
        !options.drop_singletons || levels.len() == 0 ==> forall|row: int|
            0 <= row < n_obs ==> #[trigger] is_represented(design, row),
        !options.locality_sort ==> forall|j: int, k: int|
            #![trigger caller_row_of(design, j), caller_row_of(design, k)]
            0 <= j < k < design.n_obs ==> caller_row_of(design, j) < caller_row_of(design, k),
{
    lemma_is_design_of(levels, loadings, n_obs, structure, options, design);
    lemma_row_map(levels, loadings, n_obs, structure, options, design);
    lemma_columns_follow(levels, loadings, n_obs, structure, options, design);
}

/// The rows of a design, without what singleton removal means.
pub proof fn lemma_row_map(
    levels: Seq<Seq<u32>>,
    loadings: Seq<Seq<Binary64>>,
    n_obs: nat,
    structure: Seq<Seq<Loading<u32>>>,
    options: DesignOptions<'_>,
    design: Design<'_>,
)
    requires
        crate::domain::design::is_design_of(levels, loadings, n_obs, structure, options, design),
    ensures
        design.n_obs_input == n_obs,
        design.options == options,
        design.n_obs > 0,
        forall|k: int|
            0 <= k < design.n_obs ==> 0 <= #[trigger] caller_row_of(design, k) < n_obs,
        forall|j: int, k: int|
            #![trigger caller_row_of(design, j), caller_row_of(design, k)]
            0 <= j < k < design.n_obs ==> caller_row_of(design, j) != caller_row_of(design, k),
        !options.drop_singletons || levels.len() == 0 ==> forall|row: int|
            0 <= row < n_obs ==> #[trigger] is_represented(design, row),
        !options.locality_sort ==> forall|j: int, k: int|
            #![trigger caller_row_of(design, j), caller_row_of(design, k)]
            0 <= j < k < design.n_obs ==> caller_row_of(design, j) < caller_row_of(design, k),
{
    match design.rows {
        None => {
            assert forall|row: int| 0 <= row < n_obs implies #[trigger] is_represented(
                design,
                row,
            ) by {
                assert(caller_row_of(design, row) == row);
            }
        },
        Some(rows) => {
            assert forall|j: int, k: int|
                #![trigger caller_row_of(design, j), caller_row_of(design, k)]
                0 <= j < k < design.n_obs implies caller_row_of(design, j) != caller_row_of(
                design,
                k,
            ) by {
                assert(rows@[j] != rows@[k]);
            }
            if !options.drop_singletons || levels.len() == 0 {
                assert forall|row: int| 0 <= row < n_obs implies #[trigger] is_represented(
                    design,
                    row,
                ) by {
                    assert(crate::domain::design::is_retained(
                        levels,
                        n_obs,
                        options.drop_singletons,
                        row,
                    ));
                    lemma_listed_is_represented(design, rows@, row);
                }
            }
            if !options.locality_sort {
                assert(crate::domain::design::is_ascending(rows@));
                assert forall|j: int, k: int|
                    #![trigger caller_row_of(design, j), caller_row_of(design, k)]
                    0 <= j < k < design.n_obs implies caller_row_of(design, j) < caller_row_of(
                    design,
                    k,
                ) by {
                    assert(rows@[j] < rows@[k]);
                }
            }
        },
    }
}

/// The columns of a design follow its rows.
pub proof fn lemma_columns_follow(
    levels: Seq<Seq<u32>>,
    loadings: Seq<Seq<Binary64>>,
    n_obs: nat,
    structure: Seq<Seq<Loading<u32>>>,
    options: DesignOptions<'_>,
    design: Design<'_>,
)
    requires
        crate::domain::design::is_design_of(levels, loadings, n_obs, structure, options, design),
    ensures
        design.frame.levels().len() == levels.len(),
        forall|t: int, k: int|
            #![trigger design.frame.levels()[t][k]]
            0 <= t < levels.len() && 0 <= k < design.n_obs ==> design.frame.levels()[t][k]
                == levels[t][caller_row_of(design, k)],
        design.frame.loadings().len() == loadings.len(),
        forall|c: int, k: int|
            #![trigger design.frame.loadings()[c][k]]
            0 <= c < loadings.len() && 0 <= k < design.n_obs ==> design.frame.loadings()[c][k]
                == loadings[c][caller_row_of(design, k)],
{
    match design.rows {
        None => {},
        Some(rows) => {
            lemma_rearranged(levels, rows@);
            lemma_rearranged(loadings, rows@);
        },
    }
}

proof fn lemma_rearranged<T>(columns: Seq<Seq<T>>, rows: Seq<u32>)
    ensures
        crate::domain::design::rearranged(columns, Some(rows)).len() == columns.len(),
        forall|t: int, k: int|
            #![trigger crate::domain::design::rearranged(columns, Some(rows))[t][k]]
            0 <= t < columns.len() && 0 <= k < rows.len() ==> crate::domain::design::rearranged(
                columns,
                Some(rows),
            )[t][k] == columns[t][rows[k] as int],
{
}

proof fn lemma_is_design_of(
    levels: Seq<Seq<u32>>,
    loadings: Seq<Seq<Binary64>>,
    n_obs: nat,
    structure: Seq<Seq<Loading<u32>>>,
    options: DesignOptions<'_>,
    design: Design<'_>,
)
    requires
        crate::domain::design::build_outcome(
            levels,
            loadings,
            n_obs,
            structure,
            options,
            Ok(design),
        ),
    ensures
        n_obs > 0,
        crate::domain::design::is_design_of(levels, loadings, n_obs, structure, options, design),
{
}

proof fn lemma_listed_is_represented(design: Design<'_>, rows: Seq<u32>, row: int)
    requires
        design.rows matches Some(list) && list@ == rows,
        design.wf(),
        crate::domain::singletons::row_set(rows).contains(row),
    ensures
        is_represented(design, row),
{
    let k = choose|k: int| 0 <= k < rows.len() && #[trigger] rows[k] == row;
    assert(caller_row_of(design, k) == row);
}

/// Removing singletons keeps the largest set of rows in which no row is alone on a
/// level: among the rows of the design every row shares each of its levels with
/// another one, and any set of rows with that property is kept whole.
pub proof fn law_singletons_are_removed(
    levels: Seq<Seq<u32>>,
    loadings: Seq<Seq<Binary64>>,
    n_obs: nat,
    structure: Seq<Seq<Loading<u32>>>,
    options: DesignOptions<'_>,
    design: Design<'_>,
)
    requires
        are_columns(levels, n_obs),
        options.drop_singletons,
        levels.len() > 0,
        crate::domain::design::build_outcome(
            levels,
            loadings,
            n_obs,
            structure,
            options,
            Ok(design),
        ),
    ensures
        no_row_is_alone(levels, represented_rows(design)),
        forall|keep: Set<int>|
            #![trigger no_row_is_alone(levels, keep)]
            no_row_is_alone(levels, keep) && (forall|row: int| #[trigger]
                keep.contains(row) ==> 0 <= row < n_obs) ==> forall|row: int| #[trigger]
                keep.contains(row) ==> represented_rows(design).contains(row),
{
    lemma_is_design_of(levels, loadings, n_obs, structure, options, design);
    lemma_represented_are_survivors(levels, loadings, n_obs, structure, options, design);
    lemma_survivors(levels, n_obs);
}

proof fn lemma_represented_are_survivors(
    levels: Seq<Seq<u32>>,
    loadings: Seq<Seq<Binary64>>,
    n_obs: nat,
    structure: Seq<Seq<Loading<u32>>>,
    options: DesignOptions<'_>,
    design: Design<'_>,
)
    requires
        options.drop_singletons,
        levels.len() > 0,
        n_obs > 0,
        crate::domain::design::is_design_of(levels, loadings, n_obs, structure, options, design),
    ensures
        represented_rows(design) == crate::domain::singletons::survivors(levels, n_obs),
{
    let own = represented_rows(design);
    let survivors = crate::domain::singletons::survivors(levels, n_obs);
    assert forall|row: int| #[trigger] own.contains(row) <==> survivors.contains(row) by {
        lemma_represented_survives(levels, loadings, n_obs, structure, options, design, row);
    }
    assert(own =~= survivors);
}

/// The survivors are the largest set of rows in which no row is alone on a level.
proof fn lemma_survivors(levels: Seq<Seq<u32>>, n_obs: nat)
    ensures
        no_row_is_alone(levels, crate::domain::singletons::survivors(levels, n_obs)),
        forall|row: int| #[trigger]
            crate::domain::singletons::survivors(levels, n_obs).contains(row) ==> 0 <= row < n_obs,
        forall|keep: Set<int>|
            #![trigger no_row_is_alone(levels, keep)]
            no_row_is_alone(levels, keep) && (forall|row: int| #[trigger]
                keep.contains(row) ==> 0 <= row < n_obs) ==> forall|row: int| #[trigger]
                keep.contains(row) ==> crate::domain::singletons::survivors(
                    levels,
                    n_obs,
                ).contains(row),
{
    let survivors = crate::domain::singletons::survivors(levels, n_obs);
    assert forall|row: int, t: int|
        survivors.contains(row) && 0 <= t < levels.len() implies #[trigger] shares_level(
        levels[t],
        survivors,
        row,
    ) by {
        lemma_survivor_shares(levels, n_obs, row, t);
    }
    assert forall|row: int| #[trigger] survivors.contains(row) implies 0 <= row < n_obs by {
        lemma_survivor_in_range(levels, n_obs, row);
    }
    assert forall|keep: Set<int>|
        #![trigger no_row_is_alone(levels, keep)]
        no_row_is_alone(levels, keep) && (forall|row: int| #[trigger]
            keep.contains(row) ==> 0 <= row < n_obs) implies forall|row: int| #[trigger]
        keep.contains(row) ==> survivors.contains(row) by {
        assert forall|row: int| #[trigger] keep.contains(row) implies survivors.contains(row) by {
            lemma_kept_survives(levels, n_obs, keep, row);
        }
    }
}

proof fn lemma_survivor_in_range(levels: Seq<Seq<u32>>, n_obs: nat, row: int)
    requires
        crate::domain::singletons::survivors(levels, n_obs).contains(row),
    ensures
        0 <= row < n_obs,
{
    let keep = choose|keep: Set<int>| #[trigger]
        crate::domain::singletons::is_singleton_free(levels, keep) && keep.subset_of(
            crate::domain::singletons::all_rows(n_obs),
        ) && keep.contains(row);
    assert(crate::domain::singletons::all_rows(n_obs).contains(row));
}

proof fn lemma_survivor_shares(levels: Seq<Seq<u32>>, n_obs: nat, row: int, t: int)
    requires
        crate::domain::singletons::survivors(levels, n_obs).contains(row),
        0 <= t < levels.len(),
    ensures
        shares_level(levels[t], crate::domain::singletons::survivors(levels, n_obs), row),
{
    let survivors = crate::domain::singletons::survivors(levels, n_obs);
    let keep = choose|keep: Set<int>| #[trigger]
        crate::domain::singletons::is_singleton_free(levels, keep) && keep.subset_of(
            crate::domain::singletons::all_rows(n_obs),
        ) && keep.contains(row);
    assert(crate::domain::singletons::has_companion(levels[t], keep, row));
    let other = choose|other: int| #[trigger]
        keep.contains(other) && other != row && levels[t][other] == levels[t][row];
    assert(crate::domain::singletons::survives(levels, n_obs, other));
    assert(survivors.contains(other));
}

proof fn lemma_kept_survives(levels: Seq<Seq<u32>>, n_obs: nat, keep: Set<int>, row: int)
    requires
        no_row_is_alone(levels, keep),
        forall|row: int| #[trigger] keep.contains(row) ==> 0 <= row < n_obs,
        keep.contains(row),
    ensures
        crate::domain::singletons::survivors(levels, n_obs).contains(row),
{
    assert(crate::domain::singletons::is_singleton_free(levels, keep)) by {
        assert forall|row: int, term: int|
            #![trigger keep.contains(row), levels[term]]
            keep.contains(row) && 0 <= term
                < levels.len() implies crate::domain::singletons::has_companion(
            levels[term],
            keep,
            row,
        ) by {
            assert(shares_level(levels[term], keep, row));
        }
    }
    assert(keep.subset_of(crate::domain::singletons::all_rows(n_obs)));
    assert(crate::domain::singletons::survives(levels, n_obs, row));
}

/// The caller's rows that the design represents.
pub open spec fn represented_rows(design: Design<'_>) -> Set<int> {
    Set::new(|row: int| is_represented(design, row))
}

proof fn lemma_represented_survives(
    levels: Seq<Seq<u32>>,
    loadings: Seq<Seq<Binary64>>,
    n_obs: nat,
    structure: Seq<Seq<Loading<u32>>>,
    options: DesignOptions<'_>,
    design: Design<'_>,
    row: int,
)
    requires
        options.drop_singletons,
        levels.len() > 0,
        n_obs > 0,
        crate::domain::design::is_design_of(levels, loadings, n_obs, structure, options, design),
    ensures
        is_represented(design, row) <==> crate::domain::singletons::survives(levels, n_obs, row),
{
    let survivors = crate::domain::singletons::survivors(levels, n_obs);
    if crate::domain::singletons::survives(levels, n_obs, row) {
        assert(survivors.contains(row));
        lemma_survivor_in_range(levels, n_obs, row);
        assert(crate::domain::design::is_retained(levels, n_obs, true, row));
        match design.rows {
            None => {
                assert(caller_row_of(design, row) == row);
            },
            Some(rows) => {
                lemma_listed_is_represented(design, rows@, row);
            },
        }
    }
    if is_represented(design, row) {
        let k = choose|k: int| 0 <= k < design.n_obs && #[trigger] caller_row_of(design, k) == row;
        match design.rows {
            None => {
                assert(!crate::domain::design::drops_rows(levels, n_obs, options));
                assert(crate::domain::design::is_retained(levels, n_obs, true, row));
            },
            Some(rows) => {
                assert(crate::domain::singletons::row_set(rows@).contains(row)) by {
                    assert(rows@[k] == row);
                }
                assert(crate::domain::design::is_retained(levels, n_obs, true, row));
            },
        }
    }
}

/// Number of coefficients of a term of the design.
pub open spec fn term_size(design: Design<'_>, t: int) -> nat {
    design.terms@[t].columns@.len() * design.terms@[t].n_levels as nat
}

/// Sorting puts the rows in the order of the largest term: with locality sorting
/// and rows that `u32` can number, some term with the most coefficients has its
/// levels in ascending order, rows of one level in the caller's order.
pub proof fn law_rows_are_sorted_by_the_largest_term(
    levels: Seq<Seq<u32>>,
    loadings: Seq<Seq<Binary64>>,
    n_obs: nat,
    structure: Seq<Seq<Loading<u32>>>,
    options: DesignOptions<'_>,
    design: Design<'_>,
)
    requires
        are_columns(levels, n_obs),
        levels.len() > 0,
        options.locality_sort,
        n_obs <= u32::MAX,
        crate::domain::design::build_outcome(
            levels,
            loadings,
            n_obs,
            structure,
            options,
            Ok(design),
        ),
    ensures
        exists|d: int| #[trigger] is_largest_term(design, d) && is_sorted_by(design, d),
{
    lemma_is_design_of(levels, loadings, n_obs, structure, options, design);
    lemma_sorted_rows(levels, loadings, n_obs, structure, options, design);
}

/// No term has more coefficients.
pub open spec fn is_largest_term(design: Design<'_>, d: int) -> bool {
    &&& 0 <= d < design.terms@.len()
    &&& forall|q: int|
        0 <= q < design.terms@.len() ==> #[trigger] term_size(design, q) <= term_size(design, d)
}

proof fn lemma_sorted_rows(
    levels: Seq<Seq<u32>>,
    loadings: Seq<Seq<Binary64>>,
    n_obs: nat,
    structure: Seq<Seq<Loading<u32>>>,
    options: DesignOptions<'_>,
    design: Design<'_>,
)
    requires
        are_columns(levels, n_obs),
        levels.len() > 0,
        options.locality_sort,
        n_obs <= u32::MAX,
        crate::domain::design::is_design_of(levels, loadings, n_obs, structure, options, design),
    ensures
        exists|d: int| #[trigger] is_largest_term(design, d) && is_sorted_by(design, d),
{
    let d = lemma_some_dominant(levels, structure, levels.len() as int);
    assert(crate::domain::design::is_dominant(levels, structure, d));
    assert forall|q: int| 0 <= q < design.terms@.len() implies #[trigger] term_size(design, q)
        <= term_size(design, d) by {
        assert(design.terms@[q].columns@ == structure[q]);
        assert(design.terms@[d].columns@ == structure[d]);
        assert(term_size(design, q) == crate::domain::design::dofs_of(levels, structure, q));
        assert(term_size(design, d) == crate::domain::design::dofs_of(levels, structure, d));
    }
    assert(is_largest_term(design, d));
    let key = levels[d];
    let sorted = crate::domain::design::sorts(levels, structure, n_obs, options);
    assert forall|j: int, k: int|
        #![trigger caller_row_of(design, j), caller_row_of(design, k)]
        0 <= j < k < design.n_obs implies {
        let a = design.frame.levels()[d][j];
        let b = design.frame.levels()[d][k];
        a < b || (a == b && caller_row_of(design, j) < caller_row_of(design, k))
    } by {
        assert(design.frame.levels()[d].len() == design.n_obs);
        match design.rows {
            None => {
                assert(!sorted);
                assert(crate::domain::design::is_non_decreasing(key));
                assert(key[j] <= key[k]);
            },
            Some(rows) => {
                assert(design.frame.levels()[d] == crate::observation::selected(key, rows@));
                assert(rows@[j] < n_obs && rows@[k] < n_obs);
                if sorted {
                    assert(crate::domain::ordering::is_stably_ordered(key, rows@));
                    assert(rows@[j] != rows@[k]);
                } else {
                    assert(rows@[j] < rows@[k]);
                    assert(crate::domain::design::is_non_decreasing(key));
                    assert(key[rows@[j] as int] <= key[rows@[k] as int]);
                }
            },
        }
    }
    assert(is_sorted_by(design, d));
}

/// The rows ascend by the levels of term `d`, rows of one level in the caller's order.
pub open spec fn is_sorted_by(design: Design<'_>, d: int) -> bool {
    forall|j: int, k: int|
        #![trigger caller_row_of(design, j), caller_row_of(design, k)]
        0 <= j < k < design.n_obs ==> {
            let a = design.frame.levels()[d][j];
            let b = design.frame.levels()[d][k];
            a < b || (a == b && caller_row_of(design, j) < caller_row_of(design, k))
        }
}

/// The last of the first `n` terms with the most coefficients.
proof fn lemma_some_dominant(
    levels: Seq<Seq<u32>>,
    structure: Seq<Seq<Loading<u32>>>,
    n: int,
) -> (d: int)
    requires
        0 < n <= levels.len(),
    ensures
        0 <= d < n,
        forall|q: int|
            0 <= q < n ==> #[trigger] crate::domain::design::dofs_of(levels, structure, q)
                <= crate::domain::design::dofs_of(levels, structure, d),
        forall|q: int|
            d < q < n ==> #[trigger] crate::domain::design::dofs_of(levels, structure, q)
                < crate::domain::design::dofs_of(levels, structure, d),
    decreases n,
{
    if n == 1 {
        0
    } else {
        let d = lemma_some_dominant(levels, structure, n - 1);
        if crate::domain::design::dofs_of(levels, structure, n - 1)
            >= crate::domain::design::dofs_of(levels, structure, d) {
            n - 1
        } else {
            d
        }
    }
}

/// Every term has one level per code up to its largest, each with one coefficient
/// per column, and the terms' coefficients lie one after another: the first starts
/// at zero, each next one where the one before ends, and the last ends at the
/// number of unknowns.
pub proof fn law_coefficients_lie_term_after_term(
    levels: Seq<Seq<u32>>,
    loadings: Seq<Seq<Binary64>>,
    n_obs: nat,
    structure: Seq<Seq<Loading<u32>>>,
    options: DesignOptions<'_>,
    design: Design<'_>,
)
    requires
        are_columns(levels, n_obs),
        crate::domain::design::build_outcome(
            levels,
            loadings,
            n_obs,
            structure,
            options,
            Ok(design),
        ),
    ensures
        design.terms@.len() == levels.len(),
        forall|t: int|
            0 <= t < levels.len() ==> (#[trigger] design.terms@[t]).columns@ == structure[t],
        forall|t: int, i: int|
            #![trigger levels[t][i]]
            0 <= t < levels.len() && 0 <= i < n_obs ==> levels[t][i] < design.terms@[t].n_levels,
        forall|t: int|
            0 <= t < levels.len() ==> exists|i: int|
                0 <= i < n_obs && #[trigger] levels[t][i] == (#[trigger] design.terms@[t]).n_levels
                    - 1,
        levels.len() > 0 ==> design.terms@[0].offset == 0,
        forall|t: int|
            #![trigger term_size(design, t)]
            0 <= t < levels.len() - 1 ==> design.terms@[t + 1].offset == design.terms@[t].offset
                + term_size(design, t),
        levels.len() > 0 ==> design.n_dofs == design.terms@[levels.len() - 1].offset + term_size(
            design,
            levels.len() - 1,
        ),
        levels.len() == 0 ==> design.n_dofs == 0,
{
    lemma_is_design_of(levels, loadings, n_obs, structure, options, design);
    assert forall|t: int, i: int|
        #![trigger levels[t][i]]
        0 <= t < levels.len() && 0 <= i < n_obs implies levels[t][i] < design.terms@[t].n_levels by {
        assert(design.terms@[t].n_levels == crate::domain::design::max_code(levels[t]) + 1);
        crate::domain::design::lemma_max_code(levels[t], i);
    }
    assert forall|t: int| 0 <= t < levels.len() implies exists|i: int|
        0 <= i < n_obs && #[trigger] levels[t][i] == (#[trigger] design.terms@[t]).n_levels
            - 1 by {
        assert(design.terms@[t].n_levels == crate::domain::design::max_code(levels[t]) + 1);
        let i = lemma_max_code_attained(levels[t]);
        assert(levels[t][i] == design.terms@[t].n_levels - 1);
    }
    let terms = design.terms@;
    assert forall|t: int|
        #![trigger term_size(design, t)]
        0 <= t < levels.len() - 1 implies terms[t + 1].offset == terms[t].offset + term_size(
        design,
        t,
    ) by {
        assert(terms[t].offset == crate::domain::design::offset_before(terms, t));
        assert(terms[t + 1].offset == crate::domain::design::offset_before(terms, t + 1));
    }
    if levels.len() > 0 {
        let last = levels.len() - 1;
        assert(terms[0].offset == crate::domain::design::offset_before(terms, 0));
        assert(terms[last].offset == crate::domain::design::offset_before(terms, last));
    }
}

proof fn lemma_max_code_attained(column: Seq<u32>) -> (i: int)
    requires
        column.len() > 0,
    ensures
        0 <= i < column.len(),
        column[i] == crate::domain::design::max_code(column),
    decreases column.len(),
{
    let last = column.len() - 1;
    let front = column.drop_last();
    if column.last() > crate::domain::design::max_code(front) {
        last
    } else if last == 0 {
        last
    } else {
        let i = lemma_max_code_attained(front);
        assert(column[i] == front[i]);
        i
    }
}

/// The bit pattern of a weight that may be used: finite and not negative.
pub open spec fn is_valid_weight(b: Binary64) -> bool {
    // sign bit clear and exponent not all ones, or negative zero
    b.bits < 0x7ff0_0000_0000_0000 || b.bits == 0x8000_0000_0000_0000
}

/// When weights are refused: exactly if their number is not that of the caller's
/// rows, or some row that the design represents has one that is negative, infinite
/// or not a number. The first such row is named, with its weight.
pub proof fn law_weights_are_checked(
    design: Design<'_>,
    weights: Seq<Binary64>,
    result: Result<(), BuildError>,
)
    requires
        design.wf(),
        crate::domain::design::weights_outcome(
            crate::domain::design::optional_rows(design.rows),
            design.n_obs_input as nat,
            Some(weights),
            result,
        ),
    ensures
        result is Ok <==> weights.len() == design.n_obs_input && forall|row: int|
            #[trigger] is_represented(design, row) ==> is_valid_weight(weights[row]),
        result matches Err(e) ==> match e {
            BuildError::WeightCountMismatch { expected, got } => weights.len()
                != design.n_obs_input && expected == design.n_obs_input && got == weights.len(),
            BuildError::InvalidWeight { index, value } => weights.len() == design.n_obs_input
                && is_represented(design, index as int) && value == weights[index as int]
                && !is_valid_weight(value) && forall|row: int|
                #[trigger] is_represented(design, row) && row < index ==> is_valid_weight(
                    weights[row],
                ),
            _ => false,
        },
{
    let rows = crate::domain::design::optional_rows(design.rows);
    assert forall|row: int| #[trigger] is_represented(design, row)
        <==> crate::domain::design::is_listed(rows, design.n_obs_input as nat, row) by {
        lemma_represented_is_listed(design, row);
    }
    if result is Ok {
        assert forall|row: int| #[trigger] is_represented(design, row) implies is_valid_weight(
            weights[row],
        ) by {
            assert(weights[row].spec_is_finite_non_negative());
        }
    } else if weights.len() == design.n_obs_input {
        let index = result->Err_0->InvalidWeight_index as int;
        assert(is_represented(design, index));
        assert(!is_valid_weight(weights[index]));
    }
}

proof fn lemma_represented_is_listed(design: Design<'_>, row: int)
    requires
        design.wf(),
    ensures
        is_represented(design, row) <==> crate::domain::design::is_listed(
            crate::domain::design::optional_rows(design.rows),
            design.n_obs_input as nat,
            row,
        ),
{
    match design.rows {
        None => {
            if 0 <= row < design.n_obs {
                assert(caller_row_of(design, row) == row);
            }
        },
        Some(rows) => {
            if is_represented(design, row) {
                let k = choose|k: int|
                    0 <= k < design.n_obs && #[trigger] caller_row_of(design, k) == row;
                assert(rows@[k] == row);
            }
            if crate::domain::singletons::row_set(rows@).contains(row) {
                lemma_listed_is_represented(design, rows@, row);
            }
        },
    }
}

/// When a design is refused, apart from its weights: it has no observations, or
/// its coefficients exceed what `u32` can number, or singletons are to be removed
/// and rows exceed that too or none is left.
pub proof fn law_design_is_refused(
    levels: Seq<Seq<u32>>,
    loadings: Seq<Seq<Binary64>>,
    n_obs: nat,
    structure: Seq<Seq<Loading<u32>>>,
    options: DesignOptions<'_>,
    result: Result<Design<'_>, BuildError>,
)
    requires
        are_columns(levels, n_obs),
        crate::domain::design::build_outcome(levels, loadings, n_obs, structure, options, result),
    ensures
        n_obs == 0 ==> is_error(result) && result->Err_0 is EmptyObservations,
        n_obs > 0 && crate::domain::design::total_dofs(levels, structure) <= u32::MAX
            && !options.drop_singletons && options.weights is None ==> result is Ok,
        n_obs > 0 && crate::domain::design::total_dofs(levels, structure) > u32::MAX ==> is_error(
            result,
        ) && result->Err_0 is DofSpaceExceedsU32,
        n_obs > 0 && n_obs <= u32::MAX && crate::domain::design::total_dofs(levels, structure)
            <= u32::MAX && options.drop_singletons && levels.len() > 0 && (forall|keep: Set<int>|
            #![trigger no_row_is_alone(levels, keep)]
            no_row_is_alone(levels, keep) && (forall|row: int| #[trigger]
                keep.contains(row) ==> 0 <= row < n_obs) ==> forall|row: int| !#[trigger]
                keep.contains(row)) ==> is_error(result) && result->Err_0 is EmptyObservations,
{
    if n_obs > 0 && options.drop_singletons && levels.len() > 0 && (forall|keep: Set<int>|
        #![trigger no_row_is_alone(levels, keep)]
        no_row_is_alone(levels, keep) && (forall|row: int| #[trigger]
            keep.contains(row) ==> 0 <= row < n_obs) ==> forall|row: int| !#[trigger]
            keep.contains(row)) {
        lemma_survivors(levels, n_obs);
        let survivors = crate::domain::singletons::survivors(levels, n_obs);
        assert(no_row_is_alone(levels, survivors));
        assert forall|row: int| !#[trigger] crate::domain::singletons::survives(
            levels,
            n_obs,
            row,
        ) by {
            assert(!survivors.contains(row));
        }
    }
}

/// The result is an error.
pub open spec fn is_error(result: Result<Design<'_>, BuildError>) -> bool {
    result is Err
}

/// Bringing the caller's columns into internal order gives the design's columns:
/// values and levels stay row-aligned.
pub proof fn law_internal_order_is_the_frames(
    levels: Seq<Seq<u32>>,
    loadings: Seq<Seq<Binary64>>,
    n_obs: nat,
    structure: Seq<Seq<Loading<u32>>>,
    options: DesignOptions<'_>,
    design: Design<'_>,
    t: int,
    internal: Seq<u32>,
)
    requires
        are_columns(levels, n_obs),
        crate::domain::design::build_outcome(
            levels,
            loadings,
            n_obs,
            structure,
            options,
            Ok(design),
        ),
        0 <= t < levels.len(),
        crate::domain::access::is_internal_order(design, levels[t], internal),
    ensures
        internal == design.frame.levels()[t],
{
    lemma_is_design_of(levels, loadings, n_obs, structure, options, design);
    lemma_columns_follow(levels, loadings, n_obs, structure, options, design);
    lemma_frame_length(levels, loadings, n_obs, structure, options, design, t);
    lemma_internal_follows(design, levels[t], internal);
    assert forall|k: int| 0 <= k < internal.len() implies internal[k]
        == design.frame.levels()[t][k] by {
        assert(internal[k] == levels[t][caller_row_of(design, k)]);
    }
    assert(internal =~= design.frame.levels()[t]);
}

proof fn lemma_frame_length(
    levels: Seq<Seq<u32>>,
    loadings: Seq<Seq<Binary64>>,
    n_obs: nat,
    structure: Seq<Seq<Loading<u32>>>,
    options: DesignOptions<'_>,
    design: Design<'_>,
    t: int,
)
    requires
        crate::domain::design::is_design_of(levels, loadings, n_obs, structure, options, design),
        0 <= t < levels.len(),
    ensures
        design.frame.levels()[t].len() == design.n_obs,
        match design.rows {
            None => design.n_obs == n_obs,
            Some(rows) => rows@.len() == design.n_obs,
        },
{
    assert(design.frame.wf());
}

proof fn lemma_internal_follows(design: Design<'_>, column: Seq<u32>, internal: Seq<u32>)
    requires
        match design.rows {
            None => design.n_obs == column.len(),
            Some(rows) => rows@.len() == design.n_obs,
        },
        crate::domain::access::is_internal_order(design, column, internal),
    ensures
        internal.len() == design.n_obs,
        forall|k: int|
            0 <= k < internal.len() ==> #[trigger] internal[k] == column[caller_row_of(design, k)],
{
}

/// Columns must agree in length: where they do not, the first one whose length is
/// not that of the first column is named, with both lengths, covariates being
/// counted after the factors; where they do, the design is built from them.
pub proof fn law_columns_must_agree(
    levels: Seq<Seq<u32>>,
    loadings: Seq<Seq<Binary64>>,
    structure: Seq<Seq<Loading<u32>>>,
    options: DesignOptions<'_>,
    result: Result<Design<'_>, BuildError>,
)
    requires
        levels.len() > 0,
        crate::domain::access::columns_outcome(levels, loadings, structure, options, result),
    ensures
        are_columns(levels, levels[0].len()) && (forall|c: int|
            0 <= c < loadings.len() ==> (#[trigger] loadings[c]).len() == levels[0].len())
            ==> crate::domain::design::build_outcome(
            levels,
            loadings,
            levels[0].len(),
            structure,
            options,
            result,
        ),
        forall|t: int|
            #![trigger levels[t]]
            0 <= t < levels.len() && levels[t].len() != levels[0].len() && (forall|s: int|
                0 <= s < t ==> (#[trigger] levels[s]).len() == levels[0].len()) ==> names_column(
                result,
                t,
                levels[0].len(),
                levels[t].len(),
            ),
        forall|c: int|
            #![trigger loadings[c]]
            are_columns(levels, levels[0].len()) && 0 <= c < loadings.len() && loadings[c].len()
                != levels[0].len() && (forall|s: int|
                0 <= s < c ==> (#[trigger] loadings[s]).len() == levels[0].len()) ==> names_column(
                result,
                levels.len() + c,
                levels[0].len(),
                loadings[c].len(),
            ),
{
    let n = levels[0].len();
    assert forall|t: int|
        #![trigger levels[t]]
        0 <= t < levels.len() && levels[t].len() != n && (forall|s: int|
            0 <= s < t ==> (#[trigger] levels[s]).len() == n) implies names_column(
        result,
        t,
        n,
        levels[t].len(),
    ) by {
        assert(!crate::observation::all_have_length(levels, loadings, n));
        let k = result->Err_0->ObservationCountMismatch_factor as int;
        assert(crate::observation::is_first_mismatch(levels, loadings, n, k));
        if k < t {
            assert(levels[k].len() == n);
        } else if t < k {
            assert(crate::observation::column_len(levels, loadings, t) == n);
        }
    }
    assert forall|c: int|
        #![trigger loadings[c]]
        are_columns(levels, n) && 0 <= c < loadings.len() && loadings[c].len() != n && (forall|
            s: int,
        |
            0 <= s < c ==> (#[trigger] loadings[s]).len() == n) implies names_column(
        result,
        levels.len() + c,
        n,
        loadings[c].len(),
    ) by {
        assert(!crate::observation::all_have_length(levels, loadings, n));
        let k = result->Err_0->ObservationCountMismatch_factor as int;
        assert(crate::observation::is_first_mismatch(levels, loadings, n, k));
        if k < levels.len() {
            assert(levels[k].len() == n);
        } else if k < levels.len() + c {
            assert(loadings[k - levels.len()].len() == n);
        } else if levels.len() + c < k {
            assert(crate::observation::column_len(levels, loadings, levels.len() + c) == n);
        }
    }
}

/// The result refuses column `k` for having `got` elements instead of `expected`.
pub open spec fn names_column(
    result: Result<Design<'_>, BuildError>,
    k: int,
    expected: nat,
    got: nat,
) -> bool {
    result matches Err(BuildError::ObservationCountMismatch { factor, expected: e, got: g })
        && factor == k && e == expected && g == got
}

/// The columns of an effect are the intercept, if there is one, and then every
/// slope in order.
pub proof fn law_effect_has_its_columns<S>(intercept: bool, slopes: Seq<S>, i: int)
    requires
        0 <= i < slopes.len(),
    ensures
        crate::domain::effect::effect_columns(intercept, slopes).len() == slopes.len() + if intercept {
            1int
        } else {
            0int
        },
        intercept ==> crate::domain::effect::effect_columns(intercept, slopes)[0] == Loading::<
            S,
        >::Constant,
        crate::domain::effect::effect_columns(intercept, slopes)[if intercept {
            i + 1
        } else {
            i
        }] == Loading::Covariate(slopes[i]),
{
}

/// A list of effects has the level codes of each.
pub proof fn law_effects_have_their_levels(effects: Seq<Effect<'_>>, t: int)
    requires
        0 <= t < effects.len(),
    ensures
        crate::domain::access::effect_levels(effects).len() == effects.len(),
        crate::domain::access::effect_levels(effects)[t] == effects[t].spec_levels(),
{
}

/// Selecting rows reads the values at them, in order; the structure of a list of
/// terms is that of each.
pub proof fn law_selection_and_structure<T>(
    values: Seq<T>,
    rows: Seq<u32>,
    columns: Seq<NonEmpty<Loading<u32>>>,
    k: int,
    t: int,
)
    requires
        0 <= k < rows.len(),
        0 <= t < columns.len(),
    ensures
        crate::observation::selected(values, rows).len() == rows.len(),
        crate::observation::selected(values, rows)[k] == values[rows[k] as int],
        crate::domain::design::structure_of(columns).len() == columns.len(),
        crate::domain::design::structure_of(columns)[t] == columns[t]@,
{
}

/// Number of coefficients that the columns ask for: for every term, one per column
/// and level, levels being counted up to the largest.
pub proof fn law_coefficients_are_counted(
    levels: Seq<Seq<u32>>,
    structure: Seq<Seq<Loading<u32>>>,
    t: int,
)
    requires
        0 <= t,
    ensures
        crate::domain::design::dofs_before(levels, structure, 0) == 0,
        crate::domain::design::dofs_before(levels, structure, t + 1)
            == crate::domain::design::dofs_before(levels, structure, t) + structure[t].len() * (
        crate::domain::design::max_code(levels[t]) + 1),
        crate::domain::design::total_dofs(levels, structure) == crate::domain::design::dofs_before(
            levels,
            structure,
            levels.len() as int,
        ),
{
}

} // verus!
