//! What the preconditioners hold: the reciprocal diagonal of `D^T W D`, or solvers
//! for its restrictions to the subdomains of all factor pairs.

use vstd::prelude::*;

use crate::arithmetic::Arithmetic;
use crate::binary64::Binary64;
use crate::config::{LocalSolverConfig, PreconditionerConfig};
use crate::domain::design::Design;
use crate::domain::factor_pairs::Subdomain;
use crate::elimination::CrossTab;
use crate::error::BuildError;
use crate::kernels::ScatterStrategy;
use crate::operator::preconditioner::FePreconditioner;
use crate::operator::schwarz::{
    DiagonalPreconditioner, LocalSolverBuilder, Preconditioner, Variant,
};
use crate::schwarz_precond::additive::SchwarzPreconditioner;
use crate::schwarz_precond::error::SolveError;
use crate::schwarz_precond::local_solve::{LocalSolver, SubdomainEntry};
use crate::schwarz_precond::planning::ReductionStrategy;

verus! {

// ---------------------------------------------------------------------------
// The diagonal
// ---------------------------------------------------------------------------

/// `inverse` holds the reciprocals of the diagonal of `D^T W D`: at every level of
/// every term, the reciprocal times the sum of the weights there is one.
pub open spec fn inverts_gramian_diagonal<T>(
    value: spec_fn(T) -> real,
    design: Design<'_>,
    w: spec_fn(int) -> real,
    inverse: Seq<T>,
) -> bool {
    &&& inverse.len() == design.n_dofs
    &&& forall|q: int, l: int|
        0 <= q < design.terms@.len() && 0 <= l < design.terms@[q].n_levels ==> #[trigger] inverts_at(
            value,
            design,
            w,
            inverse,
            q,
            l,
        )
}

/// The weights at level `l` of term `q` have a positive sum, whose reciprocal is
/// at the level's unknown.
pub open spec fn inverts_at<T>(
    value: spec_fn(T) -> real,
    design: Design<'_>,
    w: spec_fn(int) -> real,
    inverse: Seq<T>,
    q: int,
    l: int,
) -> bool {
    let u = design.terms@[q].offset + l;
    let sum = crate::domain::local_matrix::gramian_diagonal(design, w, q, u);
    sum > 0real && value(inverse[u]) * sum == 1real
}

/// The observation weights as a function of the observation.
pub open spec fn weight_at<T>(
    value: spec_fn(T) -> real,
    weights: Option<Seq<T>>,
) -> spec_fn(int) -> real {
    |k: int| crate::domain::local_matrix::observation_weight(value, weights, k)
}

/// With exact arithmetic, the diagonal sums the weights at every level.
proof fn lemma_gramian_diagonal<T, A: Arithmetic<T>>(
    ops: A,
    value: spec_fn(T) -> real,
    design: Design<'_>,
    weights: Option<Seq<T>>,
    diagonal: Seq<T>,
    q: int,
    l: int,
)
    requires
        design.wf(),
        design.is_plain(),
        crate::arithmetic::is_exact(ops, value),
        crate::operator::schwarz::is_gramian_diagonal(ops, design, weights, diagonal),
        0 <= q < design.terms@.len(),
        0 <= l < design.terms@[q].n_levels,
    ensures
        0 <= design.terms@[q].offset + l < design.n_dofs == diagonal.len(),
        value(diagonal[design.terms@[q].offset + l])
            == crate::domain::local_matrix::gramian_diagonal(
            design,
            weight_at(value, weights),
            q,
            design.terms@[q].offset + l,
        ),
{
    let n = design.n_obs as int;
    let codes = design.frame.levels()[q];
    let offset = design.terms@[q].offset as int;
    crate::operator::lemma_term_in_range(design, q);
    let (w, zeros) = choose|w: Seq<T>, zeros: Seq<T>|
        {
            &&& #[trigger] crate::domain::cross_tab::are_row_weights(
                ops,
                weights,
                design.n_obs as nat,
                w,
            )
            &&& #[trigger] crate::kernels::is_zeros(ops, design.n_dofs as nat, zeros)
            &&& diagonal.len() == design.n_dofs
            &&& forall|q: int|
                0 <= q < design.terms@.len()
                    ==> #[trigger] crate::operator::schwarz::is_term_diagonal(
                    ops,
                    design,
                    q,
                    w,
                    zeros,
                    diagonal,
                )
        };
    assert(crate::operator::schwarz::is_term_diagonal(ops, design, q, w, zeros, diagonal));
    assert(codes.len() == n);
    crate::operator::laws::law_scatter_adds_the_rows_of_a_level(
        ops,
        value,
        ScatterStrategy::Sequential,
        codes,
        w,
        offset,
        design.terms@[q].n_levels as int,
        zeros,
        diagonal,
        l,
    );
    assert(crate::arithmetic::zero_gives(ops, zeros[offset + l]));
    let at = weight_at(value, weights);
    let f = crate::operator::laws::at_level(codes, |i: int| value(w[i]), l);
    let g = |k: int|
        if crate::domain::local_matrix::is_at(design, q, offset + l, k) {
            at(k)
        } else {
            0real
        };
    assert forall|k: int| 0 <= k < n implies #[trigger] f(k) == g(k) by {
        match weights {
            None => {
                assert(crate::arithmetic::one_gives(ops, w[k]));
            },
            Some(given) => {},
        }
    }
    crate::operator::laws::lemma_total_same(n, f, g);
}

/// Every unknown is a level of some term.
pub proof fn lemma_unknown_is_a_level(design: Design<'_>, t: int, u: int) -> (place: (int, int))
    requires
        design.wf(),
        design.is_plain(),
        0 <= t <= design.terms@.len(),
        0 <= u < crate::domain::design::offset_before(design.terms@, t),
    ensures
        0 <= place.0 < t,
        0 <= place.1 < design.terms@[place.0].n_levels,
        u == design.terms@[place.0].offset + place.1,
    decreases t,
{
    if t <= 0 {
        (0, 0)
    } else {
        crate::operator::lemma_plain_offset(design, t - 1);
        if u < crate::domain::design::offset_before(design.terms@, t - 1) {
            lemma_unknown_is_a_level(design, t - 1, u)
        } else {
            (t - 1, u - design.terms@[t - 1].offset)
        }
    }
}

/// The diagonal preconditioner is built exactly where it makes sense. With exact
/// arithmetic, what is built inverts the diagonal of `D^T W D`; and where every
/// level of every term has positive weight and no number tests as not finite,
/// something is built.
pub proof fn law_diagonal_inverts_the_level_weights<T, A: Arithmetic<T>>(
    ops: A,
    value: spec_fn(T) -> real,
    design: Design<'_>,
    weights: Option<Seq<T>>,
    result: Result<DiagonalPreconditioner<T>, BuildError>,
)
    requires
        design.wf(),
        design.is_plain(),
        crate::arithmetic::is_exact_field(ops, value),
        crate::operator::schwarz::diagonal_outcome(ops, design, weights, result),
    ensures
        result matches Ok(p) ==> inverts_gramian_diagonal(
            value,
            design,
            weight_at(value, weights),
            p.spec_inv_diag(),
        ),
        (forall|q: int, l: int|
            0 <= q < design.terms@.len() && 0 <= l < design.terms@[q].n_levels
                ==> #[trigger] crate::domain::local_matrix::gramian_diagonal(
                design,
                weight_at(value, weights),
                q,
                design.terms@[q].offset + l,
            ) > 0real) && (forall|a: T| !#[trigger] call_ensures(A::is_finite, (&ops, a), false))
            ==> result is Ok,
{
    let diagonal = choose|diagonal: Seq<T>| #[trigger]
        crate::operator::schwarz::is_gramian_diagonal(ops, design, weights, diagonal)
            && crate::operator::schwarz::inversion_outcome(ops, diagonal, result);
    match result {
        Ok(p) => {
            let inverse = p.spec_inv_diag();
            assert(diagonal.len() == design.n_dofs);
            assert forall|q: int, l: int|
                0 <= q < design.terms@.len() && 0 <= l < design.terms@[q].n_levels implies
                #[trigger] inverts_at(
                value,
                design,
                weight_at(value, weights),
                inverse,
                q,
                l,
            ) by {
                lemma_gramian_diagonal(ops, value, design, weights, diagonal, q, l);
                let slot = design.terms@[q].offset + l;
                assert(crate::operator::schwarz::is_usable(ops, diagonal[slot]));
                crate::elimination::meaning::lemma_reciprocal(
                    ops,
                    value,
                    diagonal[slot],
                    inverse[slot],
                );
            }
        },
        Err(e) => {
            let index = e->SingularDiagonal_index as int;
            assert(crate::operator::schwarz::is_unusable(ops, diagonal[index]));
            assert(diagonal.len() == design.n_dofs);
            let (q, l) = lemma_unknown_is_a_level(design, design.terms@.len() as int, index);
            lemma_gramian_diagonal(ops, value, design, weights, diagonal, q, l);
            if call_ensures(A::is_positive, (&ops, diagonal[index]), false) {
                assert(crate::arithmetic::positive_says(ops, diagonal[index], false));
            }
        },
    }
}

/// Applying the diagonal preconditioner multiplies every entry by its reciprocal
/// diagonal; vectors of the wrong length are refused and nothing is written.
pub proof fn law_diagonal_apply_scales<T, A: Arithmetic<T>>(
    ops: A,
    value: spec_fn(T) -> real,
    inverse: Seq<T>,
    x: Seq<T>,
    before: Seq<T>,
    after: Seq<T>,
    result: Result<(), SolveError>,
)
    requires
        crate::arithmetic::is_exact(ops, value),
        crate::operator::schwarz::scaling_outcome(ops, inverse, x, before, after, result),
    ensures
        result is Ok <==> x.len() == inverse.len() && before.len() == inverse.len(),
        result is Ok ==> after.len() == inverse.len() && forall|i: int|
            0 <= i < after.len() ==> value(#[trigger] after[i]) == value(inverse[i]) * value(x[i]),
        result matches Err(e) ==> e is InvalidInput && after == before,
{
    if result is Ok {
        assert forall|i: int| 0 <= i < after.len() implies value(#[trigger] after[i]) == value(
            inverse[i],
        ) * value(x[i]) by {
            assert(crate::arithmetic::times_gives(ops, inverse[i], x[i], after[i]));
        }
    }
}

// ---------------------------------------------------------------------------
// Additive Schwarz
// ---------------------------------------------------------------------------

/// The entry's solver was built from the restriction of `D^T W D` to the entry's
/// unknowns.
pub open spec fn is_local_system<T, S: LocalSolver<T>, L: LocalSolverBuilder<T, S>>(
    builder: L,
    value: spec_fn(T) -> real,
    design: Design<'_>,
    w: spec_fn(int) -> real,
    config: LocalSolverConfig,
    entry: SubdomainEntry<S>,
    q: int,
    r: int,
    table: CrossTab<T>,
) -> bool {
    &&& 0 <= q < r < design.terms@.len()
    &&& crate::domain::local_matrix::restricts_gramian(
        value,
        design,
        w,
        q,
        r,
        entry.spec_core().indices(),
        table,
    )
    &&& call_ensures(
        <L as LocalSolverBuilder<T, S>>::build,
        (&builder, table, &config),
        Ok::<S, BuildError>(entry.spec_solver()),
    )
}

/// The entry's solver was built from the restriction of `D^T W D` of some pair of
/// terms to the entry's unknowns.
pub open spec fn has_local_system<T, S: LocalSolver<T>, L: LocalSolverBuilder<T, S>>(
    builder: L,
    value: spec_fn(T) -> real,
    design: Design<'_>,
    w: spec_fn(int) -> real,
    config: LocalSolverConfig,
    entry: SubdomainEntry<S>,
) -> bool {
    exists|q: int, r: int, table: CrossTab<T>|
        is_local_system(builder, value, design, w, config, entry, q, r, table)
}

/// How often the subdomains list the unknown `u`.
pub open spec fn times_covered<S>(entries: Seq<SubdomainEntry<S>>, u: int) -> real {
    crate::operator::laws::total(
        entries.len() as int,
        |d: int| times_named(entries[d].spec_core().indices(), u),
    )
}

/// How often the list names `u`.
pub open spec fn times_named(indices: Seq<u32>, u: int) -> real {
    crate::operator::laws::total(indices.len() as int, names(indices, u))
}

/// One at the positions that name `u`, zero at the others.
pub open spec fn names(indices: Seq<u32>, u: int) -> spec_fn(int) -> real {
    |i: int|
        if indices[i] == u {
            1real
        } else {
            0real
        }
}

/// The preconditioner is additive Schwarz for `D^T W D`: every subdomain's solver
/// was built from the restriction to its unknowns; every unknown that occurs is
/// covered once per other term; and every subdomain knows how often each of its
/// unknowns is covered.
pub open spec fn is_schwarz_of<T, S: LocalSolver<T>, L: LocalSolverBuilder<T, S>>(
    builder: L,
    value: spec_fn(T) -> real,
    design: Design<'_>,
    w: spec_fn(int) -> real,
    config: LocalSolverConfig,
    strategy: ReductionStrategy,
    p: SchwarzPreconditioner<S>,
) -> bool {
    let entries = p.spec_subdomains();
    &&& p.spec_n_dofs() == design.n_dofs
    &&& p.spec_strategy() == strategy
    &&& forall|d: int|
        0 <= d < entries.len() ==> has_local_system(
            builder,
            value,
            design,
            w,
            config,
            #[trigger] entries[d],
        )
    &&& forall|t: int, k: int|
        #![trigger design.frame.levels()[t][k]]
        0 <= t < design.terms@.len() && 0 <= k < design.n_obs ==> times_covered(
            entries,
            design.terms@[t].offset + design.frame.levels()[t][k],
        ) == (design.terms@.len() - 1) as real
    &&& forall|d: int, i: int|
        0 <= d < entries.len() && 0 <= i < entries[d].spec_core().indices().len()
            ==> #[trigger] crate::schwarz_precond::meaning::multiplicity(
            entries,
            d,
            i,
        ) as real == times_covered(entries, entries[d].spec_core().indices()[i] as int)
}

proof fn lemma_times_named(indices: Seq<u32>, u: int)
    ensures
        crate::domain::factor_pairs::times_listed(indices, u) as real == times_named(indices, u),
    decreases indices.len(),
{
    if indices.len() > 0 {
        let front = indices.drop_last();
        lemma_times_named(front, u);
        let f = names(indices, u);
        crate::operator::laws::lemma_total_same(front.len() as int, f, names(front, u));
        let last = indices.len() - 1;
        assert(crate::operator::laws::total(indices.len() as int, f)
            == crate::operator::laws::total(last, f) + f(last));
        assert(indices.last() == indices[last]);
    }
}

proof fn lemma_times_covered<T, S>(
    domains: Seq<(Subdomain, CrossTab<T>)>,
    entries: Seq<SubdomainEntry<S>>,
    u: int,
)
    requires
        domains.len() == entries.len(),
        forall|d: int|
            0 <= d < entries.len() ==> (#[trigger] entries[d]).spec_core() == domains[d].0.core,
    ensures
        crate::domain::factor_pairs::coverage(domains, u) as real == times_covered(entries, u),
    decreases domains.len(),
{
    if domains.len() > 0 {
        let last = domains.len() - 1;
        let front = domains.drop_last();
        let front_entries = entries.drop_last();
        assert forall|d: int| 0 <= d < front_entries.len() implies (
        #[trigger] front_entries[d]).spec_core() == front[d].0.core by {
            assert(entries[d].spec_core() == domains[d].0.core);
        }
        lemma_times_covered(front, front_entries, u);
        lemma_times_named(domains[last].0.core.indices(), u);
        let f = |d: int| times_named(entries[d].spec_core().indices(), u);
        let g = |d: int| times_named(front_entries[d].spec_core().indices(), u);
        crate::operator::laws::lemma_total_same(last, f, g);
        assert(entries[last].spec_core() == domains[last].0.core);
        assert(domains.last() == domains[last]);
    }
}

/// Additive Schwarz over a design's subdomains is additive Schwarz for its
/// `D^T W D`.
pub proof fn law_additive_holds_local_systems<
    T,
    S: LocalSolver<T>,
    A: Arithmetic<T>,
    L: LocalSolverBuilder<T, S>,
>(
    ops: A,
    builder: L,
    value: spec_fn(T) -> real,
    design: Design<'_>,
    weights: Option<Seq<T>>,
    domains: Seq<(Subdomain, CrossTab<T>)>,
    config: LocalSolverConfig,
    strategy: ReductionStrategy,
    p: SchwarzPreconditioner<S>,
)
    requires
        design.wf(),
        design.is_plain(),
        crate::arithmetic::is_exact(ops, value),
        crate::domain::local_domains::are_local_domains(ops, design, weights, domains),
        crate::operator::schwarz::additive_outcome(
            builder,
            domains,
            design.n_dofs as nat,
            &config,
            strategy,
            Ok(p),
        ),
    ensures
        is_schwarz_of(
            builder,
            value,
            design,
            weight_at(value, weights),
            config,
            strategy,
            p,
        ),
{
    let w = weight_at(value, weights);
    let built = choose|entries: Result<Vec<SubdomainEntry<S>>, BuildError>| #[trigger]
        crate::operator::schwarz::entries_outcome(builder, domains, &config, entries)
            && crate::operator::schwarz::additive_follows::<T, S>(
            entries,
            design.n_dofs as nat,
            strategy,
            Ok(p),
        );
    let list = built->Ok_0;
    let entries = p.spec_subdomains();
    assert(entries == list@);
    assert forall|d: int| 0 <= d < entries.len() implies (#[trigger] entries[d]).spec_core()
        == domains[d].0.core && call_ensures(
        <L as LocalSolverBuilder<T, S>>::build,
        (&builder, domains[d].1, &config),
        Ok::<S, BuildError>(entries[d].spec_solver()),
    ) by {
        assert(crate::operator::schwarz::is_entry_at(builder, domains, &config, list@, d));
        lemma_entry(builder, domains[d], &config, entries[d]);
    }
    assert forall|d: int| 0 <= d < entries.len() implies has_local_system(
        builder,
        value,
        design,
        w,
        config,
        #[trigger] entries[d],
    ) by {
        crate::domain::local_matrix::law_local_tables_restrict_the_gramian(
            ops,
            value,
            design,
            weights,
            domains,
            d,
        );
        let plain = |k: int|
            crate::domain::local_matrix::observation_weight(value, weights, k);
        assert(entries[d].spec_core() == domains[d].0.core);
        crate::domain::local_matrix::lemma_same_weights(
            value,
            design,
            plain,
            w,
            domains[d].0.factor_pair.0 as int,
            domains[d].0.factor_pair.1 as int,
            domains[d].0.core.indices(),
            domains[d].1,
        );
        assert(is_local_system(
            builder,
            value,
            design,
            w,
            config,
            entries[d],
            domains[d].0.factor_pair.0 as int,
            domains[d].0.factor_pair.1 as int,
            domains[d].1,
        ));
    }
    assert forall|t: int, k: int|
        #![trigger design.frame.levels()[t][k]]
        0 <= t < design.terms@.len() && 0 <= k < design.n_obs implies times_covered(
        entries,
        design.terms@[t].offset + design.frame.levels()[t][k],
    ) == (design.terms@.len() - 1) as real by {
        crate::domain::local_domains::law_subdomains_cover_every_level(
            ops,
            design,
            weights,
            domains,
            t,
            k,
        );
        lemma_times_covered(
            domains,
            entries,
            design.terms@[t].offset + design.frame.levels()[t][k],
        );
    }
    let n = design.terms@.len() as int;
    let (all_active, groups) = choose|
        all_active: Seq<Vec<bool>>,
        groups: Seq<Seq<(Subdomain, CrossTab<T>)>>,
    |
        {
            &&& crate::domain::local_domains::marks_all_active(design, all_active)
            &&& #[trigger] crate::domain::local_domains::are_pair_splits(
                ops,
                design,
                weights,
                all_active,
                crate::domain::factor_pairs::pairs_below(n, n),
                groups,
            )
            &&& crate::domain::local_domains::is_weighted(
                crate::concat::concat_all(groups),
                domains,
            )
        };
    assert forall|d: int, i: int|
        0 <= d < entries.len() && 0 <= i < entries[d].spec_core().indices().len() implies
        #[trigger] crate::schwarz_precond::meaning::multiplicity(
        entries,
        d,
        i,
    ) as real == times_covered(entries, entries[d].spec_core().indices()[i] as int) by {
        assert(entries[d].spec_core() == domains[d].0.core);
        crate::domain::factor_pairs::law_partition_of_unity(
            crate::concat::concat_all(groups),
            domains,
            d,
            i,
        );
        lemma_times_covered(domains, entries, entries[d].spec_core().indices()[i] as int);
    }
}

proof fn lemma_entry<T, S: LocalSolver<T>, L: LocalSolverBuilder<T, S>>(
    builder: L,
    pair: (Subdomain, CrossTab<T>),
    config: &LocalSolverConfig,
    entry: SubdomainEntry<S>,
)
    requires
        crate::operator::schwarz::entry_outcome(builder, pair, config, Ok(entry)),
    ensures
        entry.spec_core() == pair.0.core,
        call_ensures(
            <L as LocalSolverBuilder<T, S>>::build,
            (&builder, pair.1, config),
            Ok::<S, BuildError>(entry.spec_solver()),
        ),
{
    let answer = choose|answer: Result<S, BuildError>| #[trigger]
        crate::operator::schwarz::builds_to(builder, pair.1, config, answer)
            && crate::operator::schwarz::entry_follows::<T, S>(pair.0, answer, Ok(entry));
    assert(answer is Ok);
}

// ---------------------------------------------------------------------------
// From configurations and the caller's weights
// ---------------------------------------------------------------------------

/// The preconditioner is what the configuration asks for, for `D^T W D`.
pub open spec fn is_preconditioner_of<T, S: LocalSolver<T>, L: LocalSolverBuilder<T, S>>(
    builder: L,
    value: spec_fn(T) -> real,
    design: Design<'_>,
    w: spec_fn(int) -> real,
    config: PreconditionerConfig,
    built: Option<Preconditioner<T, S>>,
) -> bool {
    match config {
        PreconditionerConfig::Off => built is None,
        PreconditionerConfig::Additive { local_solver, reduction } => match built {
            None => design.terms@.len() < 2,
            Some(p) => p.variant() matches Variant::Additive(inner) && design.terms@.len() >= 2
                && is_schwarz_of(builder, value, design, w, local_solver, reduction, inner),
        },
        PreconditionerConfig::Diagonal => built matches Some(p)
            && p.variant() matches Variant::Diagonal(inner) && inverts_gramian_diagonal(
            value,
            design,
            w,
            inner.spec_inv_diag(),
        ),
    }
}

/// What a configuration builds is a preconditioner of the weighted design, of the
/// configured kind.
pub proof fn law_configured_preconditioner<
    T,
    S: LocalSolver<T>,
    A: Arithmetic<T>,
    L: LocalSolverBuilder<T, S>,
>(
    ops: A,
    builder: L,
    value: spec_fn(T) -> real,
    design: Design<'_>,
    weights: Option<Seq<T>>,
    config: PreconditionerConfig,
    built: Option<Preconditioner<T, S>>,
)
    requires
        design.wf(),
        design.is_plain(),
        crate::arithmetic::is_exact_field(ops, value),
        crate::operator::schwarz::configured_outcome(
            ops,
            builder,
            design,
            weights,
            config,
            Ok(built),
        ),
    ensures
        is_preconditioner_of(builder, value, design, weight_at(value, weights), config, built),
{
    match config {
        PreconditionerConfig::Off => {},
        PreconditionerConfig::Additive { local_solver, reduction } => {
            let domains = choose|domains: Seq<(Subdomain, CrossTab<T>)>|
                #![trigger crate::domain::local_domains::are_local_domains(ops, design, weights, domains)]
                {
                    &&& crate::domain::local_domains::are_local_domains(
                        ops,
                        design,
                        weights,
                        domains,
                    )
                    &&& if domains.len() == 0 {
                        Ok::<Option<Preconditioner<T, S>>, BuildError>(built) == Ok::<
                            Option<Preconditioner<T, S>>,
                            BuildError,
                        >(None)
                    } else {
                        crate::operator::schwarz::is_additive_result(
                            builder,
                            domains,
                            design.n_dofs as nat,
                            &local_solver,
                            reduction,
                            Ok(built),
                        )
                    }
                };
            crate::domain::local_domains::law_subdomains_need_two_factors(
                ops,
                design,
                weights,
                domains,
            );
            if domains.len() > 0 {
                let inner = built->Some_0.variant()->Additive_0;
                law_additive_holds_local_systems(
                    ops,
                    builder,
                    value,
                    design,
                    weights,
                    domains,
                    local_solver,
                    reduction,
                    inner,
                );
            }
        },
        PreconditionerConfig::Diagonal => {
            let inner = built->Some_0.variant()->Diagonal_0;
            law_diagonal_inverts_the_level_weights(ops, value, design, weights, Ok(inner));
        },
    }
}

/// Every double-precision number that stands for a weight has one value.
pub open spec fn reads_as<T, A: Arithmetic<T>>(
    ops: A,
    value: spec_fn(T) -> real,
    reading: spec_fn(Binary64) -> real,
) -> bool {
    forall|b: Binary64, r: T| #[trigger]
        crate::arithmetic::scalar_of(ops, b, r) ==> value(r) == reading(b)
}

/// The weight that the caller gave the row of observation `k`; without weights it
/// is one.
pub open spec fn given_weight(
    reading: spec_fn(Binary64) -> real,
    design: Design<'_>,
    given: Option<Seq<Binary64>>,
) -> spec_fn(int) -> real {
    |k: int|
        match given {
            None => 1real,
            Some(w) => reading(
                w[match design.rows {
                    None => k,
                    Some(rows) => rows@[k] as int,
                }],
            ),
        }
}

/// Internal weights are the caller's weights, row by row.
pub proof fn law_internal_weights_are_the_callers<T, A: Arithmetic<T>>(
    ops: A,
    value: spec_fn(T) -> real,
    reading: spec_fn(Binary64) -> real,
    design: Design<'_>,
    given: Option<Seq<Binary64>>,
    internal: Option<Seq<T>>,
)
    requires
        design.wf(),
        reads_as(ops, value, reading),
        crate::operator::schwarz::are_internal_weights(ops, design, given, internal),
    ensures
        internal is Some <==> given is Some,
        internal matches Some(w) ==> w.len() == design.n_obs,
        forall|k: int|
            0 <= k < design.n_obs ==> crate::domain::local_matrix::observation_weight(
                value,
                internal,
                k,
            ) == #[trigger] given_weight(reading, design, given)(k),
{
    assert forall|k: int| 0 <= k < design.n_obs implies
        crate::domain::local_matrix::observation_weight(value, internal, k)
        == #[trigger] given_weight(reading, design, given)(k) by {
        match given {
            None => {},
            Some(w) => {
                let own = internal->Some_0;
                assert(crate::arithmetic::scalar_of(
                    ops,
                    w[design.spec_caller_row(k)],
                    own[k],
                ));
            },
        }
    }
}

/// A preconditioner of one set of weights is one of any equal set.
pub proof fn lemma_equal_weights<T, S: LocalSolver<T>, L: LocalSolverBuilder<T, S>>(
    builder: L,
    value: spec_fn(T) -> real,
    design: Design<'_>,
    a: spec_fn(int) -> real,
    b: spec_fn(int) -> real,
    config: PreconditionerConfig,
    built: Option<Preconditioner<T, S>>,
)
    requires
        forall|k: int| 0 <= k < design.n_obs ==> #[trigger] a(k) == b(k),
        is_preconditioner_of(builder, value, design, a, config, built),
    ensures
        is_preconditioner_of(builder, value, design, b, config, built),
{
    match config {
        PreconditionerConfig::Off => {},
        PreconditionerConfig::Additive { local_solver, reduction } => {
            if built is Some {
                let inner = built->Some_0.variant()->Additive_0;
                lemma_equal_schwarz(
                    builder,
                    value,
                    design,
                    a,
                    b,
                    local_solver,
                    reduction,
                    inner,
                );
            }
        },
        PreconditionerConfig::Diagonal => {
            let inverse = built->Some_0.variant()->Diagonal_0.spec_inv_diag();
            assert forall|q: int, l: int|
                0 <= q < design.terms@.len() && 0 <= l < design.terms@[q].n_levels implies
                #[trigger] inverts_at(value, design, b, inverse, q, l) by {
                assert(inverts_at(value, design, a, inverse, q, l));
                crate::domain::local_matrix::lemma_same_diagonal(
                    design,
                    a,
                    b,
                    q,
                    design.terms@[q].offset + l,
                );
            }
        },
    }
}

proof fn lemma_equal_schwarz<T, S: LocalSolver<T>, L: LocalSolverBuilder<T, S>>(
    builder: L,
    value: spec_fn(T) -> real,
    design: Design<'_>,
    a: spec_fn(int) -> real,
    b: spec_fn(int) -> real,
    config: LocalSolverConfig,
    strategy: ReductionStrategy,
    p: SchwarzPreconditioner<S>,
)
    requires
        forall|k: int| 0 <= k < design.n_obs ==> #[trigger] a(k) == b(k),
        is_schwarz_of(builder, value, design, a, config, strategy, p),
    ensures
        is_schwarz_of(builder, value, design, b, config, strategy, p),
{
    let entries = p.spec_subdomains();
    assert forall|d: int| 0 <= d < entries.len() implies has_local_system(
        builder,
        value,
        design,
        b,
        config,
        #[trigger] entries[d],
    ) by {
        assert(has_local_system(builder, value, design, a, config, entries[d]));
        let (q, r, table) = choose|q: int, r: int, table: CrossTab<T>|
            is_local_system(builder, value, design, a, config, entries[d], q, r, table);
        crate::domain::local_matrix::lemma_same_weights(
            value,
            design,
            a,
            b,
            q,
            r,
            entries[d].spec_core().indices(),
            table,
        );
        assert(is_local_system(builder, value, design, b, config, entries[d], q, r, table));
    }
}

/// What is built for the caller's weights is a preconditioner of `D^T W D` with
/// these weights, of the configured kind; without a configuration it is additive
/// Schwarz with the solver's defaults.
pub proof fn law_built_preconditioner_uses_the_callers_weights<
    T,
    S: LocalSolver<T>,
    A: Arithmetic<T>,
    L: LocalSolverBuilder<T, S>,
>(
    ops: A,
    builder: L,
    value: spec_fn(T) -> real,
    reading: spec_fn(Binary64) -> real,
    design: Design<'_>,
    given: Option<Seq<Binary64>>,
    config: Option<PreconditionerConfig>,
    built: Option<Preconditioner<T, S>>,
)
    requires
        design.wf(),
        design.is_plain(),
        crate::arithmetic::is_exact_field(ops, value),
        reads_as(ops, value, reading),
        crate::operator::schwarz::preconditioner_outcome(
            ops,
            builder,
            design,
            given,
            config,
            Ok(built),
        ),
    ensures
        is_preconditioner_of(
            builder,
            value,
            design,
            given_weight(reading, design, given),
            match config {
                Some(config) => config,
                None => PreconditionerConfig::Additive {
                    local_solver: crate::config::solver_default_local_solver(),
                    reduction: ReductionStrategy::Auto,
                },
            },
            built,
        ),
{
    let resolved = crate::operator::schwarz::resolved_config(config);
    let checked = choose|checked: Result<(), BuildError>|
        {
            &&& #[trigger] crate::domain::design::weights_outcome(
                crate::domain::design::optional_rows(design.rows),
                design.n_obs_input as nat,
                given,
                checked,
            )
            &&& match checked {
                Err(e) => Ok::<Option<Preconditioner<T, S>>, BuildError>(built) == Err::<
                    Option<Preconditioner<T, S>>,
                    BuildError,
                >(e),
                Ok(()) => crate::operator::schwarz::is_built(
                    ops,
                    builder,
                    design,
                    given,
                    resolved,
                    Ok(built),
                ),
            }
        };
    assert(checked is Ok);
    let internal = choose|internal: Option<Seq<T>>| #[trigger]
        crate::operator::schwarz::are_internal_weights(ops, design, given, internal)
            && crate::operator::schwarz::configured_outcome(
            ops,
            builder,
            design,
            internal,
            resolved,
            Ok(built),
        );
    law_configured_preconditioner(ops, builder, value, design, internal, resolved, built);
    law_internal_weights_are_the_callers(ops, value, reading, design, given, internal);
    let a = weight_at(value, internal);
    let b = given_weight(reading, design, given);
    assert forall|k: int| 0 <= k < design.n_obs implies #[trigger] a(k) == b(k) by {
        assert(crate::domain::local_matrix::observation_weight(value, internal, k) == b(k));
    }
    lemma_equal_weights(builder, value, design, a, b, resolved, built);
}

/// What is built from an additive configuration for the caller's weights is
/// additive Schwarz for `D^T W D` with these weights.
pub proof fn law_additive_only_uses_the_callers_weights<
    T,
    S: LocalSolver<T>,
    A: Arithmetic<T>,
    L: LocalSolverBuilder<T, S>,
>(
    ops: A,
    builder: L,
    value: spec_fn(T) -> real,
    reading: spec_fn(Binary64) -> real,
    design: Design<'_>,
    given: Option<Seq<Binary64>>,
    local: LocalSolverConfig,
    reduction: ReductionStrategy,
    p: FePreconditioner<S>,
)
    requires
        design.wf(),
        design.is_plain(),
        crate::arithmetic::is_exact_field(ops, value),
        reads_as(ops, value, reading),
        crate::operator::preconditioner::fe_outcome(
            ops,
            builder,
            design,
            given,
            crate::config::Preconditioner::Additive(local, reduction),
            Ok(p),
        ),
    ensures
        is_schwarz_of(
            builder,
            value,
            design,
            given_weight(reading, design, given),
            local,
            reduction,
            p.inner(),
        ),
{
    let config = crate::config::Preconditioner::Additive(local, reduction);
    let checked = choose|checked: Result<(), BuildError>|
        {
            &&& #[trigger] crate::domain::design::weights_outcome(
                crate::domain::design::optional_rows(design.rows),
                design.n_obs_input as nat,
                given,
                checked,
            )
            &&& match checked {
                Err(e) => Ok::<FePreconditioner<S>, BuildError>(p) == Err::<
                    FePreconditioner<S>,
                    BuildError,
                >(e),
                Ok(()) => crate::operator::preconditioner::is_built(
                    ops,
                    builder,
                    design,
                    given,
                    config,
                    Ok(p),
                ),
            }
        };
    assert(checked is Ok);
    let (internal, domains) = choose|
        internal: Option<Seq<T>>,
        domains: Seq<(Subdomain, CrossTab<T>)>,
    |
        {
            &&& #[trigger] crate::operator::schwarz::are_internal_weights(
                ops,
                design,
                given,
                internal,
            )
            &&& #[trigger] crate::domain::local_domains::are_local_domains(
                ops,
                design,
                internal,
                domains,
            )
            &&& crate::operator::schwarz::additive_outcome(
                builder,
                domains,
                design.n_dofs as nat,
                &local,
                reduction,
                Ok(p.inner()),
            )
        };
    law_additive_holds_local_systems(
        ops,
        builder,
        value,
        design,
        internal,
        domains,
        local,
        reduction,
        p.inner(),
    );
    law_internal_weights_are_the_callers(ops, value, reading, design, given, internal);
    let a = weight_at(value, internal);
    let b = given_weight(reading, design, given);
    assert forall|k: int| 0 <= k < design.n_obs implies #[trigger] a(k) == b(k) by {
        assert(crate::domain::local_matrix::observation_weight(value, internal, k) == b(k));
    }
    lemma_equal_schwarz(builder, value, design, a, b, local, reduction, p.inner());
}

/// Applying the diagonal preconditioner of `D^T W D` divides every unknown by the
/// weights at its level: the result times their sum is the input.
pub proof fn law_jacobi_divides_by_the_level_weights<T, A: Arithmetic<T>, S: LocalSolver<T>>(
    ops: A,
    value: spec_fn(T) -> real,
    design: Design<'_>,
    w: spec_fn(int) -> real,
    p: DiagonalPreconditioner<T>,
    x: Seq<T>,
    before: Seq<T>,
    after: Seq<T>,
    q: int,
    l: int,
)
    requires
        design.wf(),
        design.is_plain(),
        crate::arithmetic::is_exact(ops, value),
        inverts_gramian_diagonal(value, design, w, p.spec_inv_diag()),
        crate::operator::schwarz::handle_apply_outcome(
            ops,
            Variant::<T, S>::Diagonal(p),
            x,
            before,
            after,
            Ok(()),
        ),
        0 <= q < design.terms@.len(),
        0 <= l < design.terms@[q].n_levels,
    ensures
        value(after[design.terms@[q].offset + l]) * crate::domain::local_matrix::gramian_diagonal(
            design,
            w,
            q,
            design.terms@[q].offset + l,
        ) == value(x[design.terms@[q].offset + l]),
{
    let u = design.terms@[q].offset + l;
    crate::operator::lemma_term_in_range(design, q);
    assert(inverts_at(value, design, w, p.spec_inv_diag(), q, l));
    law_diagonal_apply_scales(ops, value, p.spec_inv_diag(), x, before, after, Ok(()));
    let sum = crate::domain::local_matrix::gramian_diagonal(design, w, q, u);
    let i = value(p.spec_inv_diag()[u]);
    let v = value(x[u]);
    assert(value(after[u]) == i * v);
    assert((i * v) * sum == v) by (nonlinear_arith)
        requires
            i * sum == 1real,
    ;
}

/// A handle applies what it holds.
pub proof fn law_handle_applies_what_it_holds<T, A: Arithmetic<T>, S: LocalSolver<T>>(
    ops: A,
    p: SchwarzPreconditioner<S>,
    x: Seq<T>,
    before: Seq<T>,
    after: Seq<T>,
    result: Result<(), SolveError>,
)
    requires
        crate::operator::schwarz::handle_apply_outcome(
            ops,
            Variant::<T, S>::Additive(p),
            x,
            before,
            after,
            result,
        ),
    ensures
        crate::schwarz_precond::apply::apply_outcome(ops, p, x, before, after, result),
{
}

/// The builder never fails, and its solvers have the size of their tables.
pub open spec fn always_builds<T, S: LocalSolver<T>, L: LocalSolverBuilder<T, S>>(
    builder: L,
    config: LocalSolverConfig,
) -> bool {
    &&& forall|table: CrossTab<T>, e: BuildError| !#[trigger] call_ensures(
        <L as LocalSolverBuilder<T, S>>::build,
        (&builder, table, &config),
        Err::<S, BuildError>(e),
    )
    &&& forall|table: CrossTab<T>, s: S, n: usize|
        #![trigger call_ensures(<L as LocalSolverBuilder<T, S>>::build, (&builder, table, &config), Ok::<S, BuildError>(s)), call_ensures(<S as LocalSolver<T>>::n_local, (&s,), n)]
        call_ensures(
            <L as LocalSolverBuilder<T, S>>::build,
            (&builder, table, &config),
            Ok::<S, BuildError>(s),
        ) && call_ensures(<S as LocalSolver<T>>::n_local, (&s,), n) ==> n == table.diag_q@.len()
            + table.diag_r@.len()
    &&& forall|table: CrossTab<T>, s: S, n: usize|
        #![trigger call_ensures(<L as LocalSolverBuilder<T, S>>::build, (&builder, table, &config), Ok::<S, BuildError>(s)), call_ensures(<S as LocalSolver<T>>::scratch_size, (&s,), n)]
        call_ensures(
            <L as LocalSolverBuilder<T, S>>::build,
            (&builder, table, &config),
            Ok::<S, BuildError>(s),
        ) && call_ensures(<S as LocalSolver<T>>::scratch_size, (&s,), n) ==> n
            >= table.diag_q@.len() + table.diag_r@.len()
}

/// Additive Schwarz over a design's subdomains is built whenever the local solvers
/// are: it fails only where the builder fails or gives a solver of the wrong size.
pub proof fn law_additive_is_built_when_local_solvers_are<
    T,
    S: LocalSolver<T>,
    A: Arithmetic<T>,
    L: LocalSolverBuilder<T, S>,
>(
    ops: A,
    builder: L,
    value: spec_fn(T) -> real,
    design: Design<'_>,
    weights: Option<Seq<T>>,
    domains: Seq<(Subdomain, CrossTab<T>)>,
    config: LocalSolverConfig,
    strategy: ReductionStrategy,
    result: Result<SchwarzPreconditioner<S>, BuildError>,
)
    requires
        design.wf(),
        design.is_plain(),
        crate::arithmetic::is_exact(ops, value),
        crate::domain::local_domains::are_local_domains(ops, design, weights, domains),
        crate::operator::schwarz::additive_outcome(
            builder,
            domains,
            design.n_dofs as nat,
            &config,
            strategy,
            result,
        ),
        always_builds::<T, S, L>(builder, config),
    ensures
        result is Ok,
{
    let built = choose|entries: Result<Vec<SubdomainEntry<S>>, BuildError>| #[trigger]
        crate::operator::schwarz::entries_outcome(builder, domains, &config, entries)
            && crate::operator::schwarz::additive_follows::<T, S>(
            entries,
            design.n_dofs as nat,
            strategy,
            result,
        );
    match built {
        Err(e) => {
            let before = choose|before: Seq<SubdomainEntry<S>>|
                {
                    &&& before.len() < domains.len()
                    &&& #[trigger] crate::operator::schwarz::are_entries(
                        builder,
                        domains,
                        &config,
                        before,
                    )
                    &&& crate::operator::schwarz::entry_outcome::<T, S, L>(
                        builder,
                        domains[before.len() as int],
                        &config,
                        Err(e),
                    )
                };
            let d = before.len() as int;
            crate::domain::local_matrix::law_local_tables_restrict_the_gramian(
                ops,
                value,
                design,
                weights,
                domains,
                d,
            );
            lemma_entry_never_fails::<T, S, L>(builder, domains[d], config, Err(e));
        },
        Ok(list) => {
            if result is Err {
                let source = result->Err_0->Preconditioner_0;
                assert(crate::schwarz_precond::additive::assembly_outcome::<T, S>(
                    list@,
                    design.n_dofs as nat,
                    strategy,
                    Err(source),
                ));
                let s = source->GlobalIndexOutOfBounds_subdomain as int;
                let i = source->GlobalIndexOutOfBounds_local_index as int;
                assert(crate::operator::schwarz::is_entry_at(builder, domains, &config, list@, s));
                lemma_entry(builder, domains[s], &config, list@[s]);
                crate::domain::local_domains::lemma_unknowns_in_bounds(
                    ops,
                    design,
                    weights,
                    domains,
                    s,
                    i,
                );
            }
        },
    }
}

proof fn lemma_entry_never_fails<T, S: LocalSolver<T>, L: LocalSolverBuilder<T, S>>(
    builder: L,
    pair: (Subdomain, CrossTab<T>),
    config: LocalSolverConfig,
    result: Result<SubdomainEntry<S>, BuildError>,
)
    requires
        always_builds::<T, S, L>(builder, config),
        pair.0.core.indices().len() == pair.1.diag_q@.len() + pair.1.diag_r@.len(),
        crate::operator::schwarz::entry_outcome::<T, S, L>(builder, pair, &config, result),
    ensures
        result is Ok,
{
    let answer = choose|answer: Result<S, BuildError>| #[trigger]
        crate::operator::schwarz::builds_to(builder, pair.1, &config, answer)
            && crate::operator::schwarz::entry_follows::<T, S>(pair.0, answer, result);
    match answer {
        Err(failure) => {
            assert(call_ensures(
                <L as LocalSolverBuilder<T, S>>::build,
                (&builder, pair.1, &config),
                Err::<S, BuildError>(failure),
            ));
        },
        Ok(solver) => {
            assert(call_ensures(
                <L as LocalSolverBuilder<T, S>>::build,
                (&builder, pair.1, &config),
                Ok::<S, BuildError>(solver),
            ));
        },
    }
}

/// Weights are seen as they are given, however they are held: none as none, any
/// others element by element.
pub proof fn law_weights_are_seen_as_given<T>(held: Vec<T>, borrowed: &[T], rows: Vec<u32>)
    ensures
        crate::operator::schwarz::optional_vec(None::<Vec<T>>) is None,
        crate::operator::schwarz::optional_vec(Some(held)) == Some(held@),
        crate::domain::local_domains::optional_view(None::<&[T]>) is None,
        crate::domain::local_domains::optional_view(Some(borrowed)) == Some(borrowed@),
        crate::domain::design::optional_rows(None) is None,
        crate::domain::design::optional_rows(Some(rows)) == Some(rows@),
{
}

/// A design's own weights are seen as they are given, borrowed or owned.
pub proof fn law_own_weights_are_seen_as_given<'a>(held: Vec<Binary64>, borrowed: &'a [Binary64])
    ensures
        crate::domain::design::optional_elements(None) is None,
        crate::domain::design::optional_elements(
            Some(std::borrow::Cow::<'a, [Binary64]>::Borrowed(borrowed)),
        ) == Some(borrowed@),
        crate::domain::design::optional_elements(
            Some(std::borrow::Cow::<'a, [Binary64]>::Owned(held)),
        ) == Some(held@),
{
}

/// Scattering one factor touches nothing but the factor's own bins.
pub proof fn law_scatter_leaves_other_bins<T>(
    before: Seq<T>,
    after: Seq<T>,
    offset: int,
    n_levels: int,
    j: int,
)
    requires
        crate::kernels::same_outside(before, after, offset, n_levels),
        0 <= j < before.len(),
        j < offset || j >= offset + n_levels,
    ensures
        after.len() == before.len(),
        after[j] == before[j],
{
}

} // verus!
