//! The preconditioner handle: additive Schwarz over factor pairs, or the
//! diagonal of the normal equations.

use std::sync::Arc;

use vstd::prelude::*;

use crate::arithmetic::Arithmetic;
use crate::domain::cross_tab::row_weights;
use crate::binary64::Binary64;
use crate::config::{LocalSolverConfig, PreconditionerConfig};
use crate::domain::design::Design;
use crate::domain::factor_pairs::Subdomain;
use crate::domain::local_domains::build_local_domains;
use crate::elimination::CrossTab;
use crate::error::BuildError;
use crate::kernels::{filled, scatter_sequential, AtomicBins};
use crate::parallel::par_map_items;
use crate::schwarz_precond::additive::SchwarzPreconditioner;
use crate::schwarz_precond::apply::length_error;
use crate::schwarz_precond::error::SolveError;
use crate::schwarz_precond::local_solve::{LocalSolver, SubdomainEntry};
use crate::schwarz_precond::planning::ReductionStrategy;

verus! {

/// Diagonal/Jacobi preconditioner for the fixed-effects Gramian.
#[derive(Debug)]
pub struct DiagonalPreconditioner<T> {
    inv_diag: Arc<Vec<T>>,
}

/// `y[i]` is a value of `inv_diag[i] * x[i]`.
pub open spec fn is_diagonal_product<T, A: Arithmetic<T>>(
    ops: A,
    inv_diag: Seq<T>,
    x: Seq<T>,
    y: Seq<T>,
) -> bool {
    &&& y.len() == inv_diag.len()
    &&& forall|i: int|
        0 <= i < y.len() ==> crate::arithmetic::times_gives(
            ops,
            inv_diag[i],
            x[i],
            #[trigger] y[i],
        )
}

/// What scaling by the diagonal does: it refuses vectors of the wrong length.
pub open spec fn scaling_outcome<T, A: Arithmetic<T>>(
    ops: A,
    inv_diag: Seq<T>,
    x: Seq<T>,
    before: Seq<T>,
    after: Seq<T>,
    result: Result<(), SolveError>,
) -> bool {
    let n = inv_diag.len();
    let context = "DiagonalPreconditioner::apply";
    if x.len() != n {
        &&& after == before
        &&& result matches Err(e) && crate::schwarz_precond::apply::is_length_error(
            e,
            context,
            "x"@,
            x.len(),
            n,
        )
    } else if before.len() != n {
        &&& after == before
        &&& result matches Err(e) && crate::schwarz_precond::apply::is_length_error(
            e,
            context,
            "y"@,
            before.len(),
            n,
        )
    } else {
        result is Ok && is_diagonal_product(ops, inv_diag, x, after)
    }
}

impl<T> DiagonalPreconditioner<T> {
    /// The reciprocals of the diagonal.
    pub closed spec fn spec_inv_diag(self) -> Seq<T> {
        self.inv_diag@
    }

    /// Create from the reciprocals of the diagonal.
    pub fn new(inv_diag: Vec<T>) -> (p: Self)
        ensures
            p.spec_inv_diag() == inv_diag@,
    {
        DiagonalPreconditioner { inv_diag: Arc::new(inv_diag) }
    }

    /// The reciprocals of the diagonal.
    pub fn inv_diag(&self) -> (inv_diag: &[T])
        ensures
            inv_diag@ == self.spec_inv_diag(),
    {
        self.inv_diag.as_slice()
    }

    /// Number of rows and columns.
    pub fn n_dofs(&self) -> (n: usize)
        ensures
            n == self.spec_inv_diag().len(),
    {
        self.inv_diag.len()
    }

    /// Multiply each entry of `x` by its reciprocal diagonal.
    pub fn apply_scaling<A: Arithmetic<T>>(&self, x: &[T], y: &mut [T], ops: &A) -> (result: Result<
        (),
        SolveError,
    >) where T: Copy
        ensures
            scaling_outcome(*ops, self.spec_inv_diag(), x@, old(y)@, final(y)@, result),
    {
        let n: usize = self.inv_diag.len();
        if x.len() != n {
            return Err(length_error("DiagonalPreconditioner::apply", "x", x.len(), n));
        }
        if y.len() != n {
            return Err(length_error("DiagonalPreconditioner::apply", "y", y.len(), n));
        }
        let mut i: usize = 0;
        while i < n
            invariant
                i <= n == x@.len() == y@.len() == self.inv_diag@.len(),
                forall|j: int|
                    0 <= j < i ==> crate::arithmetic::times_gives(
                        *ops,
                        self.inv_diag@[j],
                        x@[j],
                        #[trigger] y@[j],
                    ),
            decreases n - i,
        {
            let scaled: T = ops.times(self.inv_diag[i], x[i]);
            y[i] = scaled;
            i = i + 1;
        }
        Ok(())
    }
}

impl<T> Clone for DiagonalPreconditioner<T> {
    /// Another handle on the same diagonal.
    fn clone(&self) -> (handle: Self)
        ensures
            handle == *self,
    {
        DiagonalPreconditioner { inv_diag: Arc::clone(&self.inv_diag) }
    }
}

// ---------------------------------------------------------------------------
// The diagonal
// ---------------------------------------------------------------------------

/// The coefficients of term `q` sum the weights of the rows at their level.
pub open spec fn is_term_diagonal<T, A: Arithmetic<T>>(
    ops: A,
    design: Design<'_>,
    q: int,
    w: Seq<T>,
    zeros: Seq<T>,
    diagonal: Seq<T>,
) -> bool {
    crate::kernels::is_sequential_scatter(
        ops,
        design.frame.levels()[q],
        w,
        design.terms@[q].offset as int,
        design.terms@[q].n_levels as int,
        zeros,
        diagonal,
    )
}

/// `diagonal` is the diagonal of `D^T W D`: each coefficient sums, from zero and
/// in row order, the weights of the rows at its level.
pub open spec fn is_gramian_diagonal<T, A: Arithmetic<T>>(
    ops: A,
    design: Design<'_>,
    weights: Option<Seq<T>>,
    diagonal: Seq<T>,
) -> bool {
    exists|w: Seq<T>, zeros: Seq<T>|
        {
            &&& #[trigger] crate::domain::cross_tab::are_row_weights(
                ops,
                weights,
                design.n_obs as nat,
                w,
            )
            &&& #[trigger] crate::kernels::is_zeros(ops, design.n_dofs as nat, zeros)
            &&& diagonal.len() == design.n_dofs
            &&& forall|q: int|
                0 <= q < design.terms@.len() ==> #[trigger] is_term_diagonal(
                    ops,
                    design,
                    q,
                    w,
                    zeros,
                    diagonal,
                )
        }
}

/// Compute the diagonal of `D^T W D`.
fn gramian_diagonal<T: Copy, A: Arithmetic<T>>(
    design: &Design<'_>,
    weights: Option<&[T]>,
    ops: &A,
) -> (diagonal: Vec<T>)
    requires
        design.wf(),
        design.is_plain(),
        weights matches Some(given) ==> given@.len() == design.n_obs,
    ensures
        is_gramian_diagonal(
            *ops,
            *design,
            crate::domain::local_domains::optional_view(weights),
            diagonal@,
        ),
{
    let w: Vec<T> = row_weights(weights, design.n_obs, ops);
    let zero: T = ops.zero();
    let mut diagonal: Vec<T> = filled(design.n_dofs, zero);
    let ghost zeros = diagonal@;
    let n_terms: usize = design.terms.len();
    let mut q: usize = 0;
    while q < n_terms
        invariant
            q <= n_terms == design.terms@.len(),
            design.wf(),
            design.is_plain(),
            w@.len() == design.n_obs,
            diagonal@.len() == zeros.len() == design.n_dofs,
            are_term_diagonals(*ops, *design, q as int, w@, zeros, diagonal@),
            is_zero_from(*design, q as int, zeros, diagonal@),
        decreases n_terms - q,
    {
        let offset: usize = design.terms[q].offset;
        let n_levels: usize = design.terms[q].n_levels;
        let codes: &[u32] = design.frame.level_column(q);
        let ghost before = diagonal@;
        proof {
            crate::operator::lemma_term_in_range(*design, q as int);
            assert(codes@.len() == design.n_obs);
            assert forall|i: int| 0 <= i < codes@.len() implies #[trigger] codes@[i]
                < n_levels by {
                assert(design.frame.levels()[q as int][i] < n_levels);
            }
        }
        scatter_sequential(
            diagonal.as_mut_slice(),
            offset,
            n_levels,
            codes,
            w.as_slice(),
            ops,
        );
        proof {
            lemma_diagonal_step(*ops, *design, q as int, w@, zeros, before, diagonal@);
        }
        q = q + 1;
    }
    assert(crate::kernels::is_zeros(*ops, design.n_dofs as nat, zeros));
    diagonal
}

/// The terms before `q` have their diagonals.
spec fn are_term_diagonals<T, A: Arithmetic<T>>(
    ops: A,
    design: Design<'_>,
    q: int,
    w: Seq<T>,
    zeros: Seq<T>,
    diagonal: Seq<T>,
) -> bool {
    forall|s: int|
        0 <= s < q ==> #[trigger] is_term_diagonal(ops, design, s, w, zeros, diagonal)
}

/// The terms from `q` on are still zero.
spec fn is_zero_from<T>(design: Design<'_>, q: int, zeros: Seq<T>, diagonal: Seq<T>) -> bool {
    forall|s: int, level: int|
        #![trigger slot_of(design, s, level)]
        q <= s < design.terms@.len() && 0 <= level < design.terms@[s].n_levels
            ==> diagonal[slot_of(design, s, level)] == zeros[slot_of(design, s, level)]
}

/// Scattering one term's weights gives it its diagonal and touches no other term.
proof fn lemma_diagonal_step<T, A: Arithmetic<T>>(
    ops: A,
    design: Design<'_>,
    q: int,
    w: Seq<T>,
    zeros: Seq<T>,
    before: Seq<T>,
    after: Seq<T>,
)
    requires
        design.wf(),
        design.is_plain(),
        0 <= q < design.terms@.len(),
        before.len() == zeros.len() == design.n_dofs,
        are_term_diagonals(ops, design, q, w, zeros, before),
        is_zero_from(design, q, zeros, before),
        is_term_diagonal(ops, design, q, w, before, after),
        crate::kernels::same_outside(
            before,
            after,
            design.terms@[q].offset as int,
            design.terms@[q].n_levels as int,
        ),
    ensures
        are_term_diagonals(ops, design, q + 1, w, zeros, after),
        is_zero_from(design, q + 1, zeros, after),
{
    let offset = design.terms@[q].offset as int;
    let n_levels = design.terms@[q].n_levels as int;
    crate::operator::lemma_term_in_range(design, q);
    assert forall|s: int| 0 <= s < q + 1 implies #[trigger] is_term_diagonal(
        ops,
        design,
        s,
        w,
        zeros,
        after,
    ) by {
        crate::operator::lemma_term_in_range(design, s);
        if s < q {
            crate::operator::lemma_terms_apart(design, s, q);
            assert(is_term_diagonal(ops, design, s, w, zeros, before));
            lemma_same_scatter(
                ops,
                design.frame.levels()[s],
                w,
                design.terms@[s].offset as int,
                design.terms@[s].n_levels as int,
                zeros,
                before,
                zeros,
                after,
            );
        } else {
            assert forall|level: int| 0 <= level < n_levels implies #[trigger] before[offset
                + level] == zeros[offset + level] by {
                assert(slot_of(design, s, level) == offset + level);
            }
            lemma_same_scatter(
                ops,
                design.frame.levels()[q],
                w,
                offset,
                n_levels,
                before,
                after,
                zeros,
                after,
            );
        }
    }
    assert forall|s: int, level: int|
        #![trigger slot_of(design, s, level)]
        q + 1 <= s < design.terms@.len() && 0 <= level
            < design.terms@[s].n_levels implies after[slot_of(design, s, level)]
        == zeros[slot_of(design, s, level)] by {
        crate::operator::lemma_term_in_range(design, s);
        crate::operator::lemma_terms_apart(design, q, s);
        assert(before[slot_of(design, s, level)] == zeros[slot_of(design, s, level)]);
    }
}

/// Where the coefficient of a level lies.
spec fn slot_of(design: Design<'_>, t: int, level: int) -> int {
    design.terms@[t].offset + level
}

/// A scatter depends on its own bins alone.
proof fn lemma_same_scatter<T, A: Arithmetic<T>>(
    ops: A,
    codes: Seq<u32>,
    values: Seq<T>,
    offset: int,
    n_levels: int,
    before: Seq<T>,
    after: Seq<T>,
    other_before: Seq<T>,
    other_after: Seq<T>,
)
    requires
        crate::kernels::is_sequential_scatter(
            ops,
            codes,
            values,
            offset,
            n_levels,
            before,
            after,
        ),
        forall|level: int|
            0 <= level < n_levels ==> #[trigger] before[offset + level] == other_before[offset
                + level],
        forall|level: int|
            0 <= level < n_levels ==> #[trigger] after[offset + level] == other_after[offset
                + level],
    ensures
        crate::kernels::is_sequential_scatter(
            ops,
            codes,
            values,
            offset,
            n_levels,
            other_before,
            other_after,
        ),
{
    assert forall|level: int| 0 <= level < n_levels implies crate::arithmetic::sums_to(
        ops,
        other_before[offset + level],
        #[trigger] crate::kernels::values_at(codes, values, level),
        other_after[offset + level],
    ) by {
        assert(before[offset + level] == other_before[offset + level]);
        assert(after[offset + level] == other_after[offset + level]);
    }
}

/// `d` is finite and positive.
pub open spec fn is_usable<T, A: Arithmetic<T>>(ops: A, d: T) -> bool {
    call_ensures(A::is_finite, (&ops, d), true) && call_ensures(A::is_positive, (&ops, d), true)
}

/// `d` is not finite, or not positive.
pub open spec fn is_unusable<T, A: Arithmetic<T>>(ops: A, d: T) -> bool {
    call_ensures(A::is_finite, (&ops, d), false) || call_ensures(A::is_positive, (&ops, d), false)
}

/// The diagonal preconditioner of a diagonal, or the first entry that has no
/// use as a divisor.
pub open spec fn inversion_outcome<T, A: Arithmetic<T>>(
    ops: A,
    diagonal: Seq<T>,
    result: Result<DiagonalPreconditioner<T>, BuildError>,
) -> bool {
    match result {
        Ok(p) => {
            &&& p.spec_inv_diag().len() == diagonal.len()
            &&& forall|i: int|
                0 <= i < diagonal.len() ==> is_usable(ops, #[trigger] diagonal[i])
                    && crate::arithmetic::reciprocal_gives(ops, diagonal[i], p.spec_inv_diag()[i])
        },
        Err(e) => e matches BuildError::SingularDiagonal { block, index } && block == "diagonal"
            && index < diagonal.len() && is_unusable(ops, diagonal[index as int]) && (forall|i: int|
            0 <= i < index ==> is_usable(ops, #[trigger] diagonal[i])),
    }
}

/// Invert a diagonal, stopping at the first entry that is not finite and positive.
pub fn invert_diagonal<T: Copy, A: Arithmetic<T>>(diagonal: &[T], ops: &A) -> (result: Result<
    DiagonalPreconditioner<T>,
    BuildError,
>)
    ensures
        inversion_outcome(*ops, diagonal@, result),
{
    let n: usize = diagonal.len();
    let mut inv_diag: Vec<T> = Vec::with_capacity(n);
    let mut index: usize = 0;
    while index < n
        invariant
            index <= n == diagonal@.len(),
            inv_diag@.len() == index,
            forall|i: int|
                0 <= i < index ==> is_usable(*ops, #[trigger] diagonal@[i])
                    && crate::arithmetic::reciprocal_gives(*ops, diagonal@[i], inv_diag@[i]),
        decreases n - index,
    {
        let d: T = diagonal[index];
        if !ops.is_finite(d) || !ops.is_positive(d) {
            return Err(BuildError::SingularDiagonal { block: "diagonal", index });
        }
        let one: T = ops.one();
        let inverse: T = ops.divide(one, d);
        assert(crate::arithmetic::one_gives(*ops, one));
        assert(crate::arithmetic::reciprocal_gives(*ops, d, inverse));
        let ghost so_far = inv_diag@;
        inv_diag.push(inverse);
        assert forall|i: int| 0 <= i < index + 1 implies is_usable(*ops, #[trigger] diagonal@[i])
            && crate::arithmetic::reciprocal_gives(*ops, diagonal@[i], inv_diag@[i]) by {
            if i < index {
                assert(inv_diag@[i] == so_far[i]);
            }
        }
        index = index + 1;
    }
    Ok(DiagonalPreconditioner::new(inv_diag))
}

/// What building the diagonal preconditioner gives.
pub open spec fn diagonal_outcome<T, A: Arithmetic<T>>(
    ops: A,
    design: Design<'_>,
    weights: Option<Seq<T>>,
    result: Result<DiagonalPreconditioner<T>, BuildError>,
) -> bool {
    exists|diagonal: Seq<T>| #[trigger]
        is_gramian_diagonal(ops, design, weights, diagonal) && inversion_outcome(
            ops,
            diagonal,
            result,
        )
}

/// Build the diagonal preconditioner of a design.
pub fn build_diagonal<T: Copy, A: Arithmetic<T>>(
    design: &Design<'_>,
    weights: Option<&[T]>,
    ops: &A,
) -> (result: Result<DiagonalPreconditioner<T>, BuildError>)
    requires
        design.wf(),
        design.is_plain(),
        weights matches Some(given) ==> given@.len() == design.n_obs,
    ensures
        diagonal_outcome(
            *ops,
            *design,
            crate::domain::local_domains::optional_view(weights),
            result,
        ),
{
    let diagonal: Vec<T> = gramian_diagonal(design, weights, ops);
    invert_diagonal(diagonal.as_slice(), ops)
}

// ---------------------------------------------------------------------------
// Additive Schwarz
// ---------------------------------------------------------------------------

/// Builds the solver of one subdomain's local system.
pub trait LocalSolverBuilder<T, S> {
    /// Factor the cross-tab as the configuration says.
    fn build(&self, cross_tab: CrossTab<T>, config: &LocalSolverConfig) -> Result<S, BuildError>;
}

/// `answer` is what the builder makes of a cross-tab.
pub open spec fn builds_to<T, S, L: LocalSolverBuilder<T, S>>(
    builder: L,
    cross_tab: CrossTab<T>,
    config: &LocalSolverConfig,
    answer: Result<S, BuildError>,
) -> bool {
    call_ensures(<L as LocalSolverBuilder<T, S>>::build, (&builder, cross_tab, config), answer)
}

/// What building a subdomain's entry gives: the builder's failure, or the core
/// paired with the solver that was built.
pub open spec fn entry_outcome<T, S: LocalSolver<T>, L: LocalSolverBuilder<T, S>>(
    builder: L,
    pair: (Subdomain, CrossTab<T>),
    config: &LocalSolverConfig,
    result: Result<SubdomainEntry<S>, BuildError>,
) -> bool {
    exists|answer: Result<S, BuildError>| #[trigger]
        builds_to(builder, pair.1, config, answer) && entry_follows::<T, S>(
            pair.0,
            answer,
            result,
        )
}

/// The entry that follows from the builder's answer.
pub open spec fn entry_follows<T, S: LocalSolver<T>>(
    domain: Subdomain,
    answer: Result<S, BuildError>,
    result: Result<SubdomainEntry<S>, BuildError>,
) -> bool {
    match answer {
        Err(e) => result == Err::<SubdomainEntry<S>, BuildError>(e),
        Ok(solver) => match result {
            Ok(entry) => crate::schwarz_precond::local_solve::pairing_outcome::<T, S>(
                domain.core,
                solver,
                Ok(entry),
            ),
            Err(e) => e matches BuildError::Preconditioner(source)
                && crate::schwarz_precond::local_solve::pairing_outcome::<T, S>(
                domain.core,
                solver,
                Err(source),
            ),
        },
    }
}

/// Pair a subdomain's core with the solver that was built for it.
pub fn finish_entry<T, S: LocalSolver<T>>(domain: Subdomain, answer: Result<S, BuildError>) -> (result:
    Result<SubdomainEntry<S>, BuildError>)
    ensures
        entry_follows::<T, S>(domain, answer, result),
{
    match answer {
        Err(e) => Err(e),
        Ok(solver) => match SubdomainEntry::try_new::<T>(domain.core, solver) {
            Ok(entry) => Ok(entry),
            Err(source) => Err(BuildError::Preconditioner(source)),
        },
    }
}

/// Build a single entry from a subdomain and its cross-tab.
pub fn build_entry<T, S: LocalSolver<T>, L: LocalSolverBuilder<T, S>>(
    domain: Subdomain,
    cross_tab: CrossTab<T>,
    config: &LocalSolverConfig,
    builder: &L,
) -> (result: Result<SubdomainEntry<S>, BuildError>)
    ensures
        entry_outcome(*builder, (domain, cross_tab), config, result),
{
    let ghost pair = (domain, cross_tab);
    let answer: Result<S, BuildError> = builder.build(cross_tab, config);
    assert(builds_to(*builder, pair.1, config, answer));
    let result = finish_entry::<T, S>(domain, answer);
    assert(entry_follows::<T, S>(pair.0, answer, result));
    result
}

/// `entries[d]` is the entry of pair `d`.
pub open spec fn are_entries<T, S: LocalSolver<T>, L: LocalSolverBuilder<T, S>>(
    builder: L,
    pairs: Seq<(Subdomain, CrossTab<T>)>,
    config: &LocalSolverConfig,
    entries: Seq<SubdomainEntry<S>>,
) -> bool {
    forall|d: int|
        0 <= d < entries.len() ==> #[trigger] is_entry_at(builder, pairs, config, entries, d)
}

/// `entries[d]` is the entry of pair `d`.
pub open spec fn is_entry_at<T, S: LocalSolver<T>, L: LocalSolverBuilder<T, S>>(
    builder: L,
    pairs: Seq<(Subdomain, CrossTab<T>)>,
    config: &LocalSolverConfig,
    entries: Seq<SubdomainEntry<S>>,
    d: int,
) -> bool {
    entry_outcome(builder, pairs[d], config, Ok(entries[d]))
}

/// What building all entries gives: the entries in order, or the failure of the
/// first pair that has one.
pub open spec fn entries_outcome<T, S: LocalSolver<T>, L: LocalSolverBuilder<T, S>>(
    builder: L,
    pairs: Seq<(Subdomain, CrossTab<T>)>,
    config: &LocalSolverConfig,
    result: Result<Vec<SubdomainEntry<S>>, BuildError>,
) -> bool {
    match result {
        Ok(entries) => entries@.len() == pairs.len() && are_entries(
            builder,
            pairs,
            config,
            entries@,
        ),
        Err(e) => exists|before: Seq<SubdomainEntry<S>>|
            {
                &&& before.len() < pairs.len()
                &&& #[trigger] are_entries(builder, pairs, config, before)
                &&& entry_outcome::<T, S, L>(builder, pairs[before.len() as int], config, Err(e))
            },
    }
}

/// Build the entries of all subdomains in parallel.
pub fn build_entries_from_pairs<
    T: Send,
    S: LocalSolver<T> + Send,
    L: LocalSolverBuilder<T, S> + Sync,
>(domain_pairs: Vec<(Subdomain, CrossTab<T>)>, config: &LocalSolverConfig, builder: &L) -> (result:
    Result<Vec<SubdomainEntry<S>>, BuildError>)
    ensures
        entries_outcome(*builder, domain_pairs@, config, result),
{
    let f = |pair: (Subdomain, CrossTab<T>)| -> (entry: Result<SubdomainEntry<S>, BuildError>)
        ensures
            is_entry_of(builder, pair, config, entry),
        {
            let (domain, cross_tab) = pair;
            build_entry(domain, cross_tab, config, builder)
        };
    let built: Vec<Result<SubdomainEntry<S>, BuildError>> = par_map_items(domain_pairs, f);
    let mut entries: Vec<SubdomainEntry<S>> = Vec::with_capacity(built.len());
    for entry in iter: built
        invariant
            iter.seq() == built@,
            built@.len() == domain_pairs@.len(),
            forall|d: int|
                0 <= d < built@.len() ==> is_entry_of(
                    builder,
                    domain_pairs@[d],
                    config,
                    #[trigger] built@[d],
                ),
            entries@.len() == iter.index(),
            are_entries(*builder, domain_pairs@, config, entries@),
    {
        let ghost d = entries@.len() as int;
        let ghost before = entries@;
        assert(is_entry_of(builder, domain_pairs@[d], config, built@[d]));
        match entry {
            Err(e) => {
                assert(are_entries(*builder, domain_pairs@, config, before));
                return Err(e);
            },
            Ok(entry) => {
                entries.push(entry);
                assert forall|k: int| 0 <= k < entries@.len() implies #[trigger] is_entry_at(
                    *builder,
                    domain_pairs@,
                    config,
                    entries@,
                    k,
                ) by {
                    if k < d {
                        assert(is_entry_at(*builder, domain_pairs@, config, before, k));
                    }
                }
            },
        }
    }
    Ok(entries)
}

/// `entry` is the entry of `pair`.
spec fn is_entry_of<T, S: LocalSolver<T>, L: LocalSolverBuilder<T, S>>(
    builder: &L,
    pair: (Subdomain, CrossTab<T>),
    config: &LocalSolverConfig,
    entry: Result<SubdomainEntry<S>, BuildError>,
) -> bool {
    entry_outcome(*builder, pair, config, entry)
}

/// What building the additive preconditioner of given subdomains gives.
pub open spec fn additive_outcome<T, S: LocalSolver<T>, L: LocalSolverBuilder<T, S>>(
    builder: L,
    domains: Seq<(Subdomain, CrossTab<T>)>,
    n_dofs: nat,
    config: &LocalSolverConfig,
    strategy: ReductionStrategy,
    result: Result<SchwarzPreconditioner<S>, BuildError>,
) -> bool {
    exists|entries: Result<Vec<SubdomainEntry<S>>, BuildError>| #[trigger]
        entries_outcome(builder, domains, config, entries) && additive_follows::<T, S>(
            entries,
            n_dofs,
            strategy,
            result,
        )
}

/// The additive preconditioner that follows from the entries.
pub open spec fn additive_follows<T, S: LocalSolver<T>>(
    entries: Result<Vec<SubdomainEntry<S>>, BuildError>,
    n_dofs: nat,
    strategy: ReductionStrategy,
    result: Result<SchwarzPreconditioner<S>, BuildError>,
) -> bool {
    match entries {
        Err(e) => result == Err::<SchwarzPreconditioner<S>, BuildError>(e),
        Ok(entries) => match result {
            Ok(p) => crate::schwarz_precond::additive::assembly_outcome::<T, S>(
                entries@,
                n_dofs,
                strategy,
                Ok(p),
            ),
            Err(e) => e matches BuildError::Preconditioner(source)
                && crate::schwarz_precond::additive::assembly_outcome::<T, S>(
                entries@,
                n_dofs,
                strategy,
                Err(source),
            ),
        },
    }
}

/// Build additive Schwarz with an explicit reduction strategy.
pub fn build_additive_with_strategy<
    T: Send,
    S: LocalSolver<T> + Send,
    L: LocalSolverBuilder<T, S> + Sync,
>(
    domains: Vec<(Subdomain, CrossTab<T>)>,
    n_dofs: usize,
    config: &LocalSolverConfig,
    strategy: ReductionStrategy,
    builder: &L,
) -> (result: Result<SchwarzPreconditioner<S>, BuildError>)
    ensures
        additive_outcome(*builder, domains@, n_dofs as nat, config, strategy, result),
{
    let entries: Result<Vec<SubdomainEntry<S>>, BuildError> = build_entries_from_pairs(
        domains,
        config,
        builder,
    );
    assert(entries_outcome(*builder, domains@, config, entries));
    match entries {
        Err(e) => Err(e),
        Ok(list) => {
            match SchwarzPreconditioner::new::<T>(list, n_dofs, strategy) {
                Ok(p) => Ok(p),
                Err(source) => Err(BuildError::Preconditioner(source)),
            }
        },
    }
}

// ---------------------------------------------------------------------------
// Preconditioner handle
// ---------------------------------------------------------------------------

/// Handle to a pre-built fixed-effects preconditioner.
///
/// Cloning is cheap: the factorization is shared, not copied. It never changes
/// once the handle exists.
#[derive(Debug)]
pub struct Preconditioner<T, S> {
    inner: Variant<T, S>,
}

/// The kinds of preconditioner.
#[derive(Debug)]
pub enum Variant<T, S> {
    // Keep Additive first: stored preconditioners number the variants by position.
    /// Additive Schwarz.
    Additive(SchwarzPreconditioner<S>),
    /// Diagonal.
    Diagonal(DiagonalPreconditioner<T>),
}

impl<T, S> Clone for Preconditioner<T, S> {
    /// Another handle on the same factorization.
    fn clone(&self) -> (handle: Self)
        ensures
            handle == *self,
    {
        Preconditioner {
            inner: match &self.inner {
                Variant::Additive(p) => Variant::Additive(p.clone()),
                Variant::Diagonal(p) => Variant::Diagonal(p.clone()),
            },
        }
    }
}

/// What applying a preconditioner does.
pub open spec fn handle_apply_outcome<
    T,
    A: Arithmetic<T>,
    S: LocalSolver<T>,
>(
    ops: A,
    variant: Variant<T, S>,
    x: Seq<T>,
    before: Seq<T>,
    after: Seq<T>,
    result: Result<(), SolveError>,
) -> bool {
    match variant {
        Variant::Additive(p) => crate::schwarz_precond::apply::apply_outcome(
            ops,
            p,
            x,
            before,
            after,
            result,
        ),
        Variant::Diagonal(p) => scaling_outcome(
            ops,
            p.spec_inv_diag(),
            x,
            before,
            after,
            result,
        ),
    }
}

impl<T, S> Preconditioner<T, S> {
    /// What the handle holds.
    pub closed spec fn variant(self) -> Variant<T, S> {
        self.inner
    }

    /// Number of unknowns.
    pub open spec fn spec_n_dofs(self) -> nat {
        match self.variant() {
            Variant::Additive(p) => p.spec_n_dofs(),
            Variant::Diagonal(p) => p.spec_inv_diag().len(),
        }
    }

    /// Handle on an additive preconditioner.
    pub fn additive(inner: SchwarzPreconditioner<S>) -> (handle: Self)
        ensures
            handle.variant() == Variant::<T, S>::Additive(inner),
    {
        Preconditioner { inner: Variant::Additive(inner) }
    }

    /// Handle on a diagonal preconditioner.
    pub fn diagonal(inner: DiagonalPreconditioner<T>) -> (handle: Self)
        ensures
            handle.variant() == Variant::<T, S>::Diagonal(inner),
    {
        Preconditioner { inner: Variant::Diagonal(inner) }
    }

    /// What the handle holds.
    pub fn as_variant(&self) -> (held: &Variant<T, S>)
        ensures
            *held == self.variant(),
    {
        &self.inner
    }

    /// Stable display name for the concrete preconditioner variant.
    pub fn variant_name(&self) -> (name: &'static str)
        ensures
            name == match self.variant() {
                Variant::Additive(_) => "Additive",
                Variant::Diagonal(_) => "Diagonal",
            },
    {
        match &self.inner {
            Variant::Additive(_) => "Additive",
            Variant::Diagonal(_) => "Diagonal",
        }
    }

    /// Number of rows of the underlying linear operator.
    pub fn nrows(&self) -> (n: usize)
        ensures
            n == self.spec_n_dofs(),
    {
        match &self.inner {
            Variant::Additive(p) => p.nrows(),
            Variant::Diagonal(p) => p.n_dofs(),
        }
    }

    /// Number of columns of the underlying linear operator.
    pub fn ncols(&self) -> (n: usize)
        ensures
            n == self.spec_n_dofs(),
    {
        match &self.inner {
            Variant::Additive(p) => p.ncols(),
            Variant::Diagonal(p) => p.n_dofs(),
        }
    }

    /// Apply the preconditioner: writes `M^{-1} x` into `y`.
    pub fn apply<A: Arithmetic<T> + Sync, B: AtomicBins<T, A>>(
        &self,
        x: &[T],
        y: &mut [T],
        ops: &A,
        atomic: &B,
    ) -> (result: Result<(), SolveError>) where T: Copy + Send + Sync, S: LocalSolver<T> + Sync
        ensures
            handle_apply_outcome(
                *ops,
                self.variant(),
                x@,
                old(y)@,
                final(y)@,
                result,
            ),
    {
        match &self.inner {
            Variant::Additive(p) => p.apply(x, y, ops, atomic),
            Variant::Diagonal(p) => p.apply_scaling(x, y, ops),
        }
    }

    /// Apply the transpose, which is the preconditioner itself.
    pub fn apply_adjoint<A: Arithmetic<T> + Sync, B: AtomicBins<T, A>>(
        &self,
        x: &[T],
        y: &mut [T],
        ops: &A,
        atomic: &B,
    ) -> (result: Result<(), SolveError>) where T: Copy + Send + Sync, S: LocalSolver<T> + Sync
        ensures
            handle_apply_outcome(
                *ops,
                self.variant(),
                x@,
                old(y)@,
                final(y)@,
                result,
            ),
    {
        match &self.inner {
            Variant::Additive(p) => p.apply_adjoint(x, y, ops, atomic),
            Variant::Diagonal(p) => p.apply_scaling(x, y, ops),
        }
    }
}

// ---------------------------------------------------------------------------
// Building from a configuration
// ---------------------------------------------------------------------------

/// `out` are the caller's weights in internal row order, as scalars.
pub open spec fn are_internal_weights<T, A: Arithmetic<T>>(
    ops: A,
    design: Design<'_>,
    weights: Option<Seq<Binary64>>,
    out: Option<Seq<T>>,
) -> bool {
    match weights {
        None => out is None,
        Some(given) => out matches Some(w) && w.len() == design.n_obs && (forall|k: int|
            0 <= k < w.len() ==> call_ensures(
                A::from_binary64,
                (&ops, given[design.spec_caller_row(k)]),
                #[trigger] w[k],
            )),
    }
}

/// The elements of an optional vector.
pub open spec fn optional_vec<T>(values: Option<Vec<T>>) -> Option<Seq<T>> {
    match values {
        None => None,
        Some(v) => Some(v@),
    }
}

/// Bring the caller's weights into internal row order, as scalars.
pub fn internal_weights<T, A: Arithmetic<T>>(
    design: &Design<'_>,
    weights: Option<&[Binary64]>,
    ops: &A,
) -> (out: Option<Vec<T>>)
    requires
        design.wf(),
        weights matches Some(given) ==> given@.len() == design.n_obs_input,
    ensures
        are_internal_weights(
            *ops,
            *design,
            crate::domain::local_domains::optional_view(weights),
            optional_vec(out),
        ),
{
    match weights {
        None => None,
        Some(given) => {
            let n: usize = design.n_obs;
            let mut w: Vec<T> = Vec::with_capacity(n);
            let mut k: usize = 0;
            while k < n
                invariant
                    k <= n == design.n_obs,
                    design.wf(),
                    given@.len() == design.n_obs_input,
                    w@.len() == k,
                    forall|j: int|
                        0 <= j < k ==> call_ensures(
                            A::from_binary64,
                            (ops, given@[design.spec_caller_row(j)]),
                            #[trigger] w@[j],
                        ),
                decreases n - k,
            {
                let row: usize = design.caller_row(k);
                assert(row == design.spec_caller_row(k as int));
                w.push(ops.from_binary64(given[row]));
                k = k + 1;
            }
            Some(w)
        },
    }
}

/// What building a preconditioner from accepted weights gives.
///
/// Without factor pairs there is nothing for additive Schwarz to work on, and
/// the solve stays unpreconditioned.
pub open spec fn configured_outcome<
    T,
    S: LocalSolver<T>,
    A: Arithmetic<T>,
    L: LocalSolverBuilder<T, S>,
>(
    ops: A,
    builder: L,
    design: Design<'_>,
    weights: Option<Seq<T>>,
    config: PreconditionerConfig,
    result: Result<Option<Preconditioner<T, S>>, BuildError>,
) -> bool {
    match config {
        PreconditionerConfig::Off => result == Ok::<Option<Preconditioner<T, S>>, BuildError>(None),
        PreconditionerConfig::Additive { local_solver, reduction } => {
            exists|domains: Seq<(Subdomain, CrossTab<T>)>|
                #![trigger crate::domain::local_domains::are_local_domains(ops, design, weights, domains)]
                {
                    &&& crate::domain::local_domains::are_local_domains(
                        ops,
                        design,
                        weights,
                        domains,
                    )
                    &&& if domains.len() == 0 {
                        result == Ok::<Option<Preconditioner<T, S>>, BuildError>(None)
                    } else {
                        is_additive_result(
                            builder,
                            domains,
                            design.n_dofs as nat,
                            &local_solver,
                            reduction,
                            result,
                        )
                    }
                }
        },
        PreconditionerConfig::Diagonal => is_diagonal_result(ops, design, weights, result),
    }
}

/// Additive Schwarz pairs factors: on a design with fewer than two of them the
/// solve stays unpreconditioned, however many observations there are. With two
/// or more the result is an additive preconditioner or the failure to build it.
pub proof fn law_additive_needs_two_factors<
    T,
    S: LocalSolver<T>,
    A: Arithmetic<T>,
    L: LocalSolverBuilder<T, S>,
>(
    ops: A,
    builder: L,
    design: Design<'_>,
    weights: Option<Seq<T>>,
    local_solver: LocalSolverConfig,
    reduction: ReductionStrategy,
    result: Result<Option<Preconditioner<T, S>>, BuildError>,
)
    requires
        design.wf(),
        design.is_plain(),
        configured_outcome(
            ops,
            builder,
            design,
            weights,
            PreconditionerConfig::Additive { local_solver, reduction },
            result,
        ),
    ensures
        design.terms@.len() < 2 <==> result == Ok::<Option<Preconditioner<T, S>>, BuildError>(None),
        design.terms@.len() >= 2 ==> match result {
            Ok(handle) => handle matches Some(p) && p.variant() is Additive,
            Err(_) => true,
        },
{
    let domains = choose|domains: Seq<(Subdomain, CrossTab<T>)>|
        #![trigger crate::domain::local_domains::are_local_domains(ops, design, weights, domains)]
        {
            &&& crate::domain::local_domains::are_local_domains(ops, design, weights, domains)
            &&& if domains.len() == 0 {
                result == Ok::<Option<Preconditioner<T, S>>, BuildError>(None)
            } else {
                is_additive_result(
                    builder,
                    domains,
                    design.n_dofs as nat,
                    &local_solver,
                    reduction,
                    result,
                )
            }
        };
    crate::domain::local_domains::law_subdomains_need_two_factors(ops, design, weights, domains);
}

/// The result holds what building additive Schwarz gave.
pub open spec fn is_additive_result<T, S: LocalSolver<T>, L: LocalSolverBuilder<T, S>>(
    builder: L,
    domains: Seq<(Subdomain, CrossTab<T>)>,
    n_dofs: nat,
    config: &LocalSolverConfig,
    strategy: ReductionStrategy,
    result: Result<Option<Preconditioner<T, S>>, BuildError>,
) -> bool {
    match result {
        Ok(handle) => handle matches Some(p) && p.variant() matches Variant::Additive(inner)
            && additive_outcome(builder, domains, n_dofs, config, strategy, Ok(inner)),
        Err(e) => additive_outcome::<T, S, L>(builder, domains, n_dofs, config, strategy, Err(e)),
    }
}

/// The result holds what building the diagonal preconditioner gave.
pub open spec fn is_diagonal_result<T, S, A: Arithmetic<T>>(
    ops: A,
    design: Design<'_>,
    weights: Option<Seq<T>>,
    result: Result<Option<Preconditioner<T, S>>, BuildError>,
) -> bool {
    match result {
        Ok(handle) => handle matches Some(p) && p.variant() matches Variant::Diagonal(inner)
            && diagonal_outcome(ops, design, weights, Ok(inner)),
        Err(e) => diagonal_outcome(ops, design, weights, Err(e)),
    }
}

/// Build a preconditioner from accepted weights in internal row order.
pub fn build_configured<
    T: Copy + Send + Sync,
    S: LocalSolver<T> + Send,
    A: Arithmetic<T> + Sync,
    L: LocalSolverBuilder<T, S> + Sync,
>(
    design: &Design<'_>,
    weights: Option<&[T]>,
    config: &PreconditionerConfig,
    ops: &A,
    builder: &L,
) -> (result: Result<Option<Preconditioner<T, S>>, BuildError>)
    requires
        design.wf(),
        design.is_plain(),
        weights matches Some(given) ==> given@.len() == design.n_obs,
    ensures
        configured_outcome(
            *ops,
            *builder,
            *design,
            crate::domain::local_domains::optional_view(weights),
            *config,
            result,
        ),
        result matches Ok(Some(p)) ==> p.spec_n_dofs() == design.n_dofs,
{
    let ghost w = crate::domain::local_domains::optional_view(weights);
    match config {
        PreconditionerConfig::Off => Ok(None),
        PreconditionerConfig::Additive { local_solver, reduction } => {
            let domains: Vec<(Subdomain, CrossTab<T>)> = build_local_domains(design, weights, ops);
            let ghost listed = domains@;
            assert(crate::domain::local_domains::are_local_domains(*ops, *design, w, listed));
            if domains.len() == 0 {
                return Ok(None);
            }
            match build_additive_with_strategy(
                domains,
                design.n_dofs,
                local_solver,
                *reduction,
                builder,
            ) {
                Ok(p) => Ok(Some(Preconditioner::additive(p))),
                Err(e) => Err(e),
            }
        },
        PreconditionerConfig::Diagonal => match build_diagonal(design, weights, ops) {
            Ok(p) => Ok(Some(Preconditioner::diagonal(p))),
            Err(e) => Err(e),
        },
    }
}

/// What building a preconditioner gives: the complaint about the weights, if
/// there is one, or what the configuration asks for.
pub open spec fn preconditioner_outcome<
    T,
    S: LocalSolver<T>,
    A: Arithmetic<T>,
    L: LocalSolverBuilder<T, S>,
>(
    ops: A,
    builder: L,
    design: Design<'_>,
    weights: Option<Seq<Binary64>>,
    config: Option<PreconditionerConfig>,
    result: Result<Option<Preconditioner<T, S>>, BuildError>,
) -> bool {
    exists|checked: Result<(), BuildError>|
        {
            &&& #[trigger] crate::domain::design::weights_outcome(
                crate::domain::design::optional_rows(design.rows),
                design.n_obs_input as nat,
                weights,
                checked,
            )
            &&& match checked {
                Err(e) => result == Err::<Option<Preconditioner<T, S>>, BuildError>(e),
                Ok(()) => is_built(
                    ops,
                    builder,
                    design,
                    weights,
                    resolved_config(config),
                    result,
                ),
            }
        }
}

/// The configuration, or the default where there is none.
pub open spec fn resolved_config(config: Option<PreconditionerConfig>) -> PreconditionerConfig {
    match config {
        None => crate::config::default_preconditioner_config(),
        Some(config) => config,
    }
}

/// The result is what the configuration gives with the weights in internal order.
pub open spec fn is_built<T, S: LocalSolver<T>, A: Arithmetic<T>, L: LocalSolverBuilder<T, S>>(
    ops: A,
    builder: L,
    design: Design<'_>,
    weights: Option<Seq<Binary64>>,
    config: PreconditionerConfig,
    result: Result<Option<Preconditioner<T, S>>, BuildError>,
) -> bool {
    exists|internal: Option<Seq<T>>| #[trigger]
        are_internal_weights(ops, design, weights, internal) && configured_outcome(
            ops,
            builder,
            design,
            internal,
            config,
            result,
        )
}

/// Build a [`Preconditioner`] from a design and optional observation weights.
///
/// The weights are in caller row order.
pub fn build_preconditioner<
    T: Copy + Send + Sync,
    S: LocalSolver<T> + Send,
    A: Arithmetic<T> + Sync,
    L: LocalSolverBuilder<T, S> + Sync,
>(
    design: &Design<'_>,
    weights: Option<&[Binary64]>,
    config: Option<&PreconditionerConfig>,
    ops: &A,
    builder: &L,
) -> (result: Result<Option<Preconditioner<T, S>>, BuildError>)
    requires
        design.wf(),
        design.is_plain(),
    ensures
        preconditioner_outcome(
            *ops,
            *builder,
            *design,
            crate::domain::local_domains::optional_view(weights),
            match config {
                None => None,
                Some(config) => Some(*config),
            },
            result,
        ),
        result matches Ok(Some(p)) ==> p.spec_n_dofs() == design.n_dofs,
{
    match design.validate_weights(weights) {
        Ok(()) => {},
        Err(e) => {
            return Err(e);
        },
    }
    let default_config = PreconditionerConfig::default();
    let resolved: &PreconditionerConfig = match config {
        None => &default_config,
        Some(config) => config,
    };
    let internal: Option<Vec<T>> = internal_weights(design, weights, ops);
    let w: Option<&[T]> = match &internal {
        None => None,
        Some(w) => Some(w.as_slice()),
    };
    let result = build_configured(design, w, resolved, ops, builder);
    proof {
        let given = crate::domain::local_domains::optional_view(weights);
        assert(optional_vec(internal) == crate::domain::local_domains::optional_view(w));
        assert(are_internal_weights(*ops, *design, given, optional_vec(internal)));
        assert(is_built(*ops, *builder, *design, given, *resolved, result));
        assert(crate::domain::design::weights_outcome(
            crate::domain::design::optional_rows(design.rows),
            design.n_obs_input as nat,
            given,
            Ok(()),
        ));
    }
    result
}

} // verus!
