//! The rectangular design operator and what is built on it.
//!
//! The iterative solver works on `A = W^{1/2} D` rather than on the assembled
//! Gramian `G = D^T W D`. `A x` gathers coefficients per observation, `A^T x`
//! scatters observations per coefficient.

pub mod design_operator;
pub mod fit;
pub mod laws;
pub mod meaning;
pub mod preconditioner;
pub mod schwarz;

use vstd::prelude::*;

use crate::arithmetic::Arithmetic;
use crate::domain::design::Design;
use crate::kernels::{scatter_add_single_factor, AtomicBins, ScatterStrategy};
use crate::parallel::par_map;

verus! {

/// Minimum number of rows before scatter/gather loops are parallelized.
pub const PAR_THRESHOLD: usize = 10_000;

/// Rows per task of a parallel gather.
pub const CHUNK_SIZE: usize = 4096;

/// Factor-level threshold for choosing between fold and atomic scatter-add.
///
/// Factors with fewer levels use thread-local fold/reduce; larger factors use
/// atomic accumulation, which has low contention when bins vastly outnumber
/// threads.
pub const SCATTER_LOCAL_THRESHOLD: usize = 100_000;

impl<'a> Design<'a> {
    /// Every term has an intercept and nothing else.
    pub open spec fn is_plain(self) -> bool {
        forall|t: int|
            0 <= t < self.terms@.len() ==> (#[trigger] self.terms@[t]).columns@.len() == 1
    }

    /// The coefficients that load onto observation `i`, one per term.
    pub open spec fn gathered<T>(self, src: Seq<T>, i: int) -> Seq<T> {
        Seq::new(
            self.terms@.len(),
            |q: int| src[self.terms@[q].offset + self.frame.levels()[q][i]],
        )
    }
}

/// A term's coefficients lie within the coefficient space.
pub proof fn lemma_term_in_range(design: Design<'_>, t: int)
    requires
        design.wf(),
        design.is_plain(),
        0 <= t < design.terms@.len(),
    ensures
        design.terms@[t].offset + design.terms@[t].n_levels <= design.n_dofs,
{
    let terms = design.terms@;
    lemma_offset_monotone(terms, t + 1, terms.len() as int);
    assert(terms[t].offset == crate::domain::design::offset_before(terms, t));
    assert(terms[t].columns@.len() == 1);
    assert(terms[t].spec_n_dofs() == terms[t].n_levels) by (nonlinear_arith)
        requires
            terms[t].spec_n_dofs() == terms[t].columns@.len() * terms[t].n_levels as nat,
            terms[t].columns@.len() == 1,
    ;
}

/// The coefficients of an earlier term come before those of a later one.
pub proof fn lemma_terms_apart(design: Design<'_>, q: int, r: int)
    requires
        design.wf(),
        design.is_plain(),
        0 <= q < r < design.terms@.len(),
    ensures
        design.terms@[q].offset + design.terms@[q].n_levels <= design.terms@[r].offset,
{
    let terms = design.terms@;
    lemma_offset_monotone(terms, q + 1, r);
    assert(terms[q].offset == crate::domain::design::offset_before(terms, q));
    assert(terms[r].offset == crate::domain::design::offset_before(terms, r));
    assert(terms[q].columns@.len() == 1);
    assert(terms[q].spec_n_dofs() == terms[q].n_levels) by (nonlinear_arith)
        requires
            terms[q].spec_n_dofs() == terms[q].columns@.len() * terms[q].n_levels as nat,
            terms[q].columns@.len() == 1,
    ;
}

proof fn lemma_offset_monotone(terms: Seq<crate::domain::columns::TermMeta>, a: int, b: int)
    requires
        0 <= a <= b,
    ensures
        crate::domain::design::offset_before(terms, a) <= crate::domain::design::offset_before(
            terms,
            b,
        ),
    decreases b - a,
{
    if a < b {
        lemma_offset_monotone(terms, a, b - 1);
    }
}

// ---------------------------------------------------------------------------
// Gather
// ---------------------------------------------------------------------------

/// `after[i]` adds to `before[i]` the coefficients of row `i`, term by term.
pub open spec fn is_gather<T, A: Arithmetic<T>>(
    ops: A,
    design: Design<'_>,
    src: Seq<T>,
    before: Seq<T>,
    after: Seq<T>,
) -> bool {
    &&& after.len() == before.len()
    &&& forall|i: int|
        0 <= i < before.len() ==> crate::arithmetic::sums_to(
            ops,
            before[i],
            design.gathered(src, i),
            #[trigger] after[i],
        )
}

/// Add to `start` the coefficients of row `i`, term by term.
fn gather_row<T: Copy, A: Arithmetic<T>>(
    design: &Design<'_>,
    src: &[T],
    start: T,
    i: usize,
    ops: &A,
) -> (sum: T)
    requires
        design.wf(),
        design.is_plain(),
        src@.len() == design.n_dofs,
        i < design.n_obs,
    ensures
        crate::arithmetic::sums_to(*ops, start, design.gathered(src@, i as int), sum),
{
    let mut sum: T = start;
    let n_terms: usize = design.terms.len();
    let mut q: usize = 0;
    proof {
        crate::arithmetic::lemma_sums_to_nothing(*ops, start);
        assert(design.gathered(src@, i as int).take(0) =~= Seq::empty());
    }
    while q < n_terms
        invariant
            q <= n_terms == design.terms@.len(),
            design.wf(),
            design.is_plain(),
            src@.len() == design.n_dofs,
            i < design.n_obs,
            crate::arithmetic::sums_to(
                *ops,
                start,
                design.gathered(src@, i as int).take(q as int),
                sum,
            ),
        decreases n_terms - q,
    {
        let column: &[u32] = design.frame.level_column(q);
        proof {
            lemma_term_in_range(*design, q as int);
            assert(design.frame.levels()[q as int][i as int] < design.terms@[q as int].n_levels);
            assert(column@.len() == design.n_obs);
        }
        let slot: usize = design.terms[q].offset + column[i] as usize;
        let next: T = ops.plus(sum, src[slot]);
        proof {
            let items = design.gathered(src@, i as int);
            crate::arithmetic::lemma_sums_to_push(
                *ops,
                start,
                items.take(q as int),
                sum,
                src@[slot as int],
                next,
            );
            assert(items.take(q + 1) =~= items.take(q as int).push(src@[slot as int]));
        }
        sum = next;
        q = q + 1;
    }
    proof {
        let items = design.gathered(src@, i as int);
        assert(items.take(n_terms as int) =~= items);
    }
    sum
}

/// Gather-add: `dst[i] += src[offset_q + level(i, q)]` for each factor `q` and row `i`.
///
/// This is the core loop of `y = D x`. For large problems rows are processed
/// in parallel; either way each row adds its coefficients in term order.
pub fn gather_add<T: Copy + Send + Sync, A: Arithmetic<T> + Sync>(
    design: &Design<'_>,
    src: &[T],
    dst: &mut [T],
    ops: &A,
)
    requires
        design.wf(),
        design.is_plain(),
        src@.len() == design.n_dofs,
        old(dst)@.len() == design.n_obs,
    ensures
        is_gather(*ops, *design, src@, old(dst)@, final(dst)@),
{
    let ghost before = dst@;
    let n_rows: usize = design.n_obs;
    if n_rows > PAR_THRESHOLD {
        let start: &[T] = &*dst;
        let f = |i: usize| -> (sum: T)
            requires
                i < n_rows,
            ensures
                crate::arithmetic::sums_to(
                    *ops,
                    start@[i as int],
                    design.gathered(src@, i as int),
                    sum,
                ),
            { gather_row(design, src, start[i], i, ops) };
        let sums: Vec<T> = par_map(n_rows, CHUNK_SIZE, f);
        let mut i: usize = 0;
        while i < n_rows
            invariant
                i <= n_rows == dst@.len() == sums@.len() == before.len(),
                forall|j: int| 0 <= j < i ==> #[trigger] dst@[j] == sums@[j],
            decreases n_rows - i,
        {
            dst[i] = sums[i];
            i = i + 1;
        }
        proof {
            assert forall|j: int| 0 <= j < before.len() implies crate::arithmetic::sums_to(
                *ops,
                before[j],
                design.gathered(src@, j),
                #[trigger] dst@[j],
            ) by {
                assert(dst@[j] == sums@[j as usize as int]);
            }
        }
    } else {
        let n_terms: usize = design.terms.len();
        let mut q: usize = 0;
        proof {
            assert forall|i: int| 0 <= i < before.len() implies crate::arithmetic::sums_to(
                *ops,
                before[i],
                design.gathered(src@, i).take(0),
                #[trigger] dst@[i],
            ) by {
                crate::arithmetic::lemma_sums_to_nothing(*ops, before[i]);
                assert(design.gathered(src@, i).take(0) =~= Seq::empty());
            }
        }
        while q < n_terms
            invariant
                q <= n_terms == design.terms@.len(),
                design.wf(),
                design.is_plain(),
                src@.len() == design.n_dofs,
                n_rows == design.n_obs == dst@.len() == before.len(),
                forall|i: int|
                    0 <= i < before.len() ==> crate::arithmetic::sums_to(
                        *ops,
                        before[i],
                        design.gathered(src@, i).take(q as int),
                        #[trigger] dst@[i],
                    ),
            decreases n_terms - q,
        {
            let column: &[u32] = design.frame.level_column(q);
            let offset: usize = design.terms[q].offset;
            proof {
                lemma_term_in_range(*design, q as int);
                assert(column@.len() == design.n_obs);
            }
            let mut i: usize = 0;
            while i < n_rows
                invariant
                    i <= n_rows == design.n_obs == dst@.len() == before.len() == column@.len(),
                    q < design.terms@.len(),
                    design.wf(),
                    src@.len() == design.n_dofs,
                    offset == design.terms@[q as int].offset,
                    offset + design.terms@[q as int].n_levels <= design.n_dofs,
                    column@ == design.frame.levels()[q as int],
                    forall|j: int|
                        i <= j < before.len() ==> crate::arithmetic::sums_to(
                            *ops,
                            before[j],
                            design.gathered(src@, j).take(q as int),
                            #[trigger] dst@[j],
                        ),
                    forall|j: int|
                        0 <= j < i ==> crate::arithmetic::sums_to(
                            *ops,
                            before[j],
                            design.gathered(src@, j).take(q + 1),
                            #[trigger] dst@[j],
                        ),
                decreases n_rows - i,
            {
                assert(design.frame.levels()[q as int][i as int]
                    < design.terms@[q as int].n_levels);
                let current: T = dst[i];
                let slot: usize = offset + column[i] as usize;
                let next: T = ops.plus(current, src[slot]);
                proof {
                    let items = design.gathered(src@, i as int);
                    assert(crate::arithmetic::sums_to(
                        *ops,
                        before[i as int],
                        items.take(q as int),
                        dst@[i as int],
                    ));
                    crate::arithmetic::lemma_sums_to_push(
                        *ops,
                        before[i as int],
                        items.take(q as int),
                        current,
                        src@[slot as int],
                        next,
                    );
                    assert(items.take(q + 1) =~= items.take(q as int).push(src@[slot as int]));
                }
                dst[i] = next;
                i = i + 1;
            }
            q = q + 1;
        }
        proof {
            assert forall|i: int| 0 <= i < before.len() implies crate::arithmetic::sums_to(
                *ops,
                before[i],
                design.gathered(src@, i),
                #[trigger] dst@[i],
            ) by {
                let items = design.gathered(src@, i);
                assert(items.take(n_terms as int) =~= items);
            }
        }
    }
}

// ---------------------------------------------------------------------------
// Scatter
// ---------------------------------------------------------------------------

/// How a factor of `n_levels` levels is scattered over `n_rows` rows.
pub open spec fn spec_scatter_strategy(n_rows: nat, n_levels: nat) -> ScatterStrategy {
    if n_rows <= PAR_THRESHOLD {
        ScatterStrategy::Sequential
    } else if n_levels < SCATTER_LOCAL_THRESHOLD {
        ScatterStrategy::Fold
    } else {
        ScatterStrategy::Atomic
    }
}

/// How a factor of `n_levels` levels is scattered over `n_rows` rows.
pub fn scatter_strategy(n_rows: usize, n_levels: usize) -> (strategy: ScatterStrategy)
    ensures
        strategy == spec_scatter_strategy(n_rows as nat, n_levels as nat),
{
    if n_rows <= PAR_THRESHOLD {
        ScatterStrategy::Sequential
    } else if n_levels < SCATTER_LOCAL_THRESHOLD {
        ScatterStrategy::Fold
    } else {
        ScatterStrategy::Atomic
    }
}

/// Each term's coefficients receive the values of the rows at their level.
pub open spec fn is_scatter<T, A: Arithmetic<T>>(
    ops: A,
    design: Design<'_>,
    values: Seq<T>,
    before: Seq<T>,
    after: Seq<T>,
) -> bool {
    &&& after.len() == before.len()
    &&& forall|q: int|
        0 <= q < design.terms@.len() ==> #[trigger] is_term_scatter(
            ops,
            design,
            q,
            values,
            before,
            after,
        )
}

/// Term `q`'s coefficients receive the values of the rows at their level.
pub open spec fn is_term_scatter<T, A: Arithmetic<T>>(
    ops: A,
    design: Design<'_>,
    q: int,
    values: Seq<T>,
    before: Seq<T>,
    after: Seq<T>,
) -> bool {
    crate::kernels::scatter_outcome(
        ops,
        spec_scatter_strategy(design.n_obs as nat, design.terms@[q].n_levels as nat),
        design.frame.levels()[q],
        values,
        design.terms@[q].offset as int,
        design.terms@[q].n_levels as int,
        before,
        after,
    )
}

/// A term's outcome only looks at the term's own coefficients.
proof fn lemma_scatter_local<T, A: Arithmetic<T>>(
    ops: A,
    strategy: ScatterStrategy,
    codes: Seq<u32>,
    values: Seq<T>,
    offset: int,
    n_levels: int,
    before: Seq<T>,
    after: Seq<T>,
    before2: Seq<T>,
    after2: Seq<T>,
)
    requires
        crate::kernels::scatter_outcome(
            ops,
            strategy,
            codes,
            values,
            offset,
            n_levels,
            before,
            after,
        ),
        0 <= offset,
        0 <= n_levels,
        offset + n_levels <= before.len(),
        before.len() == before2.len(),
        forall|j: int| offset <= j < offset + n_levels ==> #[trigger] before[j] == before2[j],
        forall|j: int| offset <= j < offset + n_levels ==> #[trigger] after[j] == after2[j],
    ensures
        crate::kernels::scatter_outcome(
            ops,
            strategy,
            codes,
            values,
            offset,
            n_levels,
            before2,
            after2,
        ),
{
    assert(before.subrange(offset, offset + n_levels) =~= before2.subrange(
        offset,
        offset + n_levels,
    ));
    match strategy {
        ScatterStrategy::Sequential => {
            assert forall|level: int| 0 <= level < n_levels implies crate::arithmetic::sums_to(
                ops,
                before2[offset + level],
                #[trigger] crate::kernels::values_at(codes, values, level),
                after2[offset + level],
            ) by {
                assert(before[offset + level] == before2[offset + level]);
                assert(after[offset + level] == after2[offset + level]);
            }
        },
        ScatterStrategy::Fold => {
            assert forall|level: int| 0 <= level < n_levels implies crate::kernels::is_folded_sum(
                ops,
                before2[offset + level],
                #[trigger] crate::kernels::values_at(codes, values, level),
                after2[offset + level],
            ) by {
                assert(before[offset + level] == before2[offset + level]);
                assert(after[offset + level] == after2[offset + level]);
            }
        },
        ScatterStrategy::Atomic => {
            assert forall|level: int| 0 <= level < n_levels implies crate::kernels::is_accumulated(
                ops,
                before2[offset + level],
                #[trigger] crate::kernels::values_at(codes, values, level),
                after2[offset + level],
            ) by {
                assert(before[offset + level] == before2[offset + level]);
                assert(after[offset + level] == after2[offset + level]);
            }
        },
    }
}

/// Scatter-add: `dst[offset_q + level(i, q)] += values[i]` for each factor `q` and row `i`.
///
/// This is the core loop of `x = D^T r`. For large problems each factor's row
/// loop is parallel; factors are processed one after another so each gets the
/// full thread pool.
pub fn scatter_add<T: Copy + Send + Sync, A: Arithmetic<T> + Sync, B: AtomicBins<T, A>>(
    design: &Design<'_>,
    dst: &mut [T],
    values: &[T],
    ops: &A,
    atomic: &B,
)
    requires
        design.wf(),
        design.is_plain(),
        values@.len() == design.n_obs,
        old(dst)@.len() == design.n_dofs,
    ensures
        is_scatter(*ops, *design, values@, old(dst)@, final(dst)@),
{
    let ghost before = dst@;
    let n_terms: usize = design.terms.len();
    let mut q: usize = 0;
    while q < n_terms
        invariant
            q <= n_terms == design.terms@.len(),
            design.wf(),
            design.is_plain(),
            values@.len() == design.n_obs,
            dst@.len() == before.len() == design.n_dofs,
            forall|j: int|
                crate::domain::design::offset_before(design.terms@, q as int) <= j < before.len()
                    ==> #[trigger] dst@[j] == before[j],
            forall|s: int|
                0 <= s < q ==> #[trigger] is_term_scatter(
                    *ops,
                    *design,
                    s,
                    values@,
                    before,
                    dst@,
                ),
        decreases n_terms - q,
    {
        let offset: usize = design.terms[q].offset;
        let n_levels: usize = design.terms[q].n_levels;
        let codes: &[u32] = design.frame.level_column(q);
        let strategy = scatter_strategy(design.n_obs, n_levels);
        let ghost dst_before = dst@;
        proof {
            lemma_term_in_range(*design, q as int);
            assert(codes@.len() == design.n_obs);
            assert forall|i: int| 0 <= i < codes@.len() implies #[trigger] codes@[i]
                < n_levels by {
                assert(design.frame.levels()[q as int][i] < n_levels);
            }
        }
        scatter_add_single_factor(dst, offset, n_levels, codes, values, strategy, ops, atomic);
        proof {
            let terms = design.terms@;
            assert(terms[q as int].offset == crate::domain::design::offset_before(
                terms,
                q as int,
            ));
            lemma_plain_offset(*design, q as int);
            lemma_scatter_local(
                *ops,
                strategy,
                codes@,
                values@,
                offset as int,
                n_levels as int,
                dst_before,
                dst@,
                before,
                dst@,
            );
            assert forall|s: int| 0 <= s < q + 1 implies #[trigger] is_term_scatter(
                *ops,
                *design,
                s,
                values@,
                before,
                dst@,
            ) by {
                if s < q {
                    assert(is_term_scatter(
                        *ops,
                        *design,
                        s,
                        values@,
                        before,
                        dst_before,
                    ));
                    lemma_plain_offset(*design, s);
                    lemma_offset_monotone(terms, s + 1, q as int);
                    assert(terms[s].offset == crate::domain::design::offset_before(terms, s));
                    lemma_term_in_range(*design, s);
                    lemma_scatter_local(
                        *ops,
                        spec_scatter_strategy(design.n_obs as nat, terms[s].n_levels as nat),
                        design.frame.levels()[s],
                        values@,
                        terms[s].offset as int,
                        terms[s].n_levels as int,
                        before,
                        dst_before,
                        before,
                        dst@,
                    );
                }
            }
        }
        q = q + 1;
    }
}

/// In a plain design the next term starts one level count further.
pub proof fn lemma_plain_offset(design: Design<'_>, t: int)
    requires
        design.wf(),
        design.is_plain(),
        0 <= t < design.terms@.len(),
    ensures
        crate::domain::design::offset_before(design.terms@, t + 1)
            == crate::domain::design::offset_before(design.terms@, t) + design.terms@[t].n_levels,
{
    let terms = design.terms@;
    assert(terms[t].columns@.len() == 1);
    assert(terms[t].spec_n_dofs() == terms[t].n_levels) by (nonlinear_arith)
        requires
            terms[t].spec_n_dofs() == terms[t].columns@.len() * terms[t].n_levels as nat,
            terms[t].columns@.len() == 1,
    ;
}

} // verus!
