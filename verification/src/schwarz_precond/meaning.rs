//! What an additive apply computes: the sum of the subdomains' weighted local
//! solutions.

use vstd::prelude::*;

use crate::arithmetic::Arithmetic;
use crate::schwarz_precond::additive::SchwarzPreconditioner;
use crate::schwarz_precond::error::{LocalSolveError, SolveError};
use crate::schwarz_precond::executor::{AdditiveSweepBuffers, BufferPool, SchwarzBuffers};
use crate::schwarz_precond::local_solve::{LocalSolver, SubdomainEntry};
use crate::schwarz_precond::planning::{ReductionStrategy, ResolvedReductionStrategy};

verus! {

/// `share(c)` is `1 / sqrt(c)`: positive, and `c` of its squares make one.
pub open spec fn is_share(share: spec_fn(int) -> real) -> bool {
    forall|c: int|
        c >= 1 ==> #[trigger] share(c) > 0real && share(c) * share(c) * (c as real) == 1real
}

/// How often the unknown at position `i` of subdomain `d` is covered.
pub open spec fn multiplicity<S>(entries: Seq<SubdomainEntry<S>>, d: int, i: int) -> int {
    entries[d].spec_core().spec_weights().multiplicity(i)
}

/// The unknown at position `i` of subdomain `d`.
pub open spec fn unknown<S>(entries: Seq<SubdomainEntry<S>>, d: int, i: int) -> int {
    entries[d].spec_core().indices()[i] as int
}

/// Every unknown of every subdomain is covered at least once.
pub open spec fn are_covered<S>(entries: Seq<SubdomainEntry<S>>) -> bool {
    forall|d: int, i: int|
        0 <= d < entries.len() && 0 <= i < entries[d].spec_core().indices().len()
            ==> #[trigger] multiplicity(entries, d, i) >= 1 && multiplicity(entries, d, i)
            <= u32::MAX
}

/// Subdomain `d`'s solver was given its unknowns of `r`, each times its share.
pub open spec fn is_given<T, S>(
    value: spec_fn(T) -> real,
    share: spec_fn(int) -> real,
    entries: Seq<SubdomainEntry<S>>,
    r: Seq<T>,
    d: int,
    rhs: Vec<T>,
) -> bool {
    &&& rhs@.len() == entries[d].spec_core().indices().len()
    &&& forall|i: int|
        0 <= i < rhs@.len() ==> value(#[trigger] rhs@[i]) == share(multiplicity(entries, d, i))
            * value(r[unknown(entries, d, i)])
}

/// Every subdomain's solver answered its weighted share of `r`.
pub open spec fn are_local_answers<T, S: LocalSolver<T>>(
    value: spec_fn(T) -> real,
    share: spec_fn(int) -> real,
    entries: Seq<SubdomainEntry<S>>,
    allow_inner_parallelism: bool,
    r: Seq<T>,
    answers: Seq<Vec<T>>,
) -> bool {
    &&& answers.len() == entries.len()
    &&& forall|d: int|
        0 <= d < entries.len() ==> is_local_answer(
            value,
            share,
            entries,
            allow_inner_parallelism,
            r,
            d,
            #[trigger] answers[d],
        )
}

/// `answer` is what subdomain `d`'s solver may say to its weighted share of `r`.
pub open spec fn is_local_answer<T, S: LocalSolver<T>>(
    value: spec_fn(T) -> real,
    share: spec_fn(int) -> real,
    entries: Seq<SubdomainEntry<S>>,
    allow_inner_parallelism: bool,
    r: Seq<T>,
    d: int,
    answer: Vec<T>,
) -> bool {
    exists|rhs: Vec<T>| #[trigger]
        is_given(value, share, entries, r, d, rhs) && call_ensures(
            <S as LocalSolver<T>>::solve_local,
            (&entries[d].spec_solver(), rhs, allow_inner_parallelism),
            Ok::<Vec<T>, LocalSolveError>(answer),
        )
}

/// What subdomain `d` adds to unknown `dof`: its answer there times its share.
pub open spec fn part_at<T, S>(
    value: spec_fn(T) -> real,
    share: spec_fn(int) -> real,
    entries: Seq<SubdomainEntry<S>>,
    answers: Seq<Vec<T>>,
    d: int,
    dof: int,
) -> real {
    crate::operator::laws::total(
        if answers[d]@.len() < entries[d].spec_core().indices().len() {
            answers[d]@.len() as int
        } else {
            entries[d].spec_core().indices().len() as int
        },
        |i: int|
            if unknown(entries, d, i) == dof {
                share(multiplicity(entries, d, i)) * value(answers[d]@[i])
            } else {
                0real
            },
    )
}

/// With exact arithmetic, the weight of an unknown covered `c` times is `1 / sqrt(c)`.
proof fn lemma_weight_is_share<T, A: Arithmetic<T>>(
    ops: A,
    value: spec_fn(T) -> real,
    share: spec_fn(int) -> real,
    c: u32,
    w: T,
)
    requires
        crate::arithmetic::is_exact_field(ops, value),
        is_share(share),
        c >= 1,
        crate::schwarz_precond::local_solve::weight_gives(ops, c, w),
    ensures
        value(w) == share(c as int),
{
    let (one, count, root) = choose|one: T, count: T, root: T|
        {
            &&& crate::arithmetic::one_gives(ops, one)
            &&& call_ensures(A::from_count, (&ops, c), count)
            &&& #[trigger] crate::arithmetic::root_gives(ops, count, root)
            &&& #[trigger] crate::arithmetic::divide_gives(ops, one, root, w)
        };
    assert(crate::arithmetic::count_gives(ops, c, count));
    let n = c as real;
    let s = value(root);
    let v = value(w);
    let t = share(c as int);
    assert(n >= 1real);
    assert(s * s == n);
    assert(s != 0real) by (nonlinear_arith)
        requires
            s * s == n,
            n >= 1real,
    ;
    assert(v * s == 1real);
    assert(t > 0real && t * t * n == 1real);
    assert(v == t) by (nonlinear_arith)
        requires
            s >= 0real,
            s * s == n,
            v * s == 1real,
            t > 0real,
            t * t * n == 1real,
    {
        assert((t * s) * (t * s) == 1real) by (nonlinear_arith)
            requires
                t * t * n == 1real,
                s * s == n,
        ;
        assert(t * s >= 0real) by (nonlinear_arith)
            requires
                t > 0real,
                s >= 0real,
        ;
        assert(t * s == 1real) by (nonlinear_arith)
            requires
                (t * s) * (t * s) == 1real,
                t * s >= 0real,
        ;
        assert(v * s == t * s);
        assert(s != 0real) by (nonlinear_arith)
            requires
                v * s == 1real,
        ;
        assert(v == t) by (nonlinear_arith)
            requires
                v * s == t * s,
                s != 0real,
        ;
    }
}

/// The contributions to an unknown, subdomain by subdomain.
proof fn lemma_contributions<T, S>(
    value: spec_fn(T) -> real,
    entries: Seq<SubdomainEntry<S>>,
    parts: Seq<Seq<T>>,
    dof: int,
)
    requires
        parts.len() <= entries.len(),
        forall|d: int|
            0 <= d < parts.len() ==> (#[trigger] parts[d]).len()
                <= entries[d].spec_core().indices().len(),
    ensures
        crate::concat::concat_all(
            crate::schwarz_precond::apply::part_indices(entries, parts),
        ).len() == crate::concat::concat_all(parts).len(),
        crate::operator::laws::total(
            crate::concat::concat_all(parts).len() as int,
            crate::operator::laws::at_level(
                crate::concat::concat_all(
                    crate::schwarz_precond::apply::part_indices(entries, parts),
                ),
                |k: int| value(crate::concat::concat_all(parts)[k]),
                dof,
            ),
        ) == crate::operator::laws::total(
            parts.len() as int,
            |d: int| plain_part(value, entries, parts[d], d, dof),
        ),
    decreases parts.len(),
{
    let codes = crate::schwarz_precond::apply::part_indices(entries, parts);
    let all_codes = crate::concat::concat_all(codes);
    let all = crate::concat::concat_all(parts);
    if parts.len() > 0 {
        let last = parts.len() - 1;
        let front = parts.drop_last();
        let front_codes = crate::schwarz_precond::apply::part_indices(entries, front);
        assert(codes.drop_last() =~= front_codes);
        lemma_contributions(value, entries, front, dof);
        let head = crate::concat::concat_all(front);
        let head_codes = crate::concat::concat_all(front_codes);
        let n = head.len() as int;
        let m = parts[last].len() as int;
        let f = crate::operator::laws::at_level(all_codes, |k: int| value(all[k]), dof);
        let g = crate::operator::laws::at_level(head_codes, |k: int| value(head[k]), dof);
        crate::operator::laws::lemma_total_split(n, m, f);
        assert forall|k: int| 0 <= k < n implies #[trigger] f(k) == g(k) by {
            assert(all[k] == head[k]);
            assert(all_codes[k] == head_codes[k]);
        }
        crate::operator::laws::lemma_total_same(n, f, g);
        let tail = |l: int| f(n + l);
        let own = plain_at(value, entries, parts[last], last, dof);
        assert forall|i: int| 0 <= i < m implies #[trigger] tail(i) == own(i) by {
            assert(all[n + i] == parts[last][i]);
            assert(all_codes[n + i] == codes[last][i]);
        }
        crate::operator::laws::lemma_total_same(m, tail, own);
        crate::operator::laws::lemma_total_same(m, |l: int| f(n + l), tail);
        crate::operator::laws::lemma_total_same(
            last,
            |d: int| plain_part(value, entries, front[d], d, dof),
            |d: int| plain_part(value, entries, parts[d], d, dof),
        );
    }
}

/// What a list of values for subdomain `d`'s unknowns has at `dof`.
spec fn plain_part<T, S>(
    value: spec_fn(T) -> real,
    entries: Seq<SubdomainEntry<S>>,
    part: Seq<T>,
    d: int,
    dof: int,
) -> real {
    crate::operator::laws::total(part.len() as int, plain_at(value, entries, part, d, dof))
}

spec fn plain_at<T, S>(
    value: spec_fn(T) -> real,
    entries: Seq<SubdomainEntry<S>>,
    part: Seq<T>,
    d: int,
    dof: int,
) -> spec_fn(int) -> real {
    |i: int|
        if unknown(entries, d, i) == dof {
            value(part[i])
        } else {
            0real
        }
}

/// An apply computes `sum R^T D A^-1 D R r`. With exact arithmetic, every
/// subdomain's solver is given the subdomain's unknowns of `r`, each times
/// `1 / sqrt(c)` where `c` is how often the unknown is covered, and every entry
/// of the result is the sum of all subdomains' answers there, each times
/// `1 / sqrt(c)` again. This holds of either backend.
pub proof fn law_apply_sums_local_solutions<T, A: Arithmetic<T>, S: LocalSolver<T>>(
    ops: A,
    value: spec_fn(T) -> real,
    share: spec_fn(int) -> real,
    p: SchwarzPreconditioner<S>,
    r: Seq<T>,
    before: Seq<T>,
    after: Seq<T>,
)
    requires
        p.wf(),
        crate::arithmetic::is_exact_field(ops, value),
        is_share(share),
        are_covered(p.spec_subdomains()),
        crate::schwarz_precond::apply::apply_outcome(ops, p, r, before, after, Ok(())),
    ensures
        r.len() == p.spec_n_dofs(),
        after.len() == p.spec_n_dofs(),
        exists|threads: usize, answers: Seq<Vec<T>>| #[trigger]
            are_local_answers(
                value,
                share,
                p.spec_subdomains(),
                p.spec_scheduler().spec_allow_inner_parallelism(threads as nat),
                r,
                answers,
            ) && forall|dof: int|
                0 <= dof < p.spec_n_dofs() ==> value(#[trigger] after[dof])
                    == crate::operator::laws::total(
                    p.spec_subdomains().len() as int,
                    |d: int| part_at(value, share, p.spec_subdomains(), answers, d, dof),
                ),
{
    let entries = p.spec_subdomains();
    let n_dofs = p.spec_n_dofs();
    let threads = choose|threads: usize|
        crate::schwarz_precond::apply::planned_outcome(
            ops,
            entries,
            n_dofs,
            #[trigger] p.plan_on(threads as nat),
            r,
            before,
            after,
            Ok(()),
        );
    let plan = p.plan_on(threads as nat);
    let allow = plan.allow_inner_parallelism;
    assert(allow == p.spec_scheduler().spec_allow_inner_parallelism(threads as nat));
    crate::schwarz_precond::apply::law_additive_apply_is_exact(
        ops,
        value,
        entries,
        n_dofs,
        plan,
        r,
        after,
    );
    let parts = choose|parts: Seq<Seq<T>>| #[trigger]
        crate::schwarz_precond::apply::are_local_solutions(ops, entries, allow, r, parts)
            && forall|dof: int|
            0 <= dof < n_dofs ==> #[trigger] crate::schwarz_precond::apply::contributions_add_up(
                value,
                entries,
                parts,
                dof,
                after[dof],
            );
    let answers = Seq::new(
        entries.len(),
        |d: int| choose|answer: Vec<T>| is_answer_for(ops, entries, allow, r, parts, d, answer),
    );
    assert forall|d: int| 0 <= d < entries.len() implies is_local_answer(
        value,
        share,
        entries,
        allow,
        r,
        d,
        #[trigger] answers[d],
    ) && is_answer_for(ops, entries, allow, r, parts, d, answers[d]) by {
        lemma_some_answer(ops, entries, allow, r, parts, d);
        lemma_answer(ops, value, share, entries, allow, r, parts, d, answers[d]);
    }
    assert(are_local_answers(value, share, entries, allow, r, answers));
    assert forall|d: int| 0 <= d < parts.len() implies (#[trigger] parts[d]).len()
        <= entries[d].spec_core().indices().len() by {
        assert(is_answer_for(ops, entries, allow, r, parts, d, answers[d]));
    }
    assert forall|dof: int| 0 <= dof < n_dofs implies value(#[trigger] after[dof])
        == crate::operator::laws::total(
        entries.len() as int,
        |d: int| part_at(value, share, entries, answers, d, dof),
    ) by {
        assert(crate::schwarz_precond::apply::contributions_add_up(
            value,
            entries,
            parts,
            dof,
            after[dof],
        ));
        let codes = crate::concat::concat_all(
            crate::schwarz_precond::apply::part_indices(entries, parts),
        );
        let all = crate::concat::concat_all(parts);
        lemma_contributions(value, entries, parts, dof);
        crate::operator::laws::lemma_level_sum_total(value, codes, all, dof, codes.len() as int);
        crate::operator::laws::lemma_total_same(
            all.len() as int,
            crate::operator::laws::at_level(codes, |i: int| value(all[i]), dof),
            crate::operator::laws::at_level(
                codes,
                |k: int| value(crate::concat::concat_all(parts)[k]),
                dof,
            ),
        );
        let f = |d: int| plain_part(value, entries, parts[d], d, dof);
        let g = |d: int| part_at(value, share, entries, answers, d, dof);
        assert forall|d: int| 0 <= d < entries.len() implies #[trigger] f(d) == g(d) by {
            assert(is_answer_for(ops, entries, allow, r, parts, d, answers[d]));
            lemma_part_value(ops, value, share, entries, allow, r, parts, answers, d, dof);
        }
        crate::operator::laws::lemma_total_same(entries.len() as int, f, g);
    }
}

/// `parts[d]` weights `answer`, which subdomain `d`'s solver gave.
spec fn is_answer_for<T, A: Arithmetic<T>, S: LocalSolver<T>>(
    ops: A,
    entries: Seq<SubdomainEntry<S>>,
    allow: bool,
    r: Seq<T>,
    parts: Seq<Seq<T>>,
    d: int,
    answer: Vec<T>,
) -> bool {
    &&& crate::schwarz_precond::local_solve::is_weighted_solution(
        ops,
        entries[d].spec_core(),
        answer@,
        parts[d],
    )
    &&& exists|rhs: Vec<T>| #[trigger]
        crate::schwarz_precond::local_solve::is_local_solve(
            ops,
            entries[d],
            allow,
            r,
            rhs,
            Ok::<Vec<T>, LocalSolveError>(answer),
        )
}

proof fn lemma_some_answer<T, A: Arithmetic<T>, S: LocalSolver<T>>(
    ops: A,
    entries: Seq<SubdomainEntry<S>>,
    allow: bool,
    r: Seq<T>,
    parts: Seq<Seq<T>>,
    d: int,
)
    requires
        crate::schwarz_precond::apply::are_local_solutions(ops, entries, allow, r, parts),
        0 <= d < entries.len(),
    ensures
        exists|answer: Vec<T>| is_answer_for(ops, entries, allow, r, parts, d, answer),
{
    assert(crate::schwarz_precond::local_solve::is_weighted_local_solution(
        ops,
        entries[d],
        allow,
        r,
        parts[d],
    ));
    let (rhs, solution) = choose|rhs: Vec<T>, solution: Vec<T>| #[trigger]
        crate::schwarz_precond::local_solve::is_local_solve(
            ops,
            entries[d],
            allow,
            r,
            rhs,
            Ok::<Vec<T>, LocalSolveError>(solution),
        ) && crate::schwarz_precond::local_solve::is_weighted_solution(
            ops,
            entries[d].spec_core(),
            solution@,
            parts[d],
        );
    assert(is_answer_for(ops, entries, allow, r, parts, d, solution));
}

proof fn lemma_answer<T, A: Arithmetic<T>, S: LocalSolver<T>>(
    ops: A,
    value: spec_fn(T) -> real,
    share: spec_fn(int) -> real,
    entries: Seq<SubdomainEntry<S>>,
    allow: bool,
    r: Seq<T>,
    parts: Seq<Seq<T>>,
    d: int,
    answer: Vec<T>,
)
    requires
        crate::arithmetic::is_exact_field(ops, value),
        is_share(share),
        are_covered(entries),
        0 <= d < entries.len(),
        is_answer_for(ops, entries, allow, r, parts, d, answer),
    ensures
        is_local_answer(value, share, entries, allow, r, d, answer),
{
    let rhs = choose|rhs: Vec<T>| #[trigger]
        crate::schwarz_precond::local_solve::is_local_solve(
            ops,
            entries[d],
            allow,
            r,
            rhs,
            Ok::<Vec<T>, LocalSolveError>(answer),
        );
    lemma_rhs(ops, value, share, entries, r, d, rhs);
}

proof fn lemma_rhs<T, A: Arithmetic<T>, S>(
    ops: A,
    value: spec_fn(T) -> real,
    share: spec_fn(int) -> real,
    entries: Seq<SubdomainEntry<S>>,
    r: Seq<T>,
    d: int,
    rhs: Vec<T>,
)
    requires
        crate::arithmetic::is_exact_field(ops, value),
        is_share(share),
        are_covered(entries),
        0 <= d < entries.len(),
        crate::schwarz_precond::local_solve::is_restriction(ops, entries[d].spec_core(), r, rhs@),
    ensures
        is_given(value, share, entries, r, d, rhs),
{
    assert forall|i: int| 0 <= i < rhs@.len() implies value(#[trigger] rhs@[i]) == share(
        multiplicity(entries, d, i),
    ) * value(r[unknown(entries, d, i)]) by {
        let c = multiplicity(entries, d, i);
        let x = r[unknown(entries, d, i)];
        assert(crate::schwarz_precond::local_solve::is_weighted(ops, c as u32, x, rhs@[i]));
        lemma_weighted(ops, value, share, c, x, rhs@[i]);
    }
}

proof fn lemma_weighted<T, A: Arithmetic<T>>(
    ops: A,
    value: spec_fn(T) -> real,
    share: spec_fn(int) -> real,
    c: int,
    x: T,
    out: T,
)
    requires
        crate::arithmetic::is_exact_field(ops, value),
        is_share(share),
        1 <= c <= u32::MAX,
        crate::schwarz_precond::local_solve::is_weighted(ops, c as u32, x, out),
    ensures
        value(out) == share(c) * value(x),
{
    let w = choose|w: T| #[trigger]
        crate::schwarz_precond::local_solve::weight_gives(ops, c as u32, w)
            && crate::arithmetic::times_gives(ops, w, x, out);
    lemma_weight_is_share(ops, value, share, c as u32, w);
}

proof fn lemma_part_value<T, A: Arithmetic<T>, S: LocalSolver<T>>(
    ops: A,
    value: spec_fn(T) -> real,
    share: spec_fn(int) -> real,
    entries: Seq<SubdomainEntry<S>>,
    allow: bool,
    r: Seq<T>,
    parts: Seq<Seq<T>>,
    answers: Seq<Vec<T>>,
    d: int,
    dof: int,
)
    requires
        crate::arithmetic::is_exact_field(ops, value),
        is_share(share),
        are_covered(entries),
        0 <= d < entries.len(),
        is_answer_for(ops, entries, allow, r, parts, d, answers[d]),
    ensures
        plain_part(value, entries, parts[d], d, dof) == part_at(
            value,
            share,
            entries,
            answers,
            d,
            dof,
        ),
{
    let part = parts[d];
    let n = part.len() as int;
    let f = plain_at(value, entries, part, d, dof);
    let g = |i: int|
        if unknown(entries, d, i) == dof {
            share(multiplicity(entries, d, i)) * value(answers[d]@[i])
        } else {
            0real
        };
    assert forall|i: int| 0 <= i < n implies #[trigger] f(i) == g(i) by {
        let c = multiplicity(entries, d, i);
        assert(crate::schwarz_precond::local_solve::is_weighted(
            ops,
            c as u32,
            answers[d]@[i],
            part[i],
        ));
        lemma_weighted(ops, value, share, c, answers[d]@[i], part[i]);
    }
    crate::operator::laws::lemma_total_same(n, f, g);
}

/// An apply fails only because a subdomain's solver failed on its weighted share
/// of `r`: the error names that subdomain and carries the solver's own failure.
/// The output then holds nothing but zeros, or what it held before.
pub proof fn law_apply_failure_is_a_local_failure<T, A: Arithmetic<T>, S: LocalSolver<T>>(
    ops: A,
    value: spec_fn(T) -> real,
    share: spec_fn(int) -> real,
    p: SchwarzPreconditioner<S>,
    r: Seq<T>,
    before: Seq<T>,
    after: Seq<T>,
    e: SolveError,
)
    requires
        p.wf(),
        crate::arithmetic::is_exact_field(ops, value),
        is_share(share),
        are_covered(p.spec_subdomains()),
        crate::schwarz_precond::apply::apply_outcome(ops, p, r, before, after, Err(e)),
    ensures
        r.len() != p.spec_n_dofs() || before.len() != p.spec_n_dofs() ==> e is InvalidInput
            && after == before,
        r.len() == p.spec_n_dofs() && before.len() == p.spec_n_dofs() ==> is_named_failure(
            value,
            share,
            p.spec_subdomains(),
            r,
            e,
        ) && after.len() == before.len() && (after == before || forall|i: int|
            0 <= i < after.len() ==> value(#[trigger] after[i]) == 0real),
{
    let entries = p.spec_subdomains();
    if r.len() == p.spec_n_dofs() && before.len() == p.spec_n_dofs() {
        let threads = choose|threads: usize|
            crate::schwarz_precond::apply::planned_outcome(
                ops,
                entries,
                p.spec_n_dofs(),
                #[trigger] p.plan_on(threads as nat),
                r,
                before,
                after,
                Err(e),
            );
        let allow = p.plan_on(threads as nat).allow_inner_parallelism;
        let d = e->LocalSolveFailed_subdomain as int;
        let source = e->LocalSolveFailed_source;
        let (rhs, answer) = choose|rhs: Vec<T>, answer: Result<Vec<T>, LocalSolveError>| #[trigger]
            crate::schwarz_precond::local_solve::is_local_solve(
                ops,
                entries[d],
                allow,
                r,
                rhs,
                answer,
            ) && answer == Err::<Vec<T>, LocalSolveError>(source);
        lemma_rhs(ops, value, share, entries, r, d, rhs);
        assert(is_failed_share(value, share, entries, r, d, rhs, allow, source));
    }
}

/// Subdomain `d`'s solver failed with `source` on its weighted share of `r`.
pub open spec fn is_failed_share<T, S: LocalSolver<T>>(
    value: spec_fn(T) -> real,
    share: spec_fn(int) -> real,
    entries: Seq<SubdomainEntry<S>>,
    r: Seq<T>,
    d: int,
    rhs: Vec<T>,
    allow: bool,
    source: LocalSolveError,
) -> bool {
    &&& is_given(value, share, entries, r, d, rhs)
    &&& call_ensures(
        <S as LocalSolver<T>>::solve_local,
        (&entries[d].spec_solver(), rhs, allow),
        Err::<Vec<T>, LocalSolveError>(source),
    )
}

/// The error names a subdomain whose solver failed with the error's source.
pub open spec fn is_named_failure<T, S: LocalSolver<T>>(
    value: spec_fn(T) -> real,
    share: spec_fn(int) -> real,
    entries: Seq<SubdomainEntry<S>>,
    r: Seq<T>,
    e: SolveError,
) -> bool {
    e matches SolveError::LocalSolveFailed { subdomain, source } && subdomain < entries.len()
        && exists|rhs: Vec<T>, allow: bool|
        #[trigger] is_failed_share(
            value,
            share,
            entries,
            r,
            subdomain as int,
            rhs,
            allow,
            source,
        )
}

/// An apply runs the backend that was configured, whatever the thread-pool width;
/// `Auto` stands for what the scheduling metrics say.
pub proof fn law_apply_runs_the_configured_backend<S>(p: SchwarzPreconditioner<S>, threads: nat)
    ensures
        p.spec_strategy() == ReductionStrategy::AtomicScatter ==> p.plan_on(threads).strategy
            == ResolvedReductionStrategy::AtomicScatter,
        p.spec_strategy() == ReductionStrategy::ParallelReduction ==> p.plan_on(threads).strategy
            == ResolvedReductionStrategy::ParallelReduction,
        p.spec_scheduler().is_plan(p.spec_strategy(), threads, p.plan_on(threads)),
        p.resolved_on(threads) == p.plan_on(threads).strategy,
{
}

/// An apply with pooled buffers is an apply: what the pool held does not matter.
pub proof fn law_pooled_apply_is_an_apply<T, A: Arithmetic<T>, S: LocalSolver<T>>(
    ops: A,
    p: SchwarzPreconditioner<S>,
    r: Seq<T>,
    before: Seq<T>,
    after: Seq<T>,
    pool_before: Seq<SchwarzBuffers<T>>,
    pool_after: Seq<SchwarzBuffers<T>>,
    result: Result<(), SolveError>,
)
    requires
        crate::schwarz_precond::pooled::pooled_outcome(
            ops,
            p,
            r,
            before,
            after,
            pool_before,
            pool_after,
            result,
        ),
    ensures
        crate::schwarz_precond::apply::apply_outcome(ops, p, r, before, after, result),
        r.len() != p.spec_n_dofs() || before.len() != p.spec_n_dofs() ==> pool_after
            == pool_before,
{
}

/// Reducing the workers' buffers sums them: with exact arithmetic, every entry is
/// the sum of the entries that the buffers have there.
pub proof fn law_reduction_sums_the_buffers<T, A: Arithmetic<T>>(
    ops: A,
    value: spec_fn(T) -> real,
    buffers: Seq<AdditiveSweepBuffers<T>>,
    z: Seq<T>,
    i: int,
)
    requires
        crate::arithmetic::is_exact(ops, value),
        crate::schwarz_precond::executor::is_reduced(ops, buffers, z),
        0 <= i < z.len(),
    ensures
        value(z[i]) == crate::operator::laws::total(
            buffers.len() as int,
            |b: int| value(buffers[b].global_accum@[i]),
        ),
{
    assert(crate::schwarz_precond::executor::is_column_sum(ops, buffers, i, z[i]));
    let items = crate::schwarz_precond::executor::column_of(buffers, i);
    let zero = choose|zero: T| #[trigger]
        crate::arithmetic::zero_gives(ops, zero) && crate::arithmetic::sums_to(
            ops,
            zero,
            items,
            z[i],
        );
    crate::arithmetic::law_running_sum_is_exact(ops, value, zero, items, z[i]);
    crate::operator::laws::lemma_value_sum_total(value, items);
    crate::operator::laws::lemma_total_same(
        buffers.len() as int,
        |k: int| value(items[k]),
        |b: int| value(buffers[b].global_accum@[i]),
    );
}

/// Nothing an earlier apply has left behind is in the pool: every accumulator of
/// every pooled buffer has one entry per unknown and holds zeros, and there are at
/// most four buffers.
pub proof fn law_pooled_buffers_are_clean<T>(pool: BufferPool<T>, b: int, w: int, i: int)
    requires
        pool.wf(),
        0 <= b < pool.pooled().len(),
    ensures
        pool.pooled().len() <= 4,
        pool.pooled()[b] matches SchwarzBuffers::Atomic { accum } ==> accum@.len()
            == pool.spec_n_dofs() && (0 <= i < accum@.len() ==> accum@[i] == pool.spec_zero()),
        pool.pooled()[b] matches SchwarzBuffers::Reduction { pool: held } ==> 0 <= w < held@.len()
            ==> held@[w].global_accum@.len() == pool.spec_n_dofs() && (0 <= i
            < held@[w].global_accum@.len() ==> held@[w].global_accum@[i] == pool.spec_zero()),
{
    assert(pool.accepts(pool.pooled()[b]));
    match pool.pooled()[b] {
        SchwarzBuffers::Atomic { accum } => {},
        SchwarzBuffers::Reduction { pool: held } => {
            if 0 <= w < held@.len() {
                assert(held@[w].fits(pool.spec_n_dofs(), pool.spec_max_scratch_size()));
                assert(held@[w].is_clean(pool.spec_zero()));
            }
        },
    }
}

} // verus!
