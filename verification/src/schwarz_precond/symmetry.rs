//! The additive preconditioner is symmetric if its local solvers are.

use vstd::prelude::*;

use crate::arithmetic::Arithmetic;
use crate::schwarz_precond::error::LocalSolveError;
use crate::schwarz_precond::local_solve::{LocalSolver, SubdomainEntry};
use crate::schwarz_precond::planning::ReductionPlan;

verus! {

/// The solver answers `rhs` with `solution`.
pub open spec fn solves<T, S: LocalSolver<T>>(
    solver: S,
    allow_inner_parallelism: bool,
    rhs: Vec<T>,
    solution: Vec<T>,
) -> bool {
    call_ensures(
        <S as LocalSolver<T>>::solve_local,
        (&solver, rhs, allow_inner_parallelism),
        Ok::<Vec<T>, LocalSolveError>(solution),
    )
}

/// The local solver is symmetric: `<A^-1 a, b> = <a, A^-1 b>`.
pub open spec fn is_symmetric_solver<T, S: LocalSolver<T>>(
    value: spec_fn(T) -> real,
    solver: S,
    allow_inner_parallelism: bool,
) -> bool {
    forall|a: Vec<T>, b: Vec<T>, sa: Vec<T>, sb: Vec<T>|
        #![trigger solves(solver, allow_inner_parallelism, a, sa), solves(solver, allow_inner_parallelism, b, sb)]
        a@.len() == b@.len() && solves(solver, allow_inner_parallelism, a, sa) && solves(
            solver,
            allow_inner_parallelism,
            b,
            sb,
        ) ==> {
            &&& sa@.len() == a@.len()
            &&& sb@.len() == b@.len()
            &&& crate::schwarz_precond::solve::value_dot(value, sa@, b@)
                == crate::schwarz_precond::solve::value_dot(value, a@, sb@)
        }
}

/// Every multiplicity has one weight.
pub open spec fn weights_have_value<T, A: Arithmetic<T>>(
    ops: A,
    value: spec_fn(T) -> real,
    weight: spec_fn(u32) -> real,
) -> bool {
    forall|c: u32, w: T| #[trigger]
        crate::schwarz_precond::local_solve::weight_gives(ops, c, w) ==> value(w) == weight(c)
}

/// `f(d)` summed over all parts, where `f` pairs a part with `s` at its unknowns.
spec fn paired<T, S>(
    value: spec_fn(T) -> real,
    entries: Seq<SubdomainEntry<S>>,
    parts: Seq<Seq<T>>,
    s: spec_fn(int) -> real,
) -> real
    decreases parts.len(),
{
    if parts.len() == 0 {
        0real
    } else {
        let d = parts.len() - 1;
        paired(value, entries, parts.drop_last(), s) + part_paired(
            value,
            entries[d].spec_core().indices(),
            parts[d],
            s,
        )
    }
}

/// `<part, R s>`
spec fn part_paired<T>(
    value: spec_fn(T) -> real,
    indices: Seq<u32>,
    part: Seq<T>,
    s: spec_fn(int) -> real,
) -> real {
    crate::operator::laws::total(
        part.len() as int,
        |k: int| value(part[k]) * s(indices[k] as int),
    )
}

proof fn lemma_paired_is_total<T, S>(
    value: spec_fn(T) -> real,
    entries: Seq<SubdomainEntry<S>>,
    parts: Seq<Seq<T>>,
    s: spec_fn(int) -> real,
)
    requires
        parts.len() <= entries.len(),
        forall|d: int|
            0 <= d < parts.len() ==> (#[trigger] parts[d]).len()
                <= entries[d].spec_core().indices().len(),
    ensures
        crate::concat::concat_all(parts).len() == crate::concat::concat_all(
            crate::schwarz_precond::apply::part_indices(entries, parts),
        ).len(),
        paired(value, entries, parts, s) == crate::operator::laws::total(
            crate::concat::concat_all(parts).len() as int,
            |k: int|
                value(crate::concat::concat_all(parts)[k]) * s(
                    crate::concat::concat_all(
                        crate::schwarz_precond::apply::part_indices(entries, parts),
                    )[k] as int,
                ),
        ),
    decreases parts.len(),
{
    let lists = crate::schwarz_precond::apply::part_indices(entries, parts);
    if parts.len() > 0 {
        let d = parts.len() - 1;
        let front = parts.drop_last();
        lemma_paired_is_total(value, entries, front, s);
        let front_lists = crate::schwarz_precond::apply::part_indices(entries, front);
        assert(lists.drop_last() =~= front_lists);
        let values = crate::concat::concat_all(parts);
        let codes = crate::concat::concat_all(lists);
        let front_values = crate::concat::concat_all(front);
        let front_codes = crate::concat::concat_all(front_lists);
        assert(values == front_values + parts[d]);
        assert(codes == front_codes + lists[d]);
        let f = |k: int| value(values[k]) * s(codes[k] as int);
        let a = front_values.len() as int;
        crate::operator::laws::lemma_total_split(a, parts[d].len() as int, f);
        crate::operator::laws::lemma_total_same(
            a,
            f,
            |k: int| value(front_values[k]) * s(front_codes[k] as int),
        );
        let indices = entries[d].spec_core().indices();
        crate::operator::laws::lemma_total_same(
            parts[d].len() as int,
            |k: int| f(a + k),
            |k: int| value(parts[d][k]) * s(indices[k] as int),
        );
    }
}

/// `<s, z>` where `z` collects the parts.
proof fn lemma_pairing_of_apply<T, A: Arithmetic<T>, S: LocalSolver<T>>(
    value: spec_fn(T) -> real,
    entries: Seq<SubdomainEntry<S>>,
    n_dofs: nat,
    parts: Seq<Seq<T>>,
    s: spec_fn(int) -> real,
    z: Seq<T>,
)
    requires
        parts.len() == entries.len(),
        forall|d: int|
            0 <= d < parts.len() ==> (#[trigger] parts[d]).len()
                <= entries[d].spec_core().indices().len(),
        forall|d: int| 0 <= d < entries.len() ==> (#[trigger] entries[d]).fits(n_dofs),
        forall|dof: int|
            0 <= dof < n_dofs
                ==> #[trigger] crate::schwarz_precond::apply::contributions_add_up(
                value,
                entries,
                parts,
                dof,
                z[dof],
            ),
    ensures
        crate::operator::laws::total(n_dofs as int, |dof: int| s(dof) * value(z[dof])) == paired(
            value,
            entries,
            parts,
            s,
        ),
{
    let codes = crate::concat::concat_all(
        crate::schwarz_precond::apply::part_indices(entries, parts),
    );
    let values = crate::concat::concat_all(parts);
    let n = codes.len() as int;
    lemma_paired_is_total(value, entries, parts, s);
    lemma_codes_in_range(entries, parts, n_dofs);
    let vv = |i: int| value(values[i]);
    crate::operator::laws::lemma_term_transpose(codes, n, n_dofs as int, s, vv);
    let by_dof = |dof: int| s(dof) * value(z[dof]);
    let by_level = |l: int|
        s(l) * crate::operator::laws::total(n, crate::operator::laws::at_level(codes, vv, l));
    assert forall|l: int| 0 <= l < n_dofs implies #[trigger] by_dof(l) == by_level(l) by {
        assert(crate::schwarz_precond::apply::contributions_add_up(
            value,
            entries,
            parts,
            l,
            z[l],
        ));
        crate::operator::laws::lemma_level_sum_total(value, codes, values, l, n);
        crate::operator::laws::lemma_total_same(
            n,
            crate::operator::laws::at_level(codes, |i: int| value(values[i]), l),
            crate::operator::laws::at_level(codes, vv, l),
        );
    }
    crate::operator::laws::lemma_total_same(n_dofs as int, by_dof, by_level);
    crate::operator::laws::lemma_total_same(
        n,
        |i: int| vv(i) * s(codes[i] as int),
        |k: int| value(values[k]) * s(codes[k] as int),
    );
}

proof fn lemma_codes_in_range<T, S>(
    entries: Seq<SubdomainEntry<S>>,
    parts: Seq<Seq<T>>,
    n_dofs: nat,
)
    requires
        parts.len() <= entries.len(),
        forall|d: int|
            0 <= d < parts.len() ==> (#[trigger] parts[d]).len()
                <= entries[d].spec_core().indices().len(),
        forall|d: int| 0 <= d < entries.len() ==> (#[trigger] entries[d]).fits(n_dofs),
    ensures
        forall|i: int|
            0 <= i < crate::concat::concat_all(
                crate::schwarz_precond::apply::part_indices(entries, parts),
            ).len() ==> #[trigger] crate::concat::concat_all(
                crate::schwarz_precond::apply::part_indices(entries, parts),
            )[i] < n_dofs,
    decreases parts.len(),
{
    let lists = crate::schwarz_precond::apply::part_indices(entries, parts);
    if parts.len() > 0 {
        let d = parts.len() - 1;
        let front = parts.drop_last();
        lemma_codes_in_range(entries, front, n_dofs);
        let front_lists = crate::schwarz_precond::apply::part_indices(entries, front);
        assert(lists.drop_last() =~= front_lists);
        let codes = crate::concat::concat_all(lists);
        let front_codes = crate::concat::concat_all(front_lists);
        assert(codes == front_codes + lists[d]);
        assert forall|i: int| 0 <= i < codes.len() implies #[trigger] codes[i] < n_dofs by {
            if i < front_codes.len() {
                assert(codes[i] == front_codes[i]);
            } else {
                let k = i - front_codes.len();
                assert(entries[d].fits(n_dofs));
                assert(codes[i] == entries[d].spec_core().indices()[k]);
            }
        }
    }
}

/// A product of values as a total.
pub proof fn lemma_dot_is_total<T>(value: spec_fn(T) -> real, a: Seq<T>, b: Seq<T>)
    requires
        a.len() == b.len(),
    ensures
        crate::schwarz_precond::solve::value_dot(value, a, b) == crate::operator::laws::total(
            a.len() as int,
            |k: int| value(a[k]) * value(b[k]),
        ),
    decreases a.len(),
{
    if a.len() > 0 {
        lemma_dot_is_total(value, a.drop_last(), b.drop_last());
        crate::operator::laws::lemma_total_same(
            a.len() - 1,
            |k: int| value(a.drop_last()[k]) * value(b.drop_last()[k]),
            |k: int| value(a[k]) * value(b[k]),
        );
    }
}

/// A subdomain's part paired with `s` is the restriction of `s` times the local solution.
proof fn lemma_part_is_dot<T, A: Arithmetic<T>, S: LocalSolver<T>>(
    ops: A,
    value: spec_fn(T) -> real,
    weight: spec_fn(u32) -> real,
    entry: SubdomainEntry<S>,
    part: Seq<T>,
    solution: Seq<T>,
    s: Seq<T>,
    rhs: Seq<T>,
)
    requires
        crate::arithmetic::is_exact(ops, value),
        weights_have_value(ops, value, weight),
        solution.len() == entry.spec_core().indices().len(),
        crate::schwarz_precond::local_solve::is_weighted_solution(
            ops,
            entry.spec_core(),
            solution,
            part,
        ),
        crate::schwarz_precond::local_solve::is_restriction(ops, entry.spec_core(), s, rhs),
    ensures
        part_paired(
            value,
            entry.spec_core().indices(),
            part,
            |dof: int| value(s[dof]),
        ) == crate::schwarz_precond::solve::value_dot(value, rhs, solution),
{
    let core = entry.spec_core();
    let n = part.len() as int;
    lemma_dot_is_total(value, rhs, solution);
    let f = |k: int| value(part[k]) * (|dof: int| value(s[dof]))(core.indices()[k] as int);
    let g = |k: int| value(rhs[k]) * value(solution[k]);
    assert forall|k: int| 0 <= k < n implies #[trigger] f(k) == g(k) by {
        let c = core.spec_weights().multiplicity(k) as u32;
        assert(crate::schwarz_precond::local_solve::is_weighted(ops, c, solution[k], part[k]));
        assert(crate::schwarz_precond::local_solve::is_weighted(
            ops,
            c,
            s[core.indices()[k] as int],
            rhs[k],
        ));
        let w = weight(c);
        let x = value(solution[k]);
        let y = value(s[core.indices()[k] as int]);
        assert(value(part[k]) == w * x);
        assert(value(rhs[k]) == w * y);
        assert((w * x) * y == (w * y) * x) by (nonlinear_arith);
    }
    crate::operator::laws::lemma_total_same(n, f, g);
}

/// `<part of r, R s> = <part of s, R r>` in every subdomain.
proof fn lemma_parts_are_symmetric<T, A: Arithmetic<T>, S: LocalSolver<T>>(
    ops: A,
    value: spec_fn(T) -> real,
    weight: spec_fn(u32) -> real,
    entries: Seq<SubdomainEntry<S>>,
    allow_inner_parallelism: bool,
    r: Seq<T>,
    s: Seq<T>,
    parts_r: Seq<Seq<T>>,
    parts_s: Seq<Seq<T>>,
    n: int,
)
    requires
        crate::arithmetic::is_exact(ops, value),
        weights_have_value(ops, value, weight),
        forall|d: int|
            0 <= d < entries.len() ==> is_symmetric_solver::<T, S>(
                value,
                (#[trigger] entries[d]).spec_solver(),
                allow_inner_parallelism,
            ),
        crate::schwarz_precond::apply::are_local_solutions(
            ops,
            entries,
            allow_inner_parallelism,
            r,
            parts_r,
        ),
        crate::schwarz_precond::apply::are_local_solutions(
            ops,
            entries,
            allow_inner_parallelism,
            s,
            parts_s,
        ),
        0 <= n <= entries.len(),
    ensures
        paired(value, entries, parts_r.take(n), |dof: int| value(s[dof])) == paired(
            value,
            entries,
            parts_s.take(n),
            |dof: int| value(r[dof]),
        ),
    decreases n,
{
    if n > 0 {
        let d = n - 1;
        lemma_parts_are_symmetric(
            ops,
            value,
            weight,
            entries,
            allow_inner_parallelism,
            r,
            s,
            parts_r,
            parts_s,
            d,
        );
        assert(parts_r.take(n).drop_last() =~= parts_r.take(d));
        assert(parts_s.take(n).drop_last() =~= parts_s.take(d));
        let entry = entries[d];
        assert(crate::schwarz_precond::local_solve::is_weighted_local_solution(
            ops,
            entry,
            allow_inner_parallelism,
            r,
            parts_r[d],
        ));
        assert(crate::schwarz_precond::local_solve::is_weighted_local_solution(
            ops,
            entry,
            allow_inner_parallelism,
            s,
            parts_s[d],
        ));
        let (rhs_r, sol_r) = choose|rhs: Vec<T>, solution: Vec<T>| #[trigger]
            crate::schwarz_precond::local_solve::is_local_solve(
                ops,
                entry,
                allow_inner_parallelism,
                r,
                rhs,
                Ok(solution),
            ) && crate::schwarz_precond::local_solve::is_weighted_solution(
                ops,
                entry.spec_core(),
                solution@,
                parts_r[d],
            );
        let (rhs_s, sol_s) = choose|rhs: Vec<T>, solution: Vec<T>| #[trigger]
            crate::schwarz_precond::local_solve::is_local_solve(
                ops,
                entry,
                allow_inner_parallelism,
                s,
                rhs,
                Ok(solution),
            ) && crate::schwarz_precond::local_solve::is_weighted_solution(
                ops,
                entry.spec_core(),
                solution@,
                parts_s[d],
            );
        assert(is_symmetric_solver::<T, S>(
            value,
            entry.spec_solver(),
            allow_inner_parallelism,
        ));
        assert(solves(entry.spec_solver(), allow_inner_parallelism, rhs_r, sol_r));
        assert(solves(entry.spec_solver(), allow_inner_parallelism, rhs_s, sol_s));
        lemma_part_is_dot(ops, value, weight, entry, parts_r[d], sol_r@, s, rhs_s@);
        lemma_part_is_dot(ops, value, weight, entry, parts_s[d], sol_s@, r, rhs_r@);
        lemma_dot_is_total(value, rhs_r@, sol_s@);
        lemma_dot_is_total(value, sol_r@, rhs_s@);
        lemma_dot_is_total(value, rhs_s@, sol_r@);
        let f = |k: int| value(sol_r@[k]) * value(rhs_s@[k]);
        let g = |k: int| value(rhs_s@[k]) * value(sol_r@[k]);
        assert forall|k: int| 0 <= k < sol_r@.len() implies #[trigger] f(k) == g(k) by {
            let a = value(sol_r@[k]);
            let b = value(rhs_s@[k]);
            assert(a * b == b * a) by (nonlinear_arith);
        }
        crate::operator::laws::lemma_total_same(sol_r@.len() as int, f, g);
    }
}

/// With exact arithmetic and symmetric local solvers, the preconditioner is
/// symmetric: `<s, M^-1 r> = <r, M^-1 s>`.
pub proof fn law_additive_apply_is_symmetric<
    T,
    A: Arithmetic<T>,
    S: LocalSolver<T>,
>(
    ops: A,
    value: spec_fn(T) -> real,
    weight: spec_fn(u32) -> real,
    entries: Seq<SubdomainEntry<S>>,
    n_dofs: nat,
    plan: ReductionPlan,
    r: Seq<T>,
    s: Seq<T>,
    mr: Seq<T>,
    ms: Seq<T>,
)
    requires
        crate::arithmetic::is_exact(ops, value),
        weights_have_value(ops, value, weight),
        forall|d: int| 0 <= d < entries.len() ==> (#[trigger] entries[d]).fits(n_dofs),
        forall|d: int|
            0 <= d < entries.len() ==> is_symmetric_solver::<T, S>(
                value,
                (#[trigger] entries[d]).spec_solver(),
                plan.allow_inner_parallelism,
            ),
        r.len() == s.len() == n_dofs,
        crate::schwarz_precond::apply::is_additive_apply(
            ops,
            entries,
            n_dofs,
            plan,
            r,
            mr,
        ),
        crate::schwarz_precond::apply::is_additive_apply(
            ops,
            entries,
            n_dofs,
            plan,
            s,
            ms,
        ),
    ensures
        crate::schwarz_precond::solve::value_dot(value, s, mr)
            == crate::schwarz_precond::solve::value_dot(value, r, ms),
{
    crate::schwarz_precond::apply::law_additive_apply_is_exact(
        ops,
        value,
        entries,
        n_dofs,
        plan,
        r,
        mr,
    );
    crate::schwarz_precond::apply::law_additive_apply_is_exact(
        ops,
        value,
        entries,
        n_dofs,
        plan,
        s,
        ms,
    );
    let allow = plan.allow_inner_parallelism;
    let parts_r = choose|parts: Seq<Seq<T>>| #[trigger]
        crate::schwarz_precond::apply::are_local_solutions(ops, entries, allow, r, parts)
            && forall|dof: int|
            0 <= dof < n_dofs
                ==> #[trigger] crate::schwarz_precond::apply::contributions_add_up(
                value,
                entries,
                parts,
                dof,
                mr[dof],
            );
    let parts_s = choose|parts: Seq<Seq<T>>| #[trigger]
        crate::schwarz_precond::apply::are_local_solutions(ops, entries, allow, s, parts)
            && forall|dof: int|
            0 <= dof < n_dofs
                ==> #[trigger] crate::schwarz_precond::apply::contributions_add_up(
                value,
                entries,
                parts,
                dof,
                ms[dof],
            );
    assert forall|d: int| 0 <= d < parts_r.len() implies (#[trigger] parts_r[d]).len()
        <= entries[d].spec_core().indices().len() by {
        assert(crate::schwarz_precond::local_solve::is_weighted_local_solution(
            ops,
            entries[d],
            allow,
            r,
            parts_r[d],
        ));
    }
    assert forall|d: int| 0 <= d < parts_s.len() implies (#[trigger] parts_s[d]).len()
        <= entries[d].spec_core().indices().len() by {
        assert(crate::schwarz_precond::local_solve::is_weighted_local_solution(
            ops,
            entries[d],
            allow,
            s,
            parts_s[d],
        ));
    }
    let sv = |dof: int| value(s[dof]);
    let rv = |dof: int| value(r[dof]);
    lemma_pairing_of_apply::<T, A, S>(value, entries, n_dofs, parts_r, sv, mr);
    lemma_pairing_of_apply::<T, A, S>(value, entries, n_dofs, parts_s, rv, ms);
    lemma_parts_are_symmetric(
        ops,
        value,
        weight,
        entries,
        allow,
        r,
        s,
        parts_r,
        parts_s,
        entries.len() as int,
    );
    assert(parts_r.take(entries.len() as int) =~= parts_r);
    assert(parts_s.take(entries.len() as int) =~= parts_s);
    lemma_dot_is_total(value, s, mr);
    lemma_dot_is_total(value, r, ms);
    crate::operator::laws::lemma_total_same(
        n_dofs as int,
        |dof: int| sv(dof) * value(mr[dof]),
        |k: int| value(s[k]) * value(mr[k]),
    );
    crate::operator::laws::lemma_total_same(
        n_dofs as int,
        |dof: int| rv(dof) * value(ms[dof]),
        |k: int| value(r[k]) * value(ms[k]),
    );
}

} // verus!
