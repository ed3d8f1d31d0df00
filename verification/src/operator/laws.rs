//! What gathering and scattering compute when arithmetic is exact.

use vstd::prelude::*;

use crate::arithmetic::Arithmetic;
use crate::domain::design::Design;
use crate::kernels::ScatterStrategy;

verus! {

/// `f(0) + f(1) + .. + f(n - 1)`
pub open spec fn total(n: int, f: spec_fn(int) -> real) -> real
    decreases n,
{
    if n <= 0 {
        0real
    } else {
        total(n - 1, f) + f(n - 1)
    }
}

pub proof fn lemma_total_same(n: int, f: spec_fn(int) -> real, g: spec_fn(int) -> real)
    requires
        forall|k: int| 0 <= k < n ==> #[trigger] f(k) == g(k),
    ensures
        total(n, f) == total(n, g),
    decreases n,
{
    if n > 0 {
        lemma_total_same(n - 1, f, g);
        assert(f(n - 1) == g(n - 1));
    }
}

pub proof fn lemma_total_plus(n: int, f: spec_fn(int) -> real, g: spec_fn(int) -> real)
    ensures
        total(n, |k: int| f(k) + g(k)) == total(n, f) + total(n, g),
    decreases n,
{
    if n > 0 {
        lemma_total_plus(n - 1, f, g);
    }
}

pub proof fn lemma_total_scale(n: int, c: real, f: spec_fn(int) -> real)
    ensures
        total(n, |k: int| c * f(k)) == c * total(n, f),
    decreases n,
{
    if n > 0 {
        lemma_total_scale(n - 1, c, f);
        assert(c * (total(n - 1, f) + f(n - 1)) == c * total(n - 1, f) + c * f(n - 1))
            by (nonlinear_arith);
    } else {
        assert(c * 0real == 0real) by (nonlinear_arith);
    }
}

pub proof fn lemma_total_zero(n: int)
    ensures
        total(n, |k: int| 0real) == 0real,
    decreases n,
{
    if n > 0 {
        lemma_total_zero(n - 1);
    }
}

/// The order of a double sum does not matter.
pub proof fn lemma_total_exchange(n: int, m: int, f: spec_fn(int, int) -> real)
    ensures
        total(n, |i: int| total(m, |q: int| f(i, q))) == total(m, |q: int| total(n, |i: int| f(i, q))),
    decreases m,
{
    if m <= 0 {
        lemma_total_same(n, |i: int| total(m, |q: int| f(i, q)), |i: int| 0real);
        lemma_total_zero(n);
    } else {
        lemma_total_exchange(n, m - 1, f);
        let head = |i: int| total(m - 1, |q: int| f(i, q));
        let last = |i: int| f(i, m - 1);
        let whole = |i: int| total(m, |q: int| f(i, q));
        lemma_total_same(n, whole, |i: int| head(i) + last(i));
        lemma_total_plus(n, head, last);
    }
}

pub proof fn lemma_total_split(a: int, b: int, f: spec_fn(int) -> real)
    requires
        0 <= a,
        0 <= b,
    ensures
        total(a + b, f) == total(a, f) + total(b, |l: int| f(a + l)),
    decreases b,
{
    if b > 0 {
        lemma_total_split(a, b - 1, f);
    }
}

/// Giving `y` to bin `c` adds `x(c) * y` to the weighted total of the bins.
pub proof fn lemma_total_bump(
    n: int,
    x: spec_fn(int) -> real,
    s: spec_fn(int) -> real,
    c: int,
    y: real,
)
    ensures
        total(
            n,
            |l: int|
                x(l) * (s(l) + if c == l {
                    y
                } else {
                    0real
                }),
        ) == total(n, |l: int| x(l) * s(l)) + if 0 <= c < n {
            x(c) * y
        } else {
            0real
        },
    decreases n,
{
    if n > 0 {
        lemma_total_bump(n - 1, x, s, c, y);
        let l = n - 1;
        let extra = if c == l {
            y
        } else {
            0real
        };
        assert(x(l) * (s(l) + extra) == x(l) * s(l) + x(l) * extra) by (nonlinear_arith);
        assert(x(l) * 0real == 0real) by (nonlinear_arith);
    }
}

/// The value of row `i` if its code is `level`, else zero.
pub open spec fn at_level(
    codes: Seq<u32>,
    y: spec_fn(int) -> real,
    level: int,
) -> spec_fn(int) -> real {
    |i: int|
        if codes[i] == level {
            y(i)
        } else {
            0real
        }
}

/// Pairing rows with the coefficient of their level is pairing coefficients
/// with the rows at their level.
pub proof fn lemma_term_transpose(
    codes: Seq<u32>,
    n: int,
    n_levels: int,
    x: spec_fn(int) -> real,
    y: spec_fn(int) -> real,
)
    requires
        0 <= n <= codes.len(),
        forall|i: int| 0 <= i < n ==> #[trigger] codes[i] < n_levels,
    ensures
        total(n, |i: int| y(i) * x(codes[i] as int)) == total(
            n_levels,
            |l: int| x(l) * total(n, at_level(codes, y, l)),
        ),
    decreases n,
{
    let now = |l: int| x(l) * total(n, at_level(codes, y, l));
    if n <= 0 {
        assert forall|l: int| 0 <= l < n_levels implies #[trigger] now(l) == (|l: int| 0real)(l) by {
            assert(x(l) * 0real == 0real) by (nonlinear_arith);
        }
        lemma_total_same(n_levels, now, |l: int| 0real);
        lemma_total_zero(n_levels);
    } else {
        lemma_term_transpose(codes, n - 1, n_levels, x, y);
        let c = codes[n - 1] as int;
        let s = |l: int| total(n - 1, at_level(codes, y, l));
        let bumped = |l: int|
            x(l) * (s(l) + if c == l {
                y(n - 1)
            } else {
                0real
            });
        assert forall|l: int| 0 <= l < n_levels implies #[trigger] now(l) == bumped(l) by {
            assert(at_level(codes, y, l)(n - 1) == if c == l {
                y(n - 1)
            } else {
                0real
            });
        }
        lemma_total_same(n_levels, now, bumped);
        lemma_total_bump(n_levels, x, s, c, y(n - 1));
        lemma_total_same(
            n_levels,
            |l: int| x(l) * s(l),
            |l: int| x(l) * total(n - 1, at_level(codes, y, l)),
        );
        assert(codes[n - 1] < n_levels);
        assert(x(c) * y(n - 1) == y(n - 1) * x(c)) by (nonlinear_arith);
    }
}

pub proof fn lemma_value_sum_total<T>(value: spec_fn(T) -> real, items: Seq<T>)
    ensures
        crate::arithmetic::value_sum(value, items) == total(
            items.len() as int,
            |k: int| value(items[k]),
        ),
    decreases items.len(),
{
    if items.len() > 0 {
        let front = items.drop_last();
        lemma_value_sum_total(value, front);
        lemma_total_same(
            front.len() as int,
            |k: int| value(front[k]),
            |k: int| value(items[k]),
        );
    }
}

pub proof fn lemma_level_sum_total<T>(
    value: spec_fn(T) -> real,
    codes: Seq<u32>,
    values: Seq<T>,
    level: int,
    n: int,
)
    requires
        0 <= n,
    ensures
        crate::arithmetic::value_sum(
            value,
            crate::kernels::values_between(codes, values, level, 0, n),
        ) == total(n, at_level(codes, |i: int| value(values[i]), level)),
    decreases n,
{
    if n > 0 {
        lemma_level_sum_total(value, codes, values, level, n - 1);
        let items = crate::kernels::values_between(codes, values, level, 0, n - 1);
        if codes[n - 1] == level {
            let longer = items.push(values[n - 1]);
            assert(longer.drop_last() =~= items);
        }
    }
}

/// The value of coefficient `l` of term `q`.
pub open spec fn coefficient<T>(
    design: Design<'_>,
    value: spec_fn(T) -> real,
    x: Seq<T>,
    q: int,
) -> spec_fn(int) -> real {
    |l: int| value(x[design.terms@[q].offset + l])
}

/// With exact arithmetic, gathering from zero gives each row the sum of its coefficients.
pub proof fn law_gather_is_exact<T, A: Arithmetic<T>>(
    ops: A,
    design: Design<'_>,
    value: spec_fn(T) -> real,
    x: Seq<T>,
    zeros: Seq<T>,
    sums: Seq<T>,
    i: int,
)
    requires
        crate::arithmetic::is_exact(ops, value),
        crate::kernels::is_zeros(ops, design.n_obs as nat, zeros),
        crate::operator::is_gather(ops, design, x, zeros, sums),
        0 <= i < design.n_obs,
    ensures
        value(sums[i]) == total(
            design.terms@.len() as int,
            |q: int| coefficient(design, value, x, q)(design.frame.levels()[q][i] as int),
        ),
{
    let items = design.gathered(x, i);
    assert(crate::arithmetic::sums_to(ops, zeros[i], items, sums[i]));
    assert(crate::arithmetic::zero_gives(ops, zeros[i]));
    crate::arithmetic::law_running_sum_is_exact(ops, value, zeros[i], items, sums[i]);
    lemma_value_sum_total(value, items);
    lemma_total_same(
        design.terms@.len() as int,
        |q: int| value(items[q]),
        |q: int| coefficient(design, value, x, q)(design.frame.levels()[q][i] as int),
    );
}

/// Whichever strategy scatters a factor, and whatever its bins held before: with
/// exact arithmetic each bin ends at its old value plus the sum of the rows at
/// its level. A level that no row has keeps its value.
pub proof fn law_scatter_adds_the_rows_of_a_level<T, A: Arithmetic<T>>(
    ops: A,
    value: spec_fn(T) -> real,
    strategy: ScatterStrategy,
    codes: Seq<u32>,
    values: Seq<T>,
    offset: int,
    n_levels: int,
    before: Seq<T>,
    after: Seq<T>,
    level: int,
)
    requires
        crate::arithmetic::is_exact(ops, value),
        crate::kernels::scatter_outcome(
            ops,
            strategy,
            codes,
            values,
            offset,
            n_levels,
            before,
            after,
        ),
        0 <= level < n_levels,
    ensures
        value(after[offset + level]) == value(before[offset + level]) + total(
            codes.len() as int,
            at_level(codes, |i: int| value(values[i]), level),
        ),
        (forall|i: int| 0 <= i < codes.len() ==> #[trigger] codes[i] != level) ==> value(
            after[offset + level],
        ) == value(before[offset + level]),
{
    let start = before[offset + level];
    let end = after[offset + level];
    let items = crate::kernels::values_at(codes, values, level);
    lemma_level_sum_total(value, codes, values, level, codes.len() as int);
    match strategy {
        ScatterStrategy::Sequential => {
            assert(crate::arithmetic::sums_to(ops, start, items, end));
            crate::arithmetic::law_running_sum_is_exact(ops, value, start, items, end);
        },
        ScatterStrategy::Atomic => {
            assert(crate::kernels::is_accumulated(ops, start, items, end));
            let all = items.push(start);
            crate::arithmetic::law_sum_is_exact(ops, value, all.to_multiset(), end);
            crate::arithmetic::law_value_sum_ignores_order(value, all);
            assert(all.drop_last() =~= items);
        },
        ScatterStrategy::Fold => {
            assert(crate::kernels::is_folded_sum(ops, start, items, end));
            let partial = choose|partial: T| #[trigger]
                crate::arithmetic::is_sum_of(ops, items.to_multiset(), partial)
                    && crate::arithmetic::plus_gives(ops, start, partial, end);
            crate::arithmetic::law_sum_is_exact(ops, value, items.to_multiset(), partial);
            crate::arithmetic::law_value_sum_ignores_order(value, items);
        },
    }
    if forall|i: int| 0 <= i < codes.len() ==> #[trigger] codes[i] != level {
        let f = at_level(codes, |i: int| value(values[i]), level);
        let n = codes.len() as int;
        assert forall|i: int| 0 <= i < n implies #[trigger] f(i) == (|i: int| 0real)(i) by {
            assert(codes[i] != level);
        }
        lemma_total_same(n, f, |i: int| 0real);
        lemma_total_zero(n);
    }
}

/// All strategies agree: with exact arithmetic, two scatters of the same rows
/// onto bins of the same values leave bins of the same values.
pub proof fn law_scatter_strategies_agree<T, A: Arithmetic<T>>(
    ops: A,
    value: spec_fn(T) -> real,
    first: ScatterStrategy,
    second: ScatterStrategy,
    codes: Seq<u32>,
    values: Seq<T>,
    offset: int,
    n_levels: int,
    before: Seq<T>,
    by_first: Seq<T>,
    by_second: Seq<T>,
    level: int,
)
    requires
        crate::arithmetic::is_exact(ops, value),
        crate::kernels::scatter_outcome(
            ops,
            first,
            codes,
            values,
            offset,
            n_levels,
            before,
            by_first,
        ),
        crate::kernels::scatter_outcome(
            ops,
            second,
            codes,
            values,
            offset,
            n_levels,
            before,
            by_second,
        ),
        0 <= level < n_levels,
    ensures
        value(by_first[offset + level]) == value(by_second[offset + level]),
{
    law_scatter_adds_the_rows_of_a_level(
        ops,
        value,
        first,
        codes,
        values,
        offset,
        n_levels,
        before,
        by_first,
        level,
    );
    law_scatter_adds_the_rows_of_a_level(
        ops,
        value,
        second,
        codes,
        values,
        offset,
        n_levels,
        before,
        by_second,
        level,
    );
}

/// With exact arithmetic, scattering onto zero gives each coefficient the sum of
/// the rows at its level, whichever loop does it.
pub proof fn law_scatter_is_exact<T, A: Arithmetic<T>>(
    ops: A,
    design: Design<'_>,
    value: spec_fn(T) -> real,
    y: Seq<T>,
    zeros: Seq<T>,
    bins: Seq<T>,
    q: int,
    level: int,
)
    requires
        design.wf(),
        design.is_plain(),
        crate::arithmetic::is_exact(ops, value),
        crate::kernels::is_zeros(ops, design.n_dofs as nat, zeros),
        crate::operator::is_scatter(ops, design, y, zeros, bins),
        0 <= q < design.terms@.len(),
        0 <= level < design.terms@[q].n_levels,
    ensures
        value(bins[design.terms@[q].offset + level]) == total(
            design.n_obs as int,
            at_level(design.frame.levels()[q], |i: int| value(y[i]), level),
        ),
{
    let slot = design.terms@[q].offset + level;
    let codes = design.frame.levels()[q];
    crate::operator::lemma_term_in_range(design, q);
    assert(crate::operator::is_term_scatter(ops, design, q, y, zeros, bins));
    assert(crate::arithmetic::zero_gives(ops, zeros[slot]));
    assert(codes.len() == design.n_obs);
    law_scatter_adds_the_rows_of_a_level(
        ops,
        value,
        crate::operator::spec_scatter_strategy(
            design.n_obs as nat,
            design.terms@[q].n_levels as nat,
        ),
        codes,
        y,
        design.terms@[q].offset as int,
        design.terms@[q].n_levels as int,
        zeros,
        bins,
        level,
    );
}

/// The coefficient space is the terms' coefficients one after another.
pub proof fn lemma_dof_total(design: Design<'_>, f: spec_fn(int) -> real, t: int)
    requires
        design.wf(),
        design.is_plain(),
        0 <= t <= design.terms@.len(),
    ensures
        total(crate::domain::design::offset_before(design.terms@, t) as int, f) == total(
            t,
            |q: int|
                total(
                    design.terms@[q].n_levels as int,
                    |l: int| f(design.terms@[q].offset + l),
                ),
        ),
    decreases t,
{
    if t > 0 {
        let terms = design.terms@;
        lemma_dof_total(design, f, t - 1);
        crate::operator::lemma_plain_offset(design, t - 1);
        let a = crate::domain::design::offset_before(terms, t - 1) as int;
        assert(terms[t - 1].offset == a);
        lemma_total_split(a, terms[t - 1].n_levels as int, f);
        lemma_total_same(
            terms[t - 1].n_levels as int,
            |l: int| f(a + l),
            |l: int| f(terms[t - 1].offset + l),
        );
    }
}

/// `D` and `D^T` are transposes of each other: with exact arithmetic,
/// `<y, D x> = <D^T y, x>`.
pub proof fn law_gather_and_scatter_are_transposes<T, A: Arithmetic<T>>(
    ops: A,
    design: Design<'_>,
    value: spec_fn(T) -> real,
    x: Seq<T>,
    y: Seq<T>,
    row_zeros: Seq<T>,
    dof_zeros: Seq<T>,
    d_x: Seq<T>,
    dt_y: Seq<T>,
)
    requires
        design.wf(),
        design.is_plain(),
        crate::arithmetic::is_exact(ops, value),
        crate::kernels::is_zeros(ops, design.n_obs as nat, row_zeros),
        crate::kernels::is_zeros(ops, design.n_dofs as nat, dof_zeros),
        crate::operator::is_gather(ops, design, x, row_zeros, d_x),
        crate::operator::is_scatter(ops, design, y, dof_zeros, dt_y),
    ensures
        total(design.n_obs as int, |i: int| value(y[i]) * value(d_x[i])) == total(
            design.n_dofs as int,
            |d: int| value(x[d]) * value(dt_y[d]),
        ),
{
    let n = design.n_obs as int;
    let m = design.terms@.len() as int;
    let levels = design.frame.levels();
    let yv = |i: int| value(y[i]);
    let pair = |i: int, q: int| yv(i) * coefficient(design, value, x, q)(levels[q][i] as int);
    // rows first
    let by_row = |i: int| value(y[i]) * value(d_x[i]);
    let row_pairs = |i: int| total(m, |q: int| pair(i, q));
    assert forall|i: int| 0 <= i < n implies #[trigger] by_row(i) == row_pairs(i) by {
        law_gather_is_exact(ops, design, value, x, row_zeros, d_x, i);
        let f = |q: int| coefficient(design, value, x, q)(levels[q][i] as int);
        lemma_total_scale(m, yv(i), f);
        lemma_total_same(m, |q: int| yv(i) * f(q), |q: int| pair(i, q));
    }
    lemma_total_same(n, by_row, row_pairs);
    lemma_total_exchange(n, m, pair);
    // terms first
    let f = |d: int| value(x[d]) * value(dt_y[d]);
    let term_pairs = |q: int| total(n, |i: int| pair(i, q));
    let by_term = |q: int|
        total(design.terms@[q].n_levels as int, |l: int| f(design.terms@[q].offset + l));
    assert forall|q: int| 0 <= q < m implies #[trigger] term_pairs(q) == by_term(q) by {
        let codes = levels[q];
        let n_levels = design.terms@[q].n_levels as int;
        let xq = coefficient(design, value, x, q);
        assert(codes.len() == n);
        assert forall|i: int| 0 <= i < n implies #[trigger] codes[i] < n_levels by {
            assert(levels[q][i] < design.terms@[q].n_levels);
        }
        lemma_term_transpose(codes, n, n_levels, xq, yv);
        lemma_total_same(n, |i: int| pair(i, q), |i: int| yv(i) * xq(codes[i] as int));
        let by_level = |l: int| xq(l) * total(n, at_level(codes, yv, l));
        let by_slot = |l: int| f(design.terms@[q].offset + l);
        assert forall|l: int| 0 <= l < n_levels implies #[trigger] by_level(l) == by_slot(l) by {
            law_scatter_is_exact(ops, design, value, y, dof_zeros, dt_y, q, l);
            lemma_total_same(
                n,
                at_level(codes, yv, l),
                at_level(codes, |i: int| value(y[i]), l),
            );
        }
        lemma_total_same(n_levels, by_level, by_slot);
    }
    lemma_total_same(m, term_pairs, by_term);
    lemma_dof_total(design, f, m);
}

/// The value of the factor that scales row `i`; without weights it is one.
pub open spec fn row_scale<T>(
    value: spec_fn(T) -> real,
    sqrt_weights: Option<Vec<T>>,
    i: int,
) -> real {
    match sqrt_weights {
        None => 1real,
        Some(s) => value(s@[i]),
    }
}

/// With exact arithmetic, row `i` of `A x` is the sum of its coefficients times
/// the row's scale, whatever the output held before.
pub proof fn law_product_is_exact<T, A: Arithmetic<T>>(
    ops: A,
    design: Design<'_>,
    value: spec_fn(T) -> real,
    sqrt_weights: Option<Vec<T>>,
    x: Seq<T>,
    ax: Seq<T>,
    i: int,
)
    requires
        crate::arithmetic::is_exact(ops, value),
        crate::operator::design_operator::is_product(ops, design, sqrt_weights, x, ax),
        0 <= i < design.n_obs,
    ensures
        value(ax[i]) == row_scale(value, sqrt_weights, i) * total(
            design.terms@.len() as int,
            |q: int| coefficient(design, value, x, q)(design.frame.levels()[q][i] as int),
        ),
{
    let (zeros, sums) = choose|zeros: Seq<T>, sums: Seq<T>|
        crate::kernels::is_zeros(ops, design.n_obs as nat, zeros)
            && #[trigger] crate::operator::is_gather(ops, design, x, zeros, sums)
            && crate::operator::design_operator::is_scaled_in_place(ops, sqrt_weights, sums, ax);
    law_gather_is_exact(ops, design, value, x, zeros, sums, i);
    let v = value(sums[i]);
    match sqrt_weights {
        None => {
            assert(1real * v == v) by (nonlinear_arith);
        },
        Some(s) => {
            assert(crate::arithmetic::times_gives(ops, sums[i], s@[i], ax[i]));
            let a = value(s@[i]);
            assert(v * a == a * v) by (nonlinear_arith);
        },
    }
}

/// With exact arithmetic, the coefficient of level `level` in `A^T u` is the sum
/// of the scaled rows at that level, whatever the output held before.
pub proof fn law_adjoint_product_is_exact<T, A: Arithmetic<T>>(
    ops: A,
    design: Design<'_>,
    value: spec_fn(T) -> real,
    sqrt_weights: Option<Vec<T>>,
    u: Seq<T>,
    atu: Seq<T>,
    q: int,
    level: int,
)
    requires
        design.wf(),
        design.is_plain(),
        crate::arithmetic::is_exact(ops, value),
        u.len() == design.n_obs,
        crate::operator::design_operator::is_adjoint_product(ops, design, sqrt_weights, u, atu),
        0 <= q < design.terms@.len(),
        0 <= level < design.terms@[q].n_levels,
    ensures
        value(atu[design.terms@[q].offset + level]) == total(
            design.n_obs as int,
            at_level(
                design.frame.levels()[q],
                |i: int| row_scale(value, sqrt_weights, i) * value(u[i]),
                level,
            ),
        ),
{
    let n = design.n_obs as int;
    let codes = design.frame.levels()[q];
    let (zeros, scaled) = choose|zeros: Seq<T>, scaled: Seq<T>|
        crate::kernels::is_zeros(ops, design.n_dofs as nat, zeros)
            && crate::operator::design_operator::is_scaled(ops, sqrt_weights, u, scaled)
            && #[trigger] crate::operator::is_scatter(ops, design, scaled, zeros, atu);
    law_scatter_is_exact(ops, design, value, scaled, zeros, atu, q, level);
    let f = at_level(codes, |i: int| value(scaled[i]), level);
    let g = at_level(codes, |i: int| row_scale(value, sqrt_weights, i) * value(u[i]), level);
    assert forall|i: int| 0 <= i < n implies #[trigger] f(i) == g(i) by {
        match sqrt_weights {
            None => {
                let v = value(u[i]);
                assert(1real * v == v) by (nonlinear_arith);
            },
            Some(s) => {
                assert(crate::arithmetic::times_gives(ops, s@[i], u[i], scaled[i]));
            },
        }
    }
    lemma_total_same(n, f, g);
}

/// The weighted operator `A = W^{1/2} D` and its adjoint are transposes of each
/// other: with exact arithmetic, `<u, A x> = <A^T u, x>`.
pub proof fn law_operator_and_adjoint_are_transposes<T, A: Arithmetic<T>>(
    ops: A,
    design: Design<'_>,
    value: spec_fn(T) -> real,
    sqrt_weights: Option<Vec<T>>,
    x: Seq<T>,
    u: Seq<T>,
    ax: Seq<T>,
    atu: Seq<T>,
)
    requires
        design.wf(),
        design.is_plain(),
        crate::arithmetic::is_exact(ops, value),
        u.len() == design.n_obs,
        crate::operator::design_operator::is_product(ops, design, sqrt_weights, x, ax),
        crate::operator::design_operator::is_adjoint_product(ops, design, sqrt_weights, u, atu),
    ensures
        total(design.n_obs as int, |i: int| value(u[i]) * value(ax[i])) == total(
            design.n_dofs as int,
            |d: int| value(x[d]) * value(atu[d]),
        ),
{
    let n = design.n_obs as int;
    let (row_zeros, sums) = choose|zeros: Seq<T>, sums: Seq<T>|
        crate::kernels::is_zeros(ops, design.n_obs as nat, zeros)
            && #[trigger] crate::operator::is_gather(ops, design, x, zeros, sums)
            && crate::operator::design_operator::is_scaled_in_place(ops, sqrt_weights, sums, ax);
    let (dof_zeros, scaled) = choose|zeros: Seq<T>, scaled: Seq<T>|
        crate::kernels::is_zeros(ops, design.n_dofs as nat, zeros)
            && crate::operator::design_operator::is_scaled(ops, sqrt_weights, u, scaled)
            && #[trigger] crate::operator::is_scatter(ops, design, scaled, zeros, atu);
    law_gather_and_scatter_are_transposes(
        ops,
        design,
        value,
        x,
        scaled,
        row_zeros,
        dof_zeros,
        sums,
        atu,
    );
    let f = |i: int| value(u[i]) * value(ax[i]);
    let g = |i: int| value(scaled[i]) * value(sums[i]);
    assert forall|i: int| 0 <= i < n implies #[trigger] f(i) == g(i) by {
        match sqrt_weights {
            None => {},
            Some(s) => {
                assert(crate::arithmetic::times_gives(ops, s@[i], u[i], scaled[i]));
                assert(crate::arithmetic::times_gives(ops, sums[i], s@[i], ax[i]));
                let a = value(s@[i]);
                let b = value(u[i]);
                let c = value(sums[i]);
                assert(b * (c * a) == (a * b) * c) by (nonlinear_arith);
            },
        }
    }
    lemma_total_same(n, f, g);
}

/// Gathering adds: with exact arithmetic, whatever a row held before, it ends at
/// that plus the sum of the coefficients of its levels.
pub proof fn law_gather_adds_the_coefficients_of_a_row<T, A: Arithmetic<T>>(
    ops: A,
    design: Design<'_>,
    value: spec_fn(T) -> real,
    x: Seq<T>,
    before: Seq<T>,
    after: Seq<T>,
    i: int,
)
    requires
        crate::arithmetic::is_exact(ops, value),
        crate::operator::is_gather(ops, design, x, before, after),
        0 <= i < before.len(),
    ensures
        after.len() == before.len(),
        value(after[i]) == value(before[i]) + total(
            design.terms@.len() as int,
            |q: int| value(x[design.terms@[q].offset + design.frame.levels()[q][i]]),
        ),
{
    let items = design.gathered(x, i);
    assert(crate::arithmetic::sums_to(ops, before[i], items, after[i]));
    crate::arithmetic::law_running_sum_is_exact(ops, value, before[i], items, after[i]);
    lemma_value_sum_total(value, items);
    lemma_total_same(
        design.terms@.len() as int,
        |q: int| value(items[q]),
        |q: int| value(x[design.terms@[q].offset + design.frame.levels()[q][i]]),
    );
}

/// Scattering adds: with exact arithmetic, whatever the coefficient of a level
/// held before, it ends at that plus the sum of the rows at the level.
pub proof fn law_scatter_adds_the_rows_of_every_term<T, A: Arithmetic<T>>(
    ops: A,
    design: Design<'_>,
    value: spec_fn(T) -> real,
    y: Seq<T>,
    before: Seq<T>,
    after: Seq<T>,
    q: int,
    level: int,
)
    requires
        design.wf(),
        crate::arithmetic::is_exact(ops, value),
        crate::operator::is_scatter(ops, design, y, before, after),
        0 <= q < design.terms@.len(),
        0 <= level < design.terms@[q].n_levels,
    ensures
        after.len() == before.len(),
        value(after[design.terms@[q].offset + level]) == value(
            before[design.terms@[q].offset + level],
        ) + total(
            design.n_obs as int,
            |k: int|
                if design.frame.levels()[q][k] == level {
                    value(y[k])
                } else {
                    0real
                },
        ),
{
    let codes = design.frame.levels()[q];
    assert(crate::operator::is_term_scatter(ops, design, q, y, before, after));
    assert(codes.len() == design.n_obs);
    law_scatter_adds_the_rows_of_a_level(
        ops,
        value,
        crate::operator::spec_scatter_strategy(
            design.n_obs as nat,
            design.terms@[q].n_levels as nat,
        ),
        codes,
        y,
        design.terms@[q].offset as int,
        design.terms@[q].n_levels as int,
        before,
        after,
        level,
    );
    lemma_total_same(
        design.n_obs as int,
        at_level(codes, |i: int| value(y[i]), level),
        |k: int|
            if design.frame.levels()[q][k] == level {
                value(y[k])
            } else {
                0real
            },
    );
}

/// With exact arithmetic, the norm is the non-negative root of the sum of squares.
pub proof fn law_norm_is_the_root_of_the_squares<T, A: Arithmetic<T>>(
    ops: A,
    value: spec_fn(T) -> real,
    v: Seq<T>,
    norm: T,
)
    requires
        crate::arithmetic::is_exact_field(ops, value),
        crate::schwarz_precond::solve::is_norm(ops, v, norm),
    ensures
        value(norm) >= 0real,
        value(norm) * value(norm) == total(v.len() as int, |k: int| value(v[k]) * value(v[k])),
{
    let sum = choose|sum: T| #[trigger]
        crate::schwarz_precond::solve::is_dot(ops, v, v, sum) && crate::arithmetic::root_gives(
            ops,
            sum,
            norm,
        );
    crate::schwarz_precond::solve::law_dot_is_exact(ops, value, v, v, sum);
    crate::schwarz_precond::symmetry::lemma_dot_is_total(value, v, v);
    let f = |k: int| value(v[k]) * value(v[k]);
    crate::solver::meaning::lemma_total_of_squares(v.len() as int, f, v, value);
    lemma_total_same(v.len() as int, f, |k: int| value(v[k]) * value(v[k]));
}

} // verus!
