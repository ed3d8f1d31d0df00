//! What a least-squares fit is, and what it does not depend on.
//!
//! Everything here is over real numbers.

use vstd::prelude::*;

use crate::arithmetic::Arithmetic;
use crate::domain::design::Design;

verus! {

/// Row `i` of `D x`: the sum of the coefficients of its levels.
pub open spec fn fitted(design: Design<'_>, x: Seq<real>, i: int) -> real {
    crate::operator::laws::total(
        design.terms@.len() as int,
        |q: int| x[design.terms@[q].offset + design.frame.levels()[q][i]],
    )
}

/// Entry of `D^T v` at level `l` of term `q`: the sum of the rows at that level.
pub open spec fn pull(design: Design<'_>, v: spec_fn(int) -> real, q: int, l: int) -> real {
    crate::operator::laws::total(
        design.n_obs as int,
        crate::operator::laws::at_level(design.frame.levels()[q], v, l),
    )
}

/// Row `i` of `W (y - D x)`.
pub open spec fn weighted_residual(
    design: Design<'_>,
    w: Seq<real>,
    y: Seq<real>,
    x: Seq<real>,
) -> spec_fn(int) -> real {
    |i: int| w[i] * (y[i] - fitted(design, x, i))
}

/// `x` solves the normal equations `D^T W (y - D x) = 0`.
pub open spec fn is_fit(design: Design<'_>, w: Seq<real>, y: Seq<real>, x: Seq<real>) -> bool {
    forall|q: int, l: int|
        0 <= q < design.terms@.len() && 0 <= l < design.terms@[q].n_levels ==> #[trigger] pull(
            design,
            weighted_residual(design, w, y, x),
            q,
            l,
        ) == 0real
}

/// `<v, D x>` by terms and levels.
proof fn lemma_pairing(design: Design<'_>, v: spec_fn(int) -> real, x: Seq<real>)
    requires
        design.wf(),
        design.is_plain(),
    ensures
        crate::operator::laws::total(
            design.n_obs as int,
            |i: int| v(i) * fitted(design, x, i),
        ) == crate::operator::laws::total(
            design.terms@.len() as int,
            |q: int|
                crate::operator::laws::total(
                    design.terms@[q].n_levels as int,
                    |l: int| x[design.terms@[q].offset + l] * pull(design, v, q, l),
                ),
        ),
{
    let n = design.n_obs as int;
    let m = design.terms@.len() as int;
    let levels = design.frame.levels();
    let pair = |i: int, q: int| v(i) * x[design.terms@[q].offset + levels[q][i]];
    let by_row = |i: int| v(i) * fitted(design, x, i);
    let row_pairs = |i: int| crate::operator::laws::total(m, |q: int| pair(i, q));
    assert forall|i: int| 0 <= i < n implies #[trigger] by_row(i) == row_pairs(i) by {
        let f = |q: int| x[design.terms@[q].offset + levels[q][i]];
        crate::operator::laws::lemma_total_scale(m, v(i), f);
        crate::operator::laws::lemma_total_same(m, |q: int| v(i) * f(q), |q: int| pair(i, q));
        crate::operator::laws::lemma_total_same(
            m,
            f,
            |q: int| x[design.terms@[q].offset + design.frame.levels()[q][i]],
        );
    }
    crate::operator::laws::lemma_total_same(n, by_row, row_pairs);
    crate::operator::laws::lemma_total_exchange(n, m, pair);
    let term_pairs = |q: int| crate::operator::laws::total(n, |i: int| pair(i, q));
    let by_term = |q: int|
        crate::operator::laws::total(
            design.terms@[q].n_levels as int,
            |l: int| x[design.terms@[q].offset + l] * pull(design, v, q, l),
        );
    assert forall|q: int| 0 <= q < m implies #[trigger] term_pairs(q) == by_term(q) by {
        let codes = levels[q];
        let n_levels = design.terms@[q].n_levels as int;
        let xq = |l: int| x[design.terms@[q].offset + l];
        assert(codes.len() == n);
        assert forall|i: int| 0 <= i < n implies #[trigger] codes[i] < n_levels by {
            assert(levels[q][i] < design.terms@[q].n_levels);
        }
        crate::operator::laws::lemma_term_transpose(codes, n, n_levels, xq, v);
        crate::operator::laws::lemma_total_same(n, |i: int| pair(i, q), |i: int| v(i) * xq(codes[i] as int));
        crate::operator::laws::lemma_total_same(
            n_levels,
            |l: int|
                xq(l) * crate::operator::laws::total(
                    n,
                    crate::operator::laws::at_level(codes, v, l),
                ),
            |l: int| x[design.terms@[q].offset + l] * pull(design, v, q, l),
        );
    }
    crate::operator::laws::lemma_total_same(m, term_pairs, by_term);
}

/// A total of non-negative numbers that vanishes has no positive part.
proof fn lemma_total_vanishes(n: int, f: spec_fn(int) -> real, i: int)
    requires
        forall|k: int| 0 <= k < n ==> #[trigger] f(k) >= 0real,
        crate::operator::laws::total(n, f) <= 0real,
        0 <= i < n,
    ensures
        f(i) == 0real,
    decreases n,
{
    lemma_total_at_least_zero(n - 1, f);
    assert(f(n - 1) >= 0real);
    if i < n - 1 {
        lemma_total_vanishes(n - 1, f, i);
    }
}

proof fn lemma_total_at_least_zero(n: int, f: spec_fn(int) -> real)
    requires
        forall|k: int| 0 <= k < n ==> #[trigger] f(k) >= 0real,
    ensures
        crate::operator::laws::total(n, f) >= 0real,
    decreases n,
{
    if n > 0 {
        lemma_total_at_least_zero(n - 1, f);
        assert(f(n - 1) >= 0real);
    }
}

/// The difference of two coefficient vectors.
pub open spec fn difference(a: Seq<real>, b: Seq<real>) -> Seq<real> {
    Seq::new(a.len(), |k: int| a[k] - b[k])
}

/// A vector times a number.
pub open spec fn scaled(c: real, v: Seq<real>) -> Seq<real> {
    Seq::new(v.len(), |k: int| c * v[k])
}

proof fn lemma_fitted_difference(design: Design<'_>, a: Seq<real>, b: Seq<real>, i: int)
    requires
        design.wf(),
        design.is_plain(),
        a.len() == b.len() == design.n_dofs,
        0 <= i < design.n_obs,
    ensures
        fitted(design, difference(a, b), i) == fitted(design, a, i) - fitted(design, b, i),
{
    let m = design.terms@.len() as int;
    let slot = |q: int| design.terms@[q].offset + design.frame.levels()[q][i];
    let f = |q: int| a[slot(q)];
    let g = |q: int| b[slot(q)];
    let d = |q: int| difference(a, b)[slot(q)];
    assert forall|q: int| 0 <= q < m implies #[trigger] f(q) == d(q) + g(q) by {
        crate::operator::lemma_term_in_range(design, q);
        assert(design.frame.levels()[q][i] < design.terms@[q].n_levels);
    }
    crate::operator::laws::lemma_total_same(m, f, |q: int| d(q) + g(q));
    crate::operator::laws::lemma_total_plus(m, d, g);
    crate::operator::laws::lemma_total_same(m, f, |q: int| a[design.terms@[q].offset + design.frame.levels()[q][i]]);
    crate::operator::laws::lemma_total_same(m, g, |q: int| b[design.terms@[q].offset + design.frame.levels()[q][i]]);
    crate::operator::laws::lemma_total_same(
        m,
        d,
        |q: int| difference(a, b)[design.terms@[q].offset + design.frame.levels()[q][i]],
    );
}

proof fn lemma_fitted_scaled(design: Design<'_>, c: real, x: Seq<real>, i: int)
    requires
        design.wf(),
        design.is_plain(),
        x.len() == design.n_dofs,
        0 <= i < design.n_obs,
    ensures
        fitted(design, scaled(c, x), i) == c * fitted(design, x, i),
{
    let m = design.terms@.len() as int;
    let f = |q: int| x[design.terms@[q].offset + design.frame.levels()[q][i]];
    let g = |q: int| scaled(c, x)[design.terms@[q].offset + design.frame.levels()[q][i]];
    assert forall|q: int| 0 <= q < m implies #[trigger] g(q) == (|q: int| c * f(q))(q) by {
        crate::operator::lemma_term_in_range(design, q);
        assert(design.frame.levels()[q][i] < design.terms@[q].n_levels);
    }
    crate::operator::laws::lemma_total_same(m, g, |q: int| c * f(q));
    crate::operator::laws::lemma_total_scale(m, c, f);
}

/// The sum of the rows at a level scales with the rows.
proof fn lemma_pull_scaled(
    design: Design<'_>,
    c: real,
    v: spec_fn(int) -> real,
    u: spec_fn(int) -> real,
    q: int,
    l: int,
)
    requires
        forall|i: int| 0 <= i < design.n_obs ==> #[trigger] u(i) == c * v(i),
    ensures
        pull(design, u, q, l) == c * pull(design, v, q, l),
{
    let n = design.n_obs as int;
    let codes = design.frame.levels()[q];
    let f = crate::operator::laws::at_level(codes, v, l);
    let g = crate::operator::laws::at_level(codes, u, l);
    assert forall|i: int| 0 <= i < n implies #[trigger] g(i) == (|i: int| c * f(i))(i) by {
        assert(u(i) == c * v(i));
        assert(c * 0real == 0real) by (nonlinear_arith);
    }
    crate::operator::laws::lemma_total_same(n, g, |i: int| c * f(i));
    crate::operator::laws::lemma_total_scale(n, c, f);
}

proof fn lemma_pull_difference(
    design: Design<'_>,
    a: spec_fn(int) -> real,
    b: spec_fn(int) -> real,
    u: spec_fn(int) -> real,
    q: int,
    l: int,
)
    requires
        forall|i: int| 0 <= i < design.n_obs ==> #[trigger] u(i) == a(i) - b(i),
    ensures
        pull(design, u, q, l) == pull(design, a, q, l) - pull(design, b, q, l),
{
    let n = design.n_obs as int;
    let codes = design.frame.levels()[q];
    let f = crate::operator::laws::at_level(codes, a, l);
    let g = crate::operator::laws::at_level(codes, b, l);
    let d = crate::operator::laws::at_level(codes, u, l);
    assert forall|i: int| 0 <= i < n implies #[trigger] f(i) == (|i: int| d(i) + g(i))(i) by {
        assert(u(i) == a(i) - b(i));
    }
    crate::operator::laws::lemma_total_same(n, f, |i: int| d(i) + g(i));
    crate::operator::laws::lemma_total_plus(n, d, g);
}

/// The fitted values, and with them the demeaned response, do not depend on
/// which solution of the normal equations was found: two fits agree at every
/// observation of positive weight.
pub proof fn law_fit_is_unique(
    design: Design<'_>,
    w: Seq<real>,
    y: Seq<real>,
    a: Seq<real>,
    b: Seq<real>,
    i: int,
)
    requires
        design.wf(),
        design.is_plain(),
        w.len() == y.len() == design.n_obs,
        a.len() == b.len() == design.n_dofs,
        forall|k: int| 0 <= k < w.len() ==> #[trigger] w[k] >= 0real,
        is_fit(design, w, y, a),
        is_fit(design, w, y, b),
        0 <= i < design.n_obs,
        w[i] > 0real,
    ensures
        fitted(design, a, i) == fitted(design, b, i),
        y[i] - fitted(design, a, i) == y[i] - fitted(design, b, i),
{
    let n = design.n_obs as int;
    let m = design.terms@.len() as int;
    let d = difference(a, b);
    let ra = weighted_residual(design, w, y, a);
    let rb = weighted_residual(design, w, y, b);
    let v = |k: int| w[k] * fitted(design, d, k);
    assert forall|k: int| 0 <= k < n implies #[trigger] v(k) == rb(k) - ra(k) by {
        lemma_fitted_difference(design, a, b, k);
        let fa = fitted(design, a, k);
        let fb = fitted(design, b, k);
        assert(w[k] * (fa - fb) == w[k] * (y[k] - fb) - w[k] * (y[k] - fa)) by (nonlinear_arith);
    }
    let by_term = |q: int|
        crate::operator::laws::total(
            design.terms@[q].n_levels as int,
            |l: int| d[design.terms@[q].offset + l] * pull(design, v, q, l),
        );
    assert forall|q: int| 0 <= q < m implies #[trigger] by_term(q) == (|q: int| 0real)(q) by {
        let n_levels = design.terms@[q].n_levels as int;
        let f = |l: int| d[design.terms@[q].offset + l] * pull(design, v, q, l);
        assert forall|l: int| 0 <= l < n_levels implies #[trigger] f(l) == (|l: int| 0real)(l) by {
            lemma_pull_difference(design, rb, ra, v, q, l);
            assert(pull(design, ra, q, l) == 0real);
            assert(pull(design, rb, q, l) == 0real);
            let x = d[design.terms@[q].offset + l];
            assert(x * 0real == 0real) by (nonlinear_arith);
        }
        crate::operator::laws::lemma_total_same(n_levels, f, |l: int| 0real);
        crate::operator::laws::lemma_total_zero(n_levels);
    }
    crate::operator::laws::lemma_total_same(m, by_term, |q: int| 0real);
    crate::operator::laws::lemma_total_zero(m);
    lemma_pairing(design, v, d);
    let squares = |k: int| v(k) * fitted(design, d, k);
    assert forall|k: int| 0 <= k < n implies #[trigger] squares(k) >= 0real by {
        let z = fitted(design, d, k);
        assert(w[k] >= 0real);
        assert(w[k] * z * z >= 0real) by (nonlinear_arith)
            requires
                w[k] >= 0real,
        ;
    }
    crate::operator::laws::lemma_total_same(n, squares, |k: int| v(k) * fitted(design, d, k));
    lemma_total_vanishes(n, squares, i);
    let z = fitted(design, d, i);
    assert(z == 0real) by (nonlinear_arith)
        requires
            w[i] * z * z == 0real,
            w[i] > 0real,
    ;
    lemma_fitted_difference(design, a, b, i);
}

/// The residual is linear in the response: a fit of `y` times `c` is a fit of
/// `c y`, and its residuals are `c` times those of `y`.
pub proof fn law_fit_scales_with_the_response(
    design: Design<'_>,
    w: Seq<real>,
    y: Seq<real>,
    x: Seq<real>,
    c: real,
)
    requires
        design.wf(),
        design.is_plain(),
        w.len() == y.len() == design.n_obs,
        x.len() == design.n_dofs,
        is_fit(design, w, y, x),
    ensures
        is_fit(design, w, scaled(c, y), scaled(c, x)),
        forall|i: int|
            0 <= i < design.n_obs ==> scaled(c, y)[i] - #[trigger] fitted(design, scaled(c, x), i)
                == c * (y[i] - fitted(design, x, i)),
{
    let r = weighted_residual(design, w, y, x);
    let s = weighted_residual(design, w, scaled(c, y), scaled(c, x));
    assert forall|i: int| 0 <= i < design.n_obs implies scaled(c, y)[i] - #[trigger] fitted(
        design,
        scaled(c, x),
        i,
    ) == c * (y[i] - fitted(design, x, i)) by {
        lemma_fitted_scaled(design, c, x, i);
        let f = fitted(design, x, i);
        assert(c * y[i] - c * f == c * (y[i] - f)) by (nonlinear_arith);
    }
    assert forall|i: int| 0 <= i < design.n_obs implies #[trigger] s(i) == c * r(i) by {
        let z = y[i] - fitted(design, x, i);
        assert(scaled(c, y)[i] - fitted(design, scaled(c, x), i) == c * z);
        assert(w[i] * (c * z) == c * (w[i] * z)) by (nonlinear_arith);
    }
    assert forall|q: int, l: int|
        0 <= q < design.terms@.len() && 0 <= l < design.terms@[q].n_levels implies #[trigger] pull(
        design,
        s,
        q,
        l,
    ) == 0real by {
        lemma_pull_scaled(design, c, r, s, q, l);
        assert(pull(design, r, q, l) == 0real);
        assert(c * 0real == 0real) by (nonlinear_arith);
    }
}

/// Scaling every weight by one positive number keeps the fits.
pub proof fn law_fit_ignores_the_scale_of_weights(
    design: Design<'_>,
    w: Seq<real>,
    y: Seq<real>,
    x: Seq<real>,
    k: real,
)
    requires
        w.len() == y.len() == design.n_obs,
        k > 0real,
    ensures
        is_fit(design, scaled(k, w), y, x) <==> is_fit(design, w, y, x),
{
    let r = weighted_residual(design, w, y, x);
    let s = weighted_residual(design, scaled(k, w), y, x);
    assert forall|i: int| 0 <= i < design.n_obs implies #[trigger] s(i) == k * r(i) by {
        let z = y[i] - fitted(design, x, i);
        assert(k * w[i] * z == k * (w[i] * z)) by (nonlinear_arith);
    }
    assert forall|q: int, l: int|
        #![trigger pull(design, s, q, l)]
        #![trigger pull(design, r, q, l)]
        pull(design, s, q, l) == 0real <==> pull(design, r, q, l) == 0real by {
        lemma_pull_scaled(design, k, r, s, q, l);
        let p = pull(design, r, q, l);
        assert(k * p == 0real <==> p == 0real) by (nonlinear_arith)
            requires
                k > 0real,
        ;
    }
}

/// The two designs have the same rows, levels and coefficients.
pub open spec fn is_same_model(a: Design<'_>, b: Design<'_>) -> bool {
    &&& a.n_obs == b.n_obs
    &&& a.n_obs_input == b.n_obs_input
    &&& a.n_dofs == b.n_dofs
    &&& crate::domain::design::optional_rows(a.rows) == crate::domain::design::optional_rows(b.rows)
    &&& a.frame.levels() == b.frame.levels()
    &&& a.terms@.len() == b.terms@.len()
    &&& forall|t: int|
        #![trigger a.terms@[t]]
        #![trigger b.terms@[t]]
        0 <= t < a.terms@.len() ==> a.terms@[t].offset == b.terms@[t].offset
            && a.terms@[t].n_levels == b.terms@[t].n_levels
}

/// Designs of the same model have the same fitted values.
proof fn lemma_same_fitted(a: Design<'_>, b: Design<'_>, x: Seq<real>, i: int)
    requires
        is_same_model(a, b),
    ensures
        fitted(a, x, i) == fitted(b, x, i),
{
    let m = a.terms@.len() as int;
    let f = |q: int| x[a.terms@[q].offset + a.frame.levels()[q][i]];
    let g = |q: int| x[b.terms@[q].offset + b.frame.levels()[q][i]];
    assert forall|q: int| 0 <= q < m implies #[trigger] f(q) == g(q) by {
        assert(a.terms@[q].offset == b.terms@[q].offset);
    }
    crate::operator::laws::lemma_total_same(m, f, g);
}

/// Designs of the same model have the same fits, with the same fitted values.
pub proof fn law_same_model_same_fits(
    a: Design<'_>,
    b: Design<'_>,
    w: Seq<real>,
    y: Seq<real>,
    x: Seq<real>,
)
    requires
        is_same_model(a, b),
    ensures
        is_fit(a, w, y, x) <==> is_fit(b, w, y, x),
        forall|i: int| #[trigger] fitted(a, x, i) == fitted(b, x, i),
{
    assert forall|i: int| #[trigger] fitted(a, x, i) == fitted(b, x, i) by {
        lemma_same_fitted(a, b, x, i);
    }
    let ra = weighted_residual(a, w, y, x);
    let rb = weighted_residual(b, w, y, x);
    assert forall|q: int, l: int|
        #![trigger pull(a, ra, q, l)]
        #![trigger pull(b, rb, q, l)]
        pull(a, ra, q, l) == pull(b, rb, q, l) by {
        let n = a.n_obs as int;
        let codes = a.frame.levels()[q];
        let f = crate::operator::laws::at_level(codes, ra, l);
        let g = crate::operator::laws::at_level(codes, rb, l);
        assert forall|i: int| 0 <= i < n implies #[trigger] f(i) == g(i) by {
            lemma_same_fitted(a, b, x, i);
        }
        crate::operator::laws::lemma_total_same(n, f, g);
    }
    if is_fit(a, w, y, x) {
        assert forall|q: int, l: int|
            0 <= q < b.terms@.len() && 0 <= l < b.terms@[q].n_levels implies #[trigger] pull(
            b,
            rb,
            q,
            l,
        ) == 0real by {
            assert(pull(a, ra, q, l) == 0real);
        }
    }
    if is_fit(b, w, y, x) {
        assert forall|q: int, l: int|
            0 <= q < a.terms@.len() && 0 <= l < a.terms@[q].n_levels implies #[trigger] pull(
            a,
            ra,
            q,
            l,
        ) == 0real by {
            assert(pull(b, rb, q, l) == 0real);
        }
    }
}

/// The values of a vector.
pub open spec fn values_of<T>(value: spec_fn(T) -> real, v: Seq<T>) -> Seq<real> {
    Seq::new(v.len(), |k: int| value(v[k]))
}

/// With exact arithmetic, the demeaned response is `y - D x`.
pub proof fn law_demeaned_is_residual<T, A: Arithmetic<T>>(
    ops: A,
    design: Design<'_>,
    value: spec_fn(T) -> real,
    y: Seq<T>,
    x: Seq<T>,
    internal: Seq<T>,
    i: int,
)
    requires
        design.wf(),
        design.is_plain(),
        crate::arithmetic::is_exact(ops, value),
        y.len() == design.n_obs,
        x.len() == design.n_dofs,
        crate::solver::is_demeaned(ops, design, y, x, internal),
        0 <= i < design.n_obs,
    ensures
        value(internal[i]) == value(y[i]) - fitted(design, values_of(value, x), i),
{
    let sums = choose|sums: Seq<T>| #[trigger]
        crate::operator::design_operator::is_product(ops, design, None, x, sums)
            && crate::solver::is_difference(ops, y, sums, internal);
    let (zeros, gathered) = choose|zeros: Seq<T>, gathered: Seq<T>|
        crate::kernels::is_zeros(ops, design.n_obs as nat, zeros)
            && #[trigger] crate::operator::is_gather(ops, design, x, zeros, gathered)
            && crate::operator::design_operator::is_scaled_in_place(ops, None, gathered, sums);
    crate::operator::laws::law_gather_is_exact(ops, design, value, x, zeros, gathered, i);
    assert(crate::arithmetic::minus_gives(ops, y[i], sums[i], internal[i]));
    let m = design.terms@.len() as int;
    let f = |q: int|
        crate::operator::laws::coefficient(design, value, x, q)(
            design.frame.levels()[q][i] as int,
        );
    let g = |q: int|
        values_of(value, x)[design.terms@[q].offset + design.frame.levels()[q][i]];
    assert forall|q: int| 0 <= q < m implies #[trigger] f(q) == g(q) by {
        crate::operator::lemma_term_in_range(design, q);
        assert(design.frame.levels()[q][i] < design.terms@[q].n_levels);
    }
    crate::operator::laws::lemma_total_same(m, f, g);
}

} // verus!
