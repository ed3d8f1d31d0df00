//! The weighted rectangular design operator `A = W^{1/2} D`.

use vstd::prelude::*;

use crate::arithmetic::Arithmetic;
use crate::domain::design::Design;
use crate::kernels::AtomicBins;
use crate::operator::{gather_add, scatter_add};

verus! {

/// Weighted rectangular design operator: `A = W^{1/2} D`.
///
/// [`apply`](Self::apply) is `W^{1/2} D x` (observation space),
/// [`apply_adjoint`](Self::apply_adjoint) is `D^T W^{1/2} x` (coefficient space).
/// For unweighted designs both skip the scaling.
pub struct DesignOperator<'d, 'a, T, A, B> {
    /// The design.
    pub design: &'d Design<'a>,
    /// Square roots of the weights per observation; `None` when unweighted.
    pub sqrt_weights: Option<Vec<T>>,
    /// Scalar arithmetic.
    pub ops: &'d A,
    /// Shared accumulation for large factors.
    pub atomic: &'d B,
}

/// `roots[i]` is a value of the square root of `weights[i]`.
pub open spec fn are_square_roots<T, A: Arithmetic<T>>(
    ops: A,
    weights: Seq<T>,
    roots: Seq<T>,
) -> bool {
    &&& roots.len() == weights.len()
    &&& forall|i: int|
        0 <= i < weights.len() ==> call_ensures(
            A::square_root,
            (&ops, weights[i]),
            #[trigger] roots[i],
        )
}

/// `out[i]` is a value of `scale[i] * v[i]`, or `v[i]` itself without a scale.
pub open spec fn is_scaled<T, A: Arithmetic<T>>(
    ops: A,
    scale: Option<Vec<T>>,
    v: Seq<T>,
    out: Seq<T>,
) -> bool {
    &&& out.len() == v.len()
    &&& match scale {
        None => out == v,
        Some(scale) => forall|i: int|
            0 <= i < v.len() ==> crate::arithmetic::times_gives(
                ops,
                scale@[i],
                v[i],
                #[trigger] out[i],
            ),
    }
}

/// `out[i]` is a value of `v[i] * scale[i]`, or `v[i]` itself without a scale.
pub open spec fn is_scaled_in_place<T, A: Arithmetic<T>>(
    ops: A,
    scale: Option<Vec<T>>,
    v: Seq<T>,
    out: Seq<T>,
) -> bool {
    &&& out.len() == v.len()
    &&& match scale {
        None => out == v,
        Some(scale) => forall|i: int|
            0 <= i < v.len() ==> crate::arithmetic::times_gives(
                ops,
                v[i],
                scale@[i],
                #[trigger] out[i],
            ),
    }
}

/// `y` is a value of `W^{1/2} D x`: each row sums its coefficients from zero, in
/// term order, and is scaled afterwards.
pub open spec fn is_product<T, A: Arithmetic<T>>(
    ops: A,
    design: Design<'_>,
    sqrt_weights: Option<Vec<T>>,
    x: Seq<T>,
    y: Seq<T>,
) -> bool {
    exists|zeros: Seq<T>, sums: Seq<T>|
        crate::kernels::is_zeros(ops, design.n_obs as nat, zeros)
            && #[trigger] crate::operator::is_gather(ops, design, x, zeros, sums)
            && is_scaled_in_place(ops, sqrt_weights, sums, y)
}

/// `y` is a value of `D^T W^{1/2} x`: each row is scaled, and each coefficient
/// collects the rows at its level on top of zero.
pub open spec fn is_adjoint_product<T, A: Arithmetic<T>>(
    ops: A,
    design: Design<'_>,
    sqrt_weights: Option<Vec<T>>,
    x: Seq<T>,
    y: Seq<T>,
) -> bool {
    exists|zeros: Seq<T>, scaled: Seq<T>|
        crate::kernels::is_zeros(ops, design.n_dofs as nat, zeros) && is_scaled(
            ops,
            sqrt_weights,
            x,
            scaled,
        ) && #[trigger] crate::operator::is_scatter(ops, design, scaled, zeros, y)
}

/// Overwrite every entry with zero.
pub fn fill_zero<T: Copy, A: Arithmetic<T>>(v: &mut [T], ops: &A)
    ensures
        crate::kernels::is_zeros(*ops, old(v)@.len(), final(v)@),
{
    let zero: T = ops.zero();
    let n: usize = v.len();
    let mut i: usize = 0;
    while i < n
        invariant
            i <= n == v@.len() == old(v)@.len(),
            crate::arithmetic::zero_gives(*ops, zero),
            forall|j: int| 0 <= j < i ==> #[trigger] v@[j] == zero,
        decreases n - i,
    {
        v[i] = zero;
        i = i + 1;
    }
}

impl<'d, 'a, T: Copy + Send + Sync, A: Arithmetic<T> + Sync, B: AtomicBins<T, A>> DesignOperator<
    'd,
    'a,
    T,
    A,
    B,
> {
    /// The design is a well-formed plain design with one root weight per observation, if any.
    pub open spec fn wf(self) -> bool {
        &&& self.design.wf()
        &&& self.design.is_plain()
        &&& self.sqrt_weights matches Some(w) ==> w@.len() == self.design.n_obs
    }

    /// Create from a design and optional observation weights in internal row order.
    ///
    /// `weights = None` selects the unweighted fast path.
    pub fn new(design: &'d Design<'a>, weights: Option<&[T]>, ops: &'d A, atomic: &'d B) -> (operator:
        Self)
        requires
            design.wf(),
            design.is_plain(),
            weights matches Some(w) ==> w@.len() == design.n_obs,
        ensures
            operator.wf(),
            operator.design == design,
            operator.ops == ops,
            operator.atomic == atomic,
            match weights {
                None => operator.sqrt_weights is None,
                Some(w) => operator.sqrt_weights matches Some(roots) && are_square_roots(
                    *ops,
                    w@,
                    roots@,
                ),
            },
    {
        let sqrt_weights: Option<Vec<T>> = match weights {
            None => None,
            Some(w) => {
                let mut roots: Vec<T> = Vec::with_capacity(w.len());
                for i in 0..w.len()
                    invariant
                        roots@.len() == i,
                        forall|j: int|
                            0 <= j < i ==> call_ensures(
                                A::square_root,
                                (ops, w@[j]),
                                #[trigger] roots@[j],
                            ),
                {
                    roots.push(ops.square_root(w[i]));
                }
                Some(roots)
            },
        };
        DesignOperator { design, sqrt_weights, ops, atomic }
    }

    /// Number of observations.
    pub fn nrows(&self) -> (n: usize)
        ensures
            n == self.design.n_obs,
    {
        self.design.n_obs
    }

    /// Number of coefficients.
    pub fn ncols(&self) -> (n: usize)
        ensures
            n == self.design.n_dofs,
    {
        self.design.n_dofs
    }

    /// Compute the observation-space right-hand side `b = W^{1/2} y`.
    ///
    /// For unweighted designs, returns a copy of `y`.
    pub fn weighted_rhs(&self, y: &[T]) -> (b: Vec<T>)
        requires
            self.sqrt_weights matches Some(w) ==> w@.len() == y@.len(),
        ensures
            is_scaled(*self.ops, self.sqrt_weights, y@, b@),
    {
        let mut b: Vec<T> = Vec::with_capacity(y.len());
        match &self.sqrt_weights {
            None => {
                for i in 0..y.len()
                    invariant
                        b@ == y@.take(i as int),
                {
                    b.push(y[i]);
                    assert(b@ =~= y@.take(i + 1));
                }
                assert(y@.take(y@.len() as int) =~= y@);
            },
            Some(w) => {
                for i in 0..y.len()
                    invariant
                        w@.len() == y@.len(),
                        b@.len() == i,
                        forall|j: int|
                            0 <= j < i ==> crate::arithmetic::times_gives(
                                *self.ops,
                                w@[j],
                                y@[j],
                                #[trigger] b@[j],
                            ),
                {
                    b.push(self.ops.times(w[i], y[i]));
                }
            },
        }
        b
    }

    /// `y = W^{1/2} D x`
    pub fn apply(&self, x: &[T], y: &mut [T])
        requires
            self.wf(),
            x@.len() == self.design.n_dofs,
            old(y)@.len() == self.design.n_obs,
        ensures
            is_product(*self.ops, *self.design, self.sqrt_weights, x@, final(y)@),
    {
        fill_zero(y, self.ops);
        let ghost zeros = y@;
        gather_add(self.design, x, y, self.ops);
        let ghost sums = y@;
        let n: usize = self.design.n_obs;
        if let Some(w) = &self.sqrt_weights {
            let mut i: usize = 0;
            while i < n
                invariant
                    i <= n == y@.len() == sums.len() == w@.len(),
                    forall|j: int| i <= j < n ==> #[trigger] y@[j] == sums[j],
                    forall|j: int|
                        0 <= j < i ==> crate::arithmetic::times_gives(
                            *self.ops,
                            sums[j],
                            w@[j],
                            #[trigger] y@[j],
                        ),
                decreases n - i,
            {
                let scaled: T = self.ops.times(y[i], w[i]);
                y[i] = scaled;
                i = i + 1;
            }
        }
        proof {
            assert(is_scaled_in_place(*self.ops, self.sqrt_weights, sums, y@));
            assert(crate::operator::is_gather(*self.ops, *self.design, x@, zeros, sums));
        }
    }

    /// `y = D^T W^{1/2} x`
    pub fn apply_adjoint(&self, x: &[T], y: &mut [T])
        requires
            self.wf(),
            x@.len() == self.design.n_obs,
            old(y)@.len() == self.design.n_dofs,
        ensures
            is_adjoint_product(
                *self.ops,
                *self.design,
                self.sqrt_weights,
                x@,
                final(y)@,
            ),
    {
        fill_zero(y, self.ops);
        let ghost zeros = y@;
        let scaled: Vec<T> = self.weighted_rhs(x);
        scatter_add(self.design, y, scaled.as_slice(), self.ops, self.atomic);
        proof {
            assert(crate::operator::is_scatter(
                *self.ops,
                *self.design,
                scaled@,
                zeros,
                y@,
            ));
        }
    }
}

} // verus!
