//! Observation columns: categorical level codes and continuous loadings.

use std::borrow::Cow;

use vstd::prelude::*;

use crate::binary64::Binary64;
use crate::error::BuildError;

verus! {

/// The elements of a borrowed-or-owned slice.
pub open spec fn elements<'a, T: Clone>(column: Cow<'a, [T]>) -> Seq<T> {
    match column {
        Cow::Borrowed(slice) => slice@,
        Cow::Owned(items) => items@,
    }
}

/// The elements of each column.
pub open spec fn all_elements<'a, T: Clone>(columns: Seq<Cow<'a, [T]>>) -> Seq<Seq<T>> {
    Seq::new(columns.len(), |q: int| elements(columns[q]))
}

/// Borrow a column's elements.
pub fn as_slice<'s, 'a, T: Clone>(column: &'s Cow<'a, [T]>) -> (slice: &'s [T])
    ensures
        slice@ == elements(*column),
{
    match column {
        Cow::Borrowed(slice) => slice,
        Cow::Owned(items) => items.as_slice(),
    }
}

/// `values[rows[0]], values[rows[1]], ..`
pub open spec fn selected<T>(values: Seq<T>, rows: Seq<u32>) -> Seq<T> {
    Seq::new(rows.len(), |k: int| values[rows[k] as int])
}

/// Gather `values[rows[k]]` for each `k`.
pub fn select<T: Copy>(values: &[T], rows: &[u32]) -> (out: Vec<T>)
    requires
        forall|k: int| 0 <= k < rows@.len() ==> #[trigger] rows@[k] < values@.len(),
    ensures
        out@ == selected(values@, rows@),
{
    let mut out: Vec<T> = Vec::with_capacity(rows.len());
    for k in 0..rows.len()
        invariant
            forall|k: int| 0 <= k < rows@.len() ==> #[trigger] rows@[k] < values@.len(),
            out@ == selected(values@, rows@.take(k as int)),
    {
        out.push(values[rows[k] as usize]);
    }
    proof {
        assert(rows@.take(rows@.len() as int) =~= rows@);
    }
    out
}

/// Observation columns of equal length.
#[derive(Clone, Debug)]
pub struct ObservationFrame<'a> {
    categorical: Vec<Cow<'a, [u32]>>,
    continuous: Vec<Cow<'a, [Binary64]>>,
    n_obs: usize,
}

/// Number of observations implied by columns given in this order: the first column's length.
pub open spec fn implied_n_obs(categorical: Seq<Seq<u32>>, continuous: Seq<Seq<Binary64>>) -> nat {
    if categorical.len() > 0 {
        categorical[0].len()
    } else if continuous.len() > 0 {
        continuous[0].len()
    } else {
        0
    }
}

/// Length of the `k`-th column, categorical columns first.
pub open spec fn column_len(
    categorical: Seq<Seq<u32>>,
    continuous: Seq<Seq<Binary64>>,
    k: int,
) -> nat {
    if k < categorical.len() {
        categorical[k].len()
    } else {
        continuous[k - categorical.len()].len()
    }
}

/// `k` is the first column whose length is not `n_obs`.
pub open spec fn is_first_mismatch(
    categorical: Seq<Seq<u32>>,
    continuous: Seq<Seq<Binary64>>,
    n_obs: nat,
    k: int,
) -> bool {
    &&& 0 <= k < categorical.len() + continuous.len()
    &&& column_len(categorical, continuous, k) != n_obs
    &&& forall|j: int| 0 <= j < k ==> #[trigger] column_len(categorical, continuous, j) == n_obs
}

/// Every column has `n_obs` elements.
pub open spec fn all_have_length(
    categorical: Seq<Seq<u32>>,
    continuous: Seq<Seq<Binary64>>,
    n_obs: nat,
) -> bool {
    &&& forall|q: int| 0 <= q < categorical.len() ==> (#[trigger] categorical[q]).len() == n_obs
    &&& forall|c: int| 0 <= c < continuous.len() ==> (#[trigger] continuous[c]).len() == n_obs
}

impl<'a> ObservationFrame<'a> {
    /// Level codes per categorical column.
    pub closed spec fn levels(self) -> Seq<Seq<u32>> {
        all_elements(self.categorical@)
    }

    /// Loadings per continuous column.
    pub closed spec fn loadings(self) -> Seq<Seq<Binary64>> {
        all_elements(self.continuous@)
    }

    /// Number of observations.
    pub closed spec fn spec_n_obs(self) -> nat {
        self.n_obs as nat
    }

    /// Every column has one element per observation.
    pub open spec fn wf(self) -> bool {
        all_have_length(self.levels(), self.loadings(), self.spec_n_obs())
    }

    /// Put columns together.
    ///
    /// The first column fixes the number of observations. The first column of
    /// another length is reported by its position, continuous columns being
    /// numbered after the categorical ones.
    pub fn new(
        categorical: Vec<Cow<'a, [u32]>>,
        continuous: Vec<Cow<'a, [Binary64]>>,
    ) -> (result: Result<ObservationFrame<'a>, BuildError>)
        requires
            categorical@.len() + continuous@.len() <= usize::MAX,
        ensures
            ({
                let levels = all_elements(categorical@);
                let loadings = all_elements(continuous@);
                let n_obs = implied_n_obs(levels, loadings);
                match result {
                    Ok(frame) => {
                        &&& frame.wf()
                        &&& frame.levels() == levels
                        &&& frame.loadings() == loadings
                        &&& frame.spec_n_obs() == n_obs
                    },
                    Err(e) => e matches BuildError::ObservationCountMismatch { factor, expected, got }
                        && expected == n_obs && is_first_mismatch(
                        levels,
                        loadings,
                        n_obs,
                        factor as int,
                    ) && got == column_len(levels, loadings, factor as int),
                }
            }),
    {
        let ghost levels = all_elements(categorical@);
        let ghost loadings = all_elements(continuous@);
        let n_obs: usize = if categorical.len() > 0 {
            as_slice(&categorical[0]).len()
        } else if continuous.len() > 0 {
            as_slice(&continuous[0]).len()
        } else {
            0
        };
        for q in 0..categorical.len()
            invariant
                levels == all_elements(categorical@),
                loadings == all_elements(continuous@),
                n_obs == implied_n_obs(levels, loadings),
                forall|j: int| 0 <= j < q ==> #[trigger] column_len(levels, loadings, j) == n_obs,
        {
            let got: usize = as_slice(&categorical[q]).len();
            if got != n_obs {
                proof {
                    assert(is_first_mismatch(levels, loadings, n_obs as nat, q as int));
                }
                return Err(
                    BuildError::ObservationCountMismatch { factor: q, expected: n_obs, got },
                );
            }
        }
        for c in 0..continuous.len()
            invariant
                levels == all_elements(categorical@),
                loadings == all_elements(continuous@),
                n_obs == implied_n_obs(levels, loadings),
                categorical@.len() + continuous@.len() <= usize::MAX,
                forall|j: int|
                    0 <= j < categorical@.len() + c ==> #[trigger] column_len(levels, loadings, j)
                        == n_obs,
        {
            let got: usize = as_slice(&continuous[c]).len();
            if got != n_obs {
                proof {
                    assert(is_first_mismatch(
                        levels,
                        loadings,
                        n_obs as nat,
                        categorical@.len() + c,
                    ));
                }
                return Err(
                    BuildError::ObservationCountMismatch {
                        factor: categorical.len() + c,
                        expected: n_obs,
                        got,
                    },
                );
            }
        }
        let frame = ObservationFrame { categorical, continuous, n_obs };
        proof {
            assert forall|q: int| 0 <= q < levels.len() implies (#[trigger] levels[q]).len()
                == n_obs by {
                assert(column_len(levels, loadings, q) == n_obs);
            }
            assert forall|c: int| 0 <= c < loadings.len() implies (#[trigger] loadings[c]).len()
                == n_obs by {
                assert(column_len(levels, loadings, levels.len() + c) == n_obs);
            }
        }
        Ok(frame)
    }

    /// Number of observations.
    pub fn n_obs(&self) -> (n: usize)
        ensures
            n == self.spec_n_obs(),
    {
        self.n_obs
    }

    /// Number of categorical columns.
    pub fn n_factors(&self) -> (n: usize)
        ensures
            n == self.levels().len(),
    {
        self.categorical.len()
    }

    /// Level codes of categorical column `factor`.
    pub fn level_column(&self, factor: usize) -> (column: &[u32])
        requires
            factor < self.levels().len(),
        ensures
            column@ == self.levels()[factor as int],
    {
        as_slice(&self.categorical[factor])
    }

    /// Loadings of continuous column `column`.
    pub fn loading_column(&self, column: usize) -> (values: &[Binary64])
        requires
            column < self.loadings().len(),
        ensures
            values@ == self.loadings()[column as int],
    {
        as_slice(&self.continuous[column])
    }

    /// The frame whose `k`-th observation is this frame's observation `rows[k]`.
    pub fn permuted(self, rows: &[u32]) -> (frame: ObservationFrame<'a>)
        requires
            self.wf(),
            forall|k: int| 0 <= k < rows@.len() ==> #[trigger] rows@[k] < self.spec_n_obs(),
        ensures
            frame.wf(),
            frame.spec_n_obs() == rows@.len(),
            frame.levels() == self.levels().map_values(|column: Seq<u32>| selected(column, rows@)),
            frame.loadings() == self.loadings().map_values(
                |column: Seq<Binary64>| selected(column, rows@),
            ),
    {
        let mut categorical: Vec<Cow<'a, [u32]>> = Vec::with_capacity(self.categorical.len());
        let mut continuous: Vec<Cow<'a, [Binary64]>> = Vec::with_capacity(self.continuous.len());
        for q in 0..self.categorical.len()
            invariant
                self.wf(),
                forall|k: int| 0 <= k < rows@.len() ==> #[trigger] rows@[k] < self.spec_n_obs(),
                categorical@.len() == q,
                forall|j: int|
                    0 <= j < q ==> elements(#[trigger] categorical@[j]) == selected(
                        self.levels()[j],
                        rows@,
                    ),
        {
            assert(self.levels()[q as int].len() == self.spec_n_obs());
            categorical.push(Cow::Owned(select(self.level_column(q), rows)));
        }
        for c in 0..self.continuous.len()
            invariant
                self.wf(),
                forall|k: int| 0 <= k < rows@.len() ==> #[trigger] rows@[k] < self.spec_n_obs(),
                continuous@.len() == c,
                forall|j: int|
                    0 <= j < c ==> elements(#[trigger] continuous@[j]) == selected(
                        self.loadings()[j],
                        rows@,
                    ),
        {
            assert(self.loadings()[c as int].len() == self.spec_n_obs());
            continuous.push(Cow::Owned(select(self.loading_column(c), rows)));
        }
        let frame = ObservationFrame { categorical, continuous, n_obs: rows.len() };
        proof {
            assert(frame.levels() =~= self.levels().map_values(
                |column: Seq<u32>| selected(column, rows@),
            ));
            assert(frame.loadings() =~= self.loadings().map_values(
                |column: Seq<Binary64>| selected(column, rows@),
            ));
        }
        frame
    }
}

/// Factor columns kept one after another.
#[derive(Clone, Debug)]
pub struct FactorMajorStore {
    factor_levels: Vec<Vec<u32>>,
    n_obs: usize,
}

/// The elements of each vector.
pub open spec fn vec_elements<T>(columns: Seq<Vec<T>>) -> Seq<Seq<T>> {
    Seq::new(columns.len(), |q: int| columns[q]@)
}

impl FactorMajorStore {
    /// Level codes per factor.
    pub closed spec fn levels(self) -> Seq<Seq<u32>> {
        vec_elements(self.factor_levels@)
    }

    /// Number of observations.
    pub closed spec fn spec_n_obs(self) -> nat {
        self.n_obs as nat
    }

    /// Every factor has one level per observation.
    pub open spec fn wf(self) -> bool {
        forall|q: int|
            0 <= q < self.levels().len() ==> (#[trigger] self.levels()[q]).len()
                == self.spec_n_obs()
    }

    /// Keep one column per factor, each of `n_obs` level codes.
    pub fn new(factor_levels: Vec<Vec<u32>>, n_obs: usize) -> (result: Result<
        FactorMajorStore,
        BuildError,
    >)
        ensures
            match result {
                Ok(store) => {
                    &&& store.wf()
                    &&& store.levels() == vec_elements(factor_levels@)
                    &&& store.spec_n_obs() == n_obs
                },
                Err(e) => e matches BuildError::ObservationCountMismatch { factor, expected, got }
                    && expected == n_obs && factor < factor_levels@.len() && got
                    == factor_levels@[factor as int]@.len() && got != n_obs && (forall|q: int|
                    0 <= q < factor ==> (#[trigger] factor_levels@[q])@.len() == n_obs),
            },
    {
        for q in 0..factor_levels.len()
            invariant
                forall|j: int| 0 <= j < q ==> (#[trigger] factor_levels@[j])@.len() == n_obs,
        {
            if factor_levels[q].len() != n_obs {
                return Err(
                    BuildError::ObservationCountMismatch {
                        factor: q,
                        expected: n_obs,
                        got: factor_levels[q].len(),
                    },
                );
            }
        }
        Ok(FactorMajorStore { factor_levels, n_obs })
    }

    /// The same columns as a frame without continuous columns.
    pub fn into_frame(self) -> (frame: ObservationFrame<'static>)
        requires
            self.wf(),
        ensures
            frame.wf(),
            frame.levels() == self.levels(),
            frame.loadings() == Seq::<Seq<Binary64>>::empty(),
            frame.spec_n_obs() == self.spec_n_obs(),
    {
        let n_obs: usize = self.n_obs;
        let mut categorical: Vec<Cow<'static, [u32]>> = Vec::with_capacity(
            self.factor_levels.len(),
        );
        for column in iter: self.factor_levels
            invariant
                iter.seq() == self.factor_levels@,
                categorical@.len() == iter.index(),
                forall|q: int|
                    0 <= q < categorical@.len() ==> elements(#[trigger] categorical@[q])
                        == self.factor_levels@[q]@,
        {
            categorical.push(Cow::Owned(column));
        }
        let frame = ObservationFrame { categorical, continuous: Vec::new(), n_obs };
        proof {
            assert(frame.levels() =~= self.levels());
            assert(frame.loadings() =~= Seq::<Seq<Binary64>>::empty());
        }
        frame
    }
}

/// A copy of a column that borrows nothing.
pub fn owned_column<'a, T: Copy>(column: Cow<'a, [T]>) -> (owned: Cow<'static, [T]>)
    ensures
        owned is Owned,
        elements(owned) == elements(column),
{
    match column {
        Cow::Owned(items) => Cow::Owned(items),
        Cow::Borrowed(slice) => {
            let mut items: Vec<T> = Vec::with_capacity(slice.len());
            for i in 0..slice.len()
                invariant
                    items@ == slice@.take(i as int),
            {
                items.push(slice[i]);
                assert(items@ =~= slice@.take(i + 1));
            }
            assert(slice@.take(slice@.len() as int) =~= slice@);
            Cow::Owned(items)
        },
    }
}

impl<'a> ObservationFrame<'a> {
    /// Convert the columns to owned, dropping ties to caller buffers.
    pub fn into_owned(self) -> (owned: ObservationFrame<'static>)
        ensures
            owned.levels() == self.levels(),
            owned.loadings() == self.loadings(),
            owned.spec_n_obs() == self.spec_n_obs(),
    {
        let n_obs: usize = self.n_obs;
        let mut categorical: Vec<Cow<'static, [u32]>> = Vec::with_capacity(self.categorical.len());
        let mut continuous: Vec<Cow<'static, [Binary64]>> = Vec::with_capacity(
            self.continuous.len(),
        );
        for column in iter: self.categorical
            invariant
                iter.seq() == self.categorical@,
                categorical@.len() == iter.index(),
                forall|q: int|
                    0 <= q < categorical@.len() ==> elements(#[trigger] categorical@[q])
                        == elements(self.categorical@[q]),
        {
            categorical.push(owned_column(column));
        }
        for column in iter: self.continuous
            invariant
                iter.seq() == self.continuous@,
                continuous@.len() == iter.index(),
                forall|c: int|
                    0 <= c < continuous@.len() ==> elements(#[trigger] continuous@[c]) == elements(
                        self.continuous@[c],
                    ),
        {
            continuous.push(owned_column(column));
        }
        let owned = ObservationFrame { categorical, continuous, n_obs };
        proof {
            assert(owned.levels() =~= self.levels());
            assert(owned.loadings() =~= self.loadings());
        }
        owned
    }
}

} // verus!
