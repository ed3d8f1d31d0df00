//! Observation-major category arrays.

use vstd::prelude::*;

use crate::domain::design::Design;
use crate::error::BuildError;
use crate::observation::FactorMajorStore;

verus! {

/// A two-dimensional array of level codes, one row per observation and one
/// column per factor.
#[verifier::external_body]
#[derive(Debug)]
pub struct CategoryArray {
    array: ndarray::Array2<u32>,
}

/// The rows of the array.
pub uninterp spec fn category_rows(array: CategoryArray) -> Seq<Seq<u32>>;

/// A length, with one standing in for zero.
pub open spec fn axis_or_one(n: usize) -> int {
    if n == 0 {
        1
    } else {
        n as int
    }
}

/// Whether `n_rows` rows of `n_cols` entries can be laid out from `len` entries.
pub open spec fn fits_shape(n_rows: usize, n_cols: usize, len: nat) -> bool {
    &&& len == n_rows * n_cols
    &&& axis_or_one(n_rows) * axis_or_one(n_cols) <= isize::MAX
}

/// [`ndarray::Array2::from_shape_vec`] with rows laid out one after another.
///
/// There is an array exactly if the entries fill the shape and the product of
/// the non-zero axis lengths does not exceed `isize::MAX`. Row `i` then holds
/// the entries from `i * n_cols` on.
#[verifier::external_body]
fn from_shape_vec(n_rows: usize, n_cols: usize, levels: Vec<u32>) -> (array: Option<CategoryArray>)
    ensures
        array is Some <==> fits_shape(n_rows, n_cols, levels@.len()),
        array matches Some(array) ==> category_rows(array).len() == n_rows && forall|i: int|
            0 <= i < n_rows ==> #[trigger] category_rows(array)[i] == levels@.subrange(
                i * n_cols,
                (i + 1) * n_cols,
            ),
{
    match ndarray::Array2::from_shape_vec((n_rows, n_cols), levels) {
        Ok(array) => Some(CategoryArray { array }),
        Err(_) => None,
    }
}

/// [`ndarray::ArrayBase::nrows`]: the number of rows.
#[verifier::external_body]
fn array_rows(array: &CategoryArray) -> (n: usize)
    ensures
        n == category_rows(*array).len(),
{
    array.array.nrows()
}

/// [`ndarray::ArrayBase::ncols`]: the length of each row.
///
/// Nothing is claimed for an array without rows.
#[verifier::external_body]
fn array_cols(array: &CategoryArray) -> (n: usize)
    ensures
        forall|i: int| 0 <= i < category_rows(*array).len() ==> n == #[trigger] category_rows(
            *array,
        )[i].len(),
{
    array.array.ncols()
}

/// [`ndarray::ArrayBase::column`] and `to_vec`: the entries of one column, row by row.
///
/// An array with rows has that column if its rows are long enough.
#[verifier::external_body]
fn array_column(array: &CategoryArray, q: usize) -> (column: Vec<u32>)
    requires
        category_rows(*array).len() > 0,
        q < category_rows(*array)[0].len(),
    ensures
        column@.len() == category_rows(*array).len(),
        forall|i: int| 0 <= i < column@.len() ==> #[trigger] column@[i] == category_rows(*array)[i][q as int],
{
    array.array.column(q).to_vec()
}

/// Column `q` of rows.
pub open spec fn column_of(rows: Seq<Seq<u32>>, q: int) -> Seq<u32> {
    Seq::new(rows.len(), |i: int| rows[i][q])
}

/// The columns of rows that are all as long as the first.
pub open spec fn columns_of(rows: Seq<Seq<u32>>) -> Seq<Seq<u32>> {
    if rows.len() == 0 {
        Seq::empty()
    } else {
        Seq::new(rows[0].len(), |q: int| column_of(rows, q))
    }
}

impl CategoryArray {
    /// Lay out level codes as `n_rows` observations of `n_cols` factors each.
    ///
    /// `None` if the codes do not fill the shape.
    pub fn from_shape(n_rows: usize, n_cols: usize, levels: Vec<u32>) -> (array: Option<Self>)
        ensures
            array is Some <==> fits_shape(n_rows, n_cols, levels@.len()),
            array matches Some(array) ==> category_rows(array).len() == n_rows && forall|i: int|
                0 <= i < n_rows ==> #[trigger] category_rows(array)[i] == levels@.subrange(
                    i * n_cols,
                    (i + 1) * n_cols,
                ),
    {
        from_shape_vec(n_rows, n_cols, levels)
    }

    /// Number of observations.
    pub fn n_obs(&self) -> (n: usize)
        ensures
            n == category_rows(*self).len(),
    {
        array_rows(self)
    }

    /// One vector of level codes per factor; none without observations.
    pub fn columns(&self) -> (columns: Vec<Vec<u32>>)
        ensures
            crate::observation::vec_elements(columns@) == columns_of(category_rows(*self)),
    {
        let n_rows: usize = array_rows(self);
        let n_cols: usize = array_cols(self);
        let ghost rows = category_rows(*self);
        let mut columns: Vec<Vec<u32>> = Vec::new();
        if n_rows > 0 {
            assert(rows[0].len() == n_cols);
            let mut q: usize = 0;
            while q < n_cols
                invariant
                    q <= n_cols,
                    rows == category_rows(*self),
                    rows.len() > 0,
                    rows[0].len() == n_cols,
                    columns@.len() == q,
                    forall|p: int|
                        0 <= p < q ==> (#[trigger] columns@[p])@ == column_of(rows, p),
                decreases n_cols - q,
            {
                let column: Vec<u32> = array_column(self, q);
                assert(column@ =~= column_of(rows, q as int));
                columns.push(column);
                q = q + 1;
            }
        }
        assert(crate::observation::vec_elements(columns@) =~= columns_of(rows));
        columns
    }
}

/// Fallible conversion into a [`Design`].
///
/// Implemented for a category array, from which a design with one intercept per
/// level is built, and for a design, which passes through.
pub trait IntoDesign<'a>: Sized {
    /// What the conversion needs.
    spec fn is_ready(&self) -> bool;

    /// What the conversion gives.
    spec fn gives(&self, result: Result<Design<'a>, BuildError>) -> bool;

    /// Build the [`Design`], validating inputs along the way.
    fn into_design(self) -> (result: Result<Design<'a>, BuildError>)
        requires
            self.is_ready(),
        ensures
            self.gives(result),
            result matches Ok(design) ==> design.wf() && design.is_plain(),
    ;
}

impl IntoDesign<'static> for &CategoryArray {
    open spec fn is_ready(&self) -> bool {
        true
    }

    open spec fn gives(&self, result: Result<Design<'static>, BuildError>) -> bool {
        let rows = category_rows(**self);
        crate::domain::design::build_outcome(
            columns_of(rows),
            Seq::empty(),
            rows.len(),
            crate::domain::access::plain_structure(columns_of(rows).len()),
            crate::domain::access::default_options(),
            result,
        )
    }

    fn into_design(self) -> (result: Result<Design<'static>, BuildError>) {
        let n_obs: usize = self.n_obs();
        let columns: Vec<Vec<u32>> = self.columns();
        proof {
            let all = columns_of(category_rows(*self));
            assert(all == crate::observation::vec_elements(columns@));
            assert(all.len() == columns@.len());
            assert forall|q: int| 0 <= q < columns@.len() implies (#[trigger] columns@[q])@.len()
                == n_obs by {
                assert(crate::observation::vec_elements(columns@)[q] == columns@[q]@);
                assert(all[q] == column_of(category_rows(*self), q));
            }
        }
        let store = match FactorMajorStore::new(columns, n_obs) {
            Ok(store) => store,
            Err(e) => {
                return Err(e);
            },
        };
        let result = Design::from_store(store);
        proof {
            assert(result matches Ok(design) ==> design.is_plain());
        }
        result
    }
}

impl<'a> IntoDesign<'a> for Design<'a> {
    open spec fn is_ready(&self) -> bool {
        self.wf() && self.is_plain()
    }

    open spec fn gives(&self, result: Result<Design<'a>, BuildError>) -> bool {
        result == Ok::<Design<'a>, BuildError>(*self)
    }

    fn into_design(self) -> (result: Result<Design<'a>, BuildError>) {
        Ok(self)
    }
}

} // verus!
