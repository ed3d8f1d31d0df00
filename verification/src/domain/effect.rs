//! Effect terms: a categorical grouping with an intercept, slopes, or both.

use vstd::prelude::*;

use crate::binary64::Binary64;
use crate::domain::columns::{Loading, NonEmpty};
use crate::error::BuildError;

verus! {

/// The coefficient columns of a term: the intercept if there is one, then the slopes.
pub open spec fn effect_columns<S>(intercept: bool, slopes: Seq<S>) -> Seq<Loading<S>> {
    (if intercept {
        seq![Loading::<S>::Constant]
    } else {
        Seq::empty()
    }) + slopes.map_values(|slope: S| Loading::Covariate(slope))
}

/// One effect term: a level per observation and at least one coefficient column.
#[derive(Clone, Debug)]
pub struct Effect<'a> {
    levels: &'a [u32],
    columns: NonEmpty<Loading<&'a [Binary64]>>,
}

impl<'a> Effect<'a> {
    /// Level codes.
    pub closed spec fn spec_levels(self) -> Seq<u32> {
        self.levels@
    }

    /// Coefficient columns in layout order.
    pub closed spec fn spec_columns(self) -> Seq<Loading<&'a [Binary64]>> {
        self.columns@
    }

    /// A term over `levels` with an optional intercept and any number of slopes.
    ///
    /// A term with neither is rejected.
    pub fn new(levels: &'a [u32], intercept: bool, slopes: Vec<&'a [Binary64]>) -> (result: Result<
        Effect<'a>,
        BuildError,
    >)
        ensures
            match result {
                Ok(effect) => {
                    &&& intercept || slopes@.len() > 0
                    &&& effect.spec_levels() == levels@
                    &&& effect.spec_columns() == effect_columns(intercept, slopes@)
                },
                Err(e) => e is EmptyEffect && !intercept && slopes@.len() == 0,
            },
    {
        let mut columns: Vec<Loading<&'a [Binary64]>> = Vec::new();
        if intercept {
            columns.push(Loading::Constant);
        }
        for s in 0..slopes.len()
            invariant
                columns@ == effect_columns(intercept, slopes@.take(s as int)),
        {
            columns.push(Loading::Covariate(slopes[s]));
            proof {
                assert(slopes@.take(s + 1) =~= slopes@.take(s as int).push(slopes@[s as int]));
                assert(columns@ =~= effect_columns(intercept, slopes@.take(s + 1)));
            }
        }
        assert(slopes@.take(slopes@.len() as int) =~= slopes@);
        match NonEmpty::new(columns) {
            Some(columns) => Ok(Effect { levels, columns }),
            None => Err(BuildError::EmptyEffect),
        }
    }

    /// Level codes.
    pub fn levels(&self) -> (levels: &'a [u32])
        ensures
            levels@ == self.spec_levels(),
    {
        self.levels
    }

    /// Coefficient columns in layout order.
    pub fn columns(&self) -> (columns: &NonEmpty<Loading<&'a [Binary64]>>)
        ensures
            columns@ == self.spec_columns(),
    {
        &self.columns
    }
}

} // verus!
