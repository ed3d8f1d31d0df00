//! Coefficient columns of a term.

use vstd::prelude::*;

verus! {

/// A sequence that is guaranteed non-empty by construction.
#[derive(Debug, PartialEq, Eq)]
pub struct NonEmpty<T> {
    items: Vec<T>,
}

impl<T> View for NonEmpty<T> {
    type V = Seq<T>;

    closed spec fn view(&self) -> Seq<T> {
        self.items@
    }
}

impl<T: Clone> Clone for NonEmpty<T> {
    fn clone(&self) -> (copy: Self)
        ensures
            copy@.len() == self@.len(),
            forall|i: int| 0 <= i < self@.len() ==> cloned(self@[i], #[trigger] copy@[i]),
    {
        proof {
            use_type_invariant(self);
        }
        NonEmpty { items: self.items.clone() }
    }
}

impl<T> NonEmpty<T> {
    #[verifier::type_invariant]
    spec fn is_non_empty(self) -> bool {
        self.items@.len() > 0
    }

    /// `None` if `items` is empty.
    pub fn new(items: Vec<T>) -> (result: Option<Self>)
        ensures
            result is None <==> items@.len() == 0,
            result matches Some(run) ==> run@ == items@,
    {
        if items.len() == 0 {
            None
        } else {
            Some(NonEmpty { items })
        }
    }

    /// A single-element run.
    pub fn of(item: T) -> (run: Self)
        ensures
            run@ == seq![item],
    {
        let mut items: Vec<T> = Vec::new();
        items.push(item);
        NonEmpty { items }
    }

    /// Structure-preserving map; non-emptiness is carried over.
    pub fn map<U, F: Fn(&T) -> U>(&self, f: F) -> (mapped: NonEmpty<U>)
        requires
            forall|i: int| 0 <= i < self@.len() ==> call_requires(f, (&#[trigger] self@[i],)),
        ensures
            mapped@.len() == self@.len(),
            forall|i: int|
                0 <= i < self@.len() ==> call_ensures(f, (&self@[i],), #[trigger] mapped@[i]),
    {
        proof {
            use_type_invariant(self);
        }
        let mut items: Vec<U> = Vec::with_capacity(self.items.len());
        for i in 0..self.items.len()
            invariant
                items@.len() == i,
                forall|i: int| 0 <= i < self@.len() ==> call_requires(f, (&#[trigger] self@[i],)),
                forall|j: int|
                    0 <= j < i ==> call_ensures(f, (&self@[j],), #[trigger] items@[j]),
        {
            assert(self@[i as int] == self.items@[i as int]);
            items.push(f(&self.items[i]));
        }
        NonEmpty { items }
    }

    /// Number of elements, at least one.
    pub fn len(&self) -> (n: usize)
        ensures
            n == self@.len(),
            n > 0,
    {
        proof {
            use_type_invariant(self);
        }
        self.items.len()
    }

    /// The elements.
    pub fn as_slice(&self) -> (slice: &[T])
        ensures
            slice@ == self@,
            slice@.len() > 0,
    {
        proof {
            use_type_invariant(self);
        }
        self.items.as_slice()
    }
}

/// A coefficient column's loading: the intercept's implicit one, or a covariate as `T`.
#[derive(Debug, Clone, Copy, PartialEq, Eq)]
pub enum Loading<T> {
    /// The intercept column; the loading is one at every observation.
    Constant,
    /// A slope column.
    Covariate(T),
}

impl<T> Loading<T> {
    /// The covariate payload; `None` for the constant column.
    pub fn covariate(&self) -> (payload: Option<&T>)
        ensures
            payload == match *self {
                Loading::Constant => None::<&T>,
                Loading::Covariate(t) => Some(&t),
            },
    {
        match self {
            Loading::Constant => None,
            Loading::Covariate(t) => Some(t),
        }
    }

    /// Replace the covariate payload, preserving which variant this is.
    pub fn map<U, F: FnOnce(&T) -> U>(&self, f: F) -> (mapped: Loading<U>)
        requires
            *self matches Loading::Covariate(t) ==> call_requires(f, (&t,)),
        ensures
            match *self {
                Loading::Constant => mapped is Constant,
                Loading::Covariate(t) => mapped matches Loading::Covariate(u) && call_ensures(
                    f,
                    (&t,),
                    u,
                ),
            },
    {
        match self {
            Loading::Constant => Loading::Constant,
            Loading::Covariate(t) => Loading::Covariate(f(t)),
        }
    }
}

/// Per-term metadata; coefficient `c` of `level` lives at `offset + c * n_levels + level`.
#[derive(Debug, Clone)]
pub struct TermMeta {
    /// Number of levels.
    pub n_levels: usize,
    /// First coefficient of the term.
    pub offset: usize,
    /// Whether the level codes are non-decreasing in the design's internal row order.
    pub sorted: bool,
    /// Coefficient columns in layout order; `Covariate` indexes the frame's continuous columns.
    pub columns: NonEmpty<Loading<u32>>,
}

impl TermMeta {
    /// Number of coefficients of the term.
    pub open spec fn spec_n_dofs(self) -> nat {
        self.columns@.len() * self.n_levels as nat
    }

    /// Number of coefficient columns.
    pub fn n_columns(&self) -> (n: usize)
        ensures
            n == self.columns@.len(),
            n > 0,
    {
        self.columns.len()
    }

    /// Number of coefficients of the term.
    pub fn n_dofs(&self) -> (n: usize)
        requires
            self.spec_n_dofs() <= usize::MAX,
        ensures
            n == self.spec_n_dofs(),
    {
        self.n_columns() * self.n_levels
    }

    /// Global DOF base of coefficient column `column`.
    pub fn column_base(&self, column: usize) -> (base: usize)
        requires
            self.offset + column * self.n_levels <= usize::MAX,
        ensures
            base == self.offset + column * self.n_levels,
    {
        proof {
            assert(column * self.n_levels >= 0) by (nonlinear_arith);
        }
        self.offset + column * self.n_levels
    }
}

} // verus!
