//! Error types of the fixed-effects layer.
//!
//! - **Build** ([`BuildError`]) - input validation and construction failures.
//! - **Solve** ([`SolveError`](crate::schwarz_precond::error::SolveError)) - runtime
//!   failures during the iterative solve.
//! - **Union** ([`WithinError`]) - what the one-call entry points return.

use vstd::prelude::*;

use crate::binary64::Binary64;
use crate::schwarz_precond;
use crate::schwarz_precond::error::{LocalSolveError, SolveError};
use crate::text::decimal;

verus! {

/// Errors produced while validating inputs or building solver components.
#[derive(Debug)]
#[non_exhaustive]
pub enum BuildError {
    /// No observations provided.
    EmptyObservations,
    /// One column does not match the expected observation count.
    ObservationCountMismatch {
        /// Index of the column with mismatched length.
        factor: usize,
        /// Expected number of observations.
        expected: usize,
        /// Actual number of observations in this column.
        got: usize,
    },
    /// An effect term was given neither an intercept nor a slope.
    EmptyEffect,
    /// Observations cannot be indexed by `u32`.
    RowIndexSpaceExceedsU32 {
        /// Number of observations.
        n_obs: usize,
    },
    /// Coefficients cannot be indexed by `u32`.
    DofSpaceExceedsU32 {
        /// Number of coefficients; `usize::MAX` stands for any larger number.
        n_dofs: usize,
    },
    /// Weight vector does not match the number of observations.
    WeightCountMismatch {
        /// Expected number of weights.
        expected: usize,
        /// Actual weight vector length.
        got: usize,
    },
    /// A weight is negative, infinite or not a number.
    InvalidWeight {
        /// Caller row of the weight.
        index: usize,
        /// The weight.
        value: Binary64,
    },
    /// A zero diagonal was encountered during block elimination.
    SingularDiagonal {
        /// Which block contained the zero diagonal.
        block: &'static str,
        /// Row/column index of the zero diagonal entry.
        index: usize,
    },
    /// A pre-built preconditioner does not fit the design.
    PreconditionerDimensionMismatch {
        /// Number of coefficients of the design.
        expected: usize,
        /// Rows of the preconditioner.
        actual_rows: usize,
        /// Columns of the preconditioner.
        actual_cols: usize,
    },
    /// Local solver construction failed.
    LocalSolverBuild(String),
    /// Schwarz preconditioner structural validation failed.
    ///
    /// Lifted explicitly where a Schwarz component is built; there is no `From`
    /// conversion, so the boundary between the layers stays visible.
    Preconditioner(schwarz_precond::error::BuildError),
}

impl BuildError {
    /// What went wrong, in words.
    pub open spec fn message(self) -> Seq<char> {
        match self {
            BuildError::EmptyObservations => "no observations provided"@,
            BuildError::ObservationCountMismatch { factor, expected, got } => "factor "@ + crate::text::decimal_text(factor as nat) + " has "@ + crate::text::decimal_text(got as nat) + " observations, expected "@ + crate::text::decimal_text(expected as nat),
            BuildError::EmptyEffect => "effect has neither an intercept nor a slope"@,
            BuildError::RowIndexSpaceExceedsU32 { n_obs } => "observation count "@ + crate::text::decimal_text(n_obs as nat) + " exceeds the u32 row index space"@,
            BuildError::DofSpaceExceedsU32 { n_dofs } => "coefficient count "@ + crate::text::decimal_text(n_dofs as nat) + " exceeds the u32 index space"@,
            BuildError::WeightCountMismatch { expected, got } => "weights has length "@ + crate::text::decimal_text(got as nat) + ", expected "@ + crate::text::decimal_text(expected as nat),
            BuildError::InvalidWeight { index, .. } => "weight at index "@ + crate::text::decimal_text(index as nat) + " is not finite and non-negative"@,
            BuildError::SingularDiagonal { block, index } => "zero diagonal in "@ + block@ + " block at index "@ + crate::text::decimal_text(index as nat),
            BuildError::PreconditionerDimensionMismatch { expected, actual_rows, actual_cols } => "preconditioner is "@ + crate::text::decimal_text(actual_rows as nat) + " x "@ + crate::text::decimal_text(actual_cols as nat) + ", expected "@ + crate::text::decimal_text(expected as nat) + " x "@ + crate::text::decimal_text(expected as nat),
            BuildError::LocalSolverBuild(reason) => "local solver build failed: "@ + reason@,
            BuildError::Preconditioner(inner) => "preconditioner build failed: "@ + inner.message(),
        }
    }

    /// What went wrong, in words.
    pub fn to_string(&self) -> (text: String)
        ensures
            text@ == self.message(),
    {
        match self {
            BuildError::EmptyObservations => "no observations provided".to_owned(),
            BuildError::ObservationCountMismatch { factor, expected, got } => {
                let mut text: String = "factor ".to_owned();
                text.append(decimal(*factor as u64).as_str());
                text.append(" has ");
                text.append(decimal(*got as u64).as_str());
                text.append(" observations, expected ");
                text.append(decimal(*expected as u64).as_str());
                text
            },
            BuildError::EmptyEffect => "effect has neither an intercept nor a slope".to_owned(),
            BuildError::RowIndexSpaceExceedsU32 { n_obs } => {
                let mut text: String = "observation count ".to_owned();
                text.append(decimal(*n_obs as u64).as_str());
                text.append(" exceeds the u32 row index space");
                text
            },
            BuildError::DofSpaceExceedsU32 { n_dofs } => {
                let mut text: String = "coefficient count ".to_owned();
                text.append(decimal(*n_dofs as u64).as_str());
                text.append(" exceeds the u32 index space");
                text
            },
            BuildError::WeightCountMismatch { expected, got } => {
                let mut text: String = "weights has length ".to_owned();
                text.append(decimal(*got as u64).as_str());
                text.append(", expected ");
                text.append(decimal(*expected as u64).as_str());
                text
            },
            BuildError::InvalidWeight { index, .. } => {
                let mut text: String = "weight at index ".to_owned();
                text.append(decimal(*index as u64).as_str());
                text.append(" is not finite and non-negative");
                text
            },
            BuildError::SingularDiagonal { block, index } => {
                let mut text: String = "zero diagonal in ".to_owned();
                text.append(block);
                text.append(" block at index ");
                text.append(decimal(*index as u64).as_str());
                text
            },
            BuildError::PreconditionerDimensionMismatch { expected, actual_rows, actual_cols } => {
                let mut text: String = "preconditioner is ".to_owned();
                text.append(decimal(*actual_rows as u64).as_str());
                text.append(" x ");
                text.append(decimal(*actual_cols as u64).as_str());
                text.append(", expected ");
                text.append(decimal(*expected as u64).as_str());
                text.append(" x ");
                text.append(decimal(*expected as u64).as_str());
                text
            },
            BuildError::LocalSolverBuild(reason) => {
                let mut text: String = "local solver build failed: ".to_owned();
                text.append(reason.as_str());
                text
            },
            BuildError::Preconditioner(inner) => {
                let mut text: String = "preconditioner build failed: ".to_owned();
                text.append(inner.to_string().as_str());
                text
            },
        }
    }
}

/// The error behind another error.
#[derive(Debug)]
pub enum ErrorSource<'a> {
    /// A Schwarz component could not be built.
    Build(&'a schwarz_precond::error::BuildError),
    /// A local solve failed.
    LocalSolve(&'a LocalSolveError),
}

impl BuildError {
    /// The error behind this one: a Schwarz component that could not be built.
    pub fn source(&self) -> (source: Option<ErrorSource<'_>>)
        ensures
            match *self {
                BuildError::Preconditioner(inner) => source == Some(ErrorSource::Build(&inner)),
                _ => source is None,
            },
    {
        match self {
            BuildError::Preconditioner(inner) => Some(ErrorSource::Build(inner)),
            _ => None,
        }
    }
}

/// Top-level error type of the one-call entry points.
///
/// Lifts the per-phase errors into a single union. The union is transparent:
/// message and source are those of the inner error.
#[derive(Debug)]
pub enum WithinError {
    /// Build-time failure: validation or operator/preconditioner construction.
    Build(BuildError),
    /// Solve-time failure: iterative solver runtime error.
    Solve(SolveError),
}

impl WithinError {
    /// The inner error's message.
    pub open spec fn message(self) -> Seq<char> {
        match self {
            WithinError::Build(e) => e.message(),
            WithinError::Solve(e) => e.message(),
        }
    }

    /// The inner error's message.
    pub fn to_string(&self) -> (text: String)
        ensures
            text@ == self.message(),
    {
        match self {
            WithinError::Build(e) => e.to_string(),
            WithinError::Solve(e) => e.to_string(),
        }
    }

    /// The inner error's source.
    pub fn source(&self) -> (source: Option<ErrorSource<'_>>)
        ensures
            match *self {
                WithinError::Build(BuildError::Preconditioner(inner)) => source == Some(
                    ErrorSource::Build(&inner),
                ),
                WithinError::Solve(SolveError::LocalSolveFailed { source: inner, .. }) => source
                    == Some(ErrorSource::LocalSolve(&inner)),
                _ => source is None,
            },
    {
        match self {
            WithinError::Build(e) => e.source(),
            WithinError::Solve(e) => match e.source() {
                Some(inner) => Some(ErrorSource::LocalSolve(inner)),
                None => None,
            },
        }
    }
}

impl From<BuildError> for WithinError {
    fn from(e: BuildError) -> (lifted: Self) {
        WithinError::Build(e)
    }
}

impl vstd::std_specs::convert::FromSpecImpl<BuildError> for WithinError {
    open spec fn obeys_from_spec() -> bool {
        true
    }

    open spec fn from_spec(e: BuildError) -> Self {
        WithinError::Build(e)
    }
}

impl From<SolveError> for WithinError {
    fn from(e: SolveError) -> (lifted: Self) {
        WithinError::Solve(e)
    }
}

impl vstd::std_specs::convert::FromSpecImpl<SolveError> for WithinError {
    open spec fn obeys_from_spec() -> bool {
        true
    }

    open spec fn from_spec(e: SolveError) -> Self {
        WithinError::Solve(e)
    }
}

/// `text` holds `part`.
pub open spec fn mentions(text: Seq<char>, part: Seq<char>) -> bool {
    exists|i: int|
        0 <= i <= text.len() - part.len() && #[trigger] text.subrange(i, i + part.len()) == part
}

proof fn lemma_mentions(before: Seq<char>, part: Seq<char>, after: Seq<char>)
    ensures
        mentions(before + part + after, part),
        mentions(before + part, part),
{
    let i = before.len() as int;
    let text = before + part + after;
    assert(text.subrange(i, i + part.len()) =~= part);
    assert((before + part).subrange(i, i + part.len()) =~= part);
}

proof fn lemma_still_mentions(text: Seq<char>, part: Seq<char>, after: Seq<char>)
    requires
        mentions(text, part),
    ensures
        mentions(text + after, part),
{
    let i = choose|i: int|
        0 <= i <= text.len() - part.len() && #[trigger] text.subrange(i, i + part.len()) == part;
    assert((text + after).subrange(i, i + part.len()) =~= part);
}

/// The text of an error names the numbers that the error carries.
pub proof fn law_error_texts_name_their_numbers(e: BuildError)
    ensures
        e matches BuildError::ObservationCountMismatch { factor, expected, got } ==> mentions(
            e.message(),
            crate::text::decimal_text(factor as nat),
        ) && mentions(e.message(), crate::text::decimal_text(expected as nat)) && mentions(
            e.message(),
            crate::text::decimal_text(got as nat),
        ),
        e matches BuildError::RowIndexSpaceExceedsU32 { n_obs } ==> mentions(
            e.message(),
            crate::text::decimal_text(n_obs as nat),
        ),
        e matches BuildError::DofSpaceExceedsU32 { n_dofs } ==> mentions(
            e.message(),
            crate::text::decimal_text(n_dofs as nat),
        ),
        e matches BuildError::WeightCountMismatch { expected, got } ==> mentions(
            e.message(),
            crate::text::decimal_text(expected as nat),
        ) && mentions(e.message(), crate::text::decimal_text(got as nat)),
        e matches BuildError::InvalidWeight { index, value } ==> mentions(
            e.message(),
            crate::text::decimal_text(index as nat),
        ),
        e matches BuildError::SingularDiagonal { block, index } ==> mentions(e.message(), block@)
            && mentions(e.message(), crate::text::decimal_text(index as nat)),
        e matches BuildError::PreconditionerDimensionMismatch {
            expected,
            actual_rows,
            actual_cols,
        } ==> mentions(e.message(), crate::text::decimal_text(expected as nat)) && mentions(
            e.message(),
            crate::text::decimal_text(actual_rows as nat),
        ) && mentions(e.message(), crate::text::decimal_text(actual_cols as nat)),
        e matches BuildError::LocalSolverBuild(reason) ==> mentions(e.message(), reason@),
        e matches BuildError::Preconditioner(inner) ==> mentions(e.message(), inner.message()),
{
    let none = Seq::<char>::empty();
    match e {
        BuildError::ObservationCountMismatch { factor, expected, got } => {
            let a = crate::text::decimal_text(factor as nat);
            let b = crate::text::decimal_text(got as nat);
            let c = crate::text::decimal_text(expected as nat);
            let p = "factor "@;
            let q = " has "@;
            let r = " observations, expected "@;
            lemma_mentions(p, a, q);
            lemma_still_mentions(p + a + q, a, b);
            lemma_still_mentions(p + a + q + b, a, r);
            lemma_still_mentions(p + a + q + b + r, a, c);
            lemma_mentions(p + a + q, b, r);
            lemma_still_mentions(p + a + q + b + r, b, c);
            lemma_mentions(p + a + q + b + r, c, none);
        },
        BuildError::RowIndexSpaceExceedsU32 { n_obs } => {
            lemma_mentions(
                "observation count "@,
                crate::text::decimal_text(n_obs as nat),
                " exceeds the u32 row index space"@,
            );
        },
        BuildError::DofSpaceExceedsU32 { n_dofs } => {
            lemma_mentions(
                "coefficient count "@,
                crate::text::decimal_text(n_dofs as nat),
                " exceeds the u32 index space"@,
            );
        },
        BuildError::WeightCountMismatch { expected, got } => {
            let a = crate::text::decimal_text(got as nat);
            let b = crate::text::decimal_text(expected as nat);
            let p = "weights has length "@;
            let q = ", expected "@;
            lemma_mentions(p, a, q);
            lemma_still_mentions(p + a + q, a, b);
            lemma_mentions(p + a + q, b, none);
        },
        BuildError::InvalidWeight { index, value } => {
            lemma_mentions(
                "weight at index "@,
                crate::text::decimal_text(index as nat),
                " is not finite and non-negative"@,
            );
        },
        BuildError::SingularDiagonal { block, index } => {
            let a = block@;
            let b = crate::text::decimal_text(index as nat);
            let p = "zero diagonal in "@;
            let q = " block at index "@;
            lemma_mentions(p, a, q);
            lemma_still_mentions(p + a + q, a, b);
            lemma_mentions(p + a + q, b, none);
        },
        BuildError::PreconditionerDimensionMismatch { expected, actual_rows, actual_cols } => {
            let a = crate::text::decimal_text(actual_rows as nat);
            let b = crate::text::decimal_text(actual_cols as nat);
            let c = crate::text::decimal_text(expected as nat);
            let p = "preconditioner is "@;
            let x = " x "@;
            let q = ", expected "@;
            lemma_mentions(p, a, x);
            lemma_still_mentions(p + a + x, a, b);
            lemma_still_mentions(p + a + x + b, a, q);
            lemma_still_mentions(p + a + x + b + q, a, c);
            lemma_still_mentions(p + a + x + b + q + c, a, x);
            lemma_still_mentions(p + a + x + b + q + c + x, a, c);
            lemma_mentions(p + a + x, b, q);
            lemma_still_mentions(p + a + x + b + q, b, c);
            lemma_still_mentions(p + a + x + b + q + c, b, x);
            lemma_still_mentions(p + a + x + b + q + c + x, b, c);
            lemma_mentions(p + a + x + b + q + c + x, c, none);
        },
        BuildError::LocalSolverBuild(reason) => {
            lemma_mentions("local solver build failed: "@, reason@, none);
        },
        BuildError::Preconditioner(inner) => {
            lemma_mentions("preconditioner build failed: "@, inner.message(), none);
        },
        _ => {},
    }
}

} // verus!
