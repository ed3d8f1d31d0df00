//! Error types of the Schwarz building blocks.
//!
//! Errors are partitioned by lifecycle phase: [`BuildError`] is raised while a
//! preconditioner is put together, [`SolveError`] while it is applied.
//! [`LocalSolveError`] is what a single subdomain solver reports; whoever knows
//! the subdomain's index lifts it into [`SolveError::LocalSolveFailed`].

use vstd::prelude::*;

use crate::text::decimal;

verus! {

/// Construction-time validation errors for the Schwarz building blocks.
#[derive(Debug, Clone, PartialEq, Eq)]
#[non_exhaustive]
pub enum BuildError {
    /// Partition-of-unity weight vector length does not match index count.
    PartitionWeightLengthMismatch {
        /// Number of global indices in the subdomain core.
        index_count: usize,
        /// Number of partition weights in the subdomain core.
        weight_count: usize,
    },
    /// Local solver `n_local` does not match the subdomain index count.
    LocalDofCountMismatch {
        /// Number of global indices in the subdomain core.
        index_count: usize,
        /// Local DOF count reported by the solver implementation.
        solver_n_local: usize,
    },
    /// Local solver scratch size is too small for the subdomain gather/scatter buffers.
    ScratchSizeTooSmall {
        /// Scratch size reported by the local solver.
        scratch_size: usize,
        /// Minimum scratch size required by the subdomain core.
        required_min: usize,
    },
    /// A subdomain references a global DOF outside `[0, n_dofs)`.
    GlobalIndexOutOfBounds {
        /// Index of the failing subdomain entry in the provided list.
        subdomain: usize,
        /// Position inside `global_indices` where the invalid DOF was found.
        local_index: usize,
        /// Global DOF index that exceeded the valid range.
        global_index: u32,
        /// Total number of global DOFs configured for the preconditioner.
        n_dofs: usize,
    },
}

/// Runtime error emitted by a local subdomain solver during a solve call.
///
/// Backends report a `context` site and a free-form `message` rather than
/// enumerating their internal error modes here.
#[derive(Debug, Clone, PartialEq, Eq)]
#[non_exhaustive]
pub enum LocalSolveError {
    /// The backend implementation reported a failure during a local solve.
    BackendFailed {
        /// Context string identifying where the failure occurred.
        context: &'static str,
        /// Backend error text.
        message: String,
    },
}

/// Runtime failure while executing a solve.
#[derive(Debug, Clone, PartialEq, Eq)]
#[non_exhaustive]
pub enum SolveError {
    /// A local subdomain solve failed during a preconditioner apply.
    LocalSolveFailed {
        /// Index of the failing subdomain entry in the preconditioner.
        subdomain: usize,
        /// Local solver error.
        source: LocalSolveError,
    },
    /// Internal synchronization failed (e.g. poisoned mutex) during an apply.
    Synchronization {
        /// Context string identifying the lock/synchronization site.
        context: &'static str,
    },
    /// Solver input was invalid before any iteration was attempted.
    InvalidInput {
        /// Context string identifying the validation site.
        context: &'static str,
        /// Validation failure details.
        message: String,
    },
}

impl BuildError {
    /// What went wrong, in words.
    pub open spec fn message(self) -> Seq<char> {
        match self {
            BuildError::PartitionWeightLengthMismatch { index_count, weight_count } => "partition weight count ("@ + crate::text::decimal_text(weight_count as nat) + ") does not match index count ("@ + crate::text::decimal_text(index_count as nat) + ")"@,
            BuildError::LocalDofCountMismatch { index_count, solver_n_local } => "index count ("@ + crate::text::decimal_text(index_count as nat) + ") does not match solver n_local ("@ + crate::text::decimal_text(solver_n_local as nat) + ")"@,
            BuildError::ScratchSizeTooSmall { scratch_size, required_min } => "scratch size ("@ + crate::text::decimal_text(scratch_size as nat) + ") is smaller than required minimum ("@ + crate::text::decimal_text(required_min as nat) + ")"@,
            BuildError::GlobalIndexOutOfBounds { subdomain, local_index, global_index, n_dofs } => "subdomain "@ + crate::text::decimal_text(subdomain as nat) + ": global index at local position "@ + crate::text::decimal_text(local_index as nat) + " is out of bounds ("@ + crate::text::decimal_text(global_index as nat) + " >= "@ + crate::text::decimal_text(n_dofs as nat) + ")"@,
        }
    }

    /// What went wrong, in words.
    pub fn to_string(&self) -> (text: String)
        ensures
            text@ == self.message(),
    {
        match self {
            BuildError::PartitionWeightLengthMismatch { index_count, weight_count } => {
                let mut text: String = "partition weight count (".to_owned();
                text.append(decimal(*weight_count as u64).as_str());
                text.append(") does not match index count (");
                text.append(decimal(*index_count as u64).as_str());
                text.append(")");
                text
            },
            BuildError::LocalDofCountMismatch { index_count, solver_n_local } => {
                let mut text: String = "index count (".to_owned();
                text.append(decimal(*index_count as u64).as_str());
                text.append(") does not match solver n_local (");
                text.append(decimal(*solver_n_local as u64).as_str());
                text.append(")");
                text
            },
            BuildError::ScratchSizeTooSmall { scratch_size, required_min } => {
                let mut text: String = "scratch size (".to_owned();
                text.append(decimal(*scratch_size as u64).as_str());
                text.append(") is smaller than required minimum (");
                text.append(decimal(*required_min as u64).as_str());
                text.append(")");
                text
            },
            BuildError::GlobalIndexOutOfBounds { subdomain, local_index, global_index, n_dofs } => {
                let mut text: String = "subdomain ".to_owned();
                text.append(decimal(*subdomain as u64).as_str());
                text.append(": global index at local position ");
                text.append(decimal(*local_index as u64).as_str());
                text.append(" is out of bounds (");
                text.append(decimal(*global_index as u64).as_str());
                text.append(" >= ");
                text.append(decimal(*n_dofs as u64).as_str());
                text.append(")");
                text
            },
        }
    }
}

impl LocalSolveError {
    /// What went wrong, in words.
    pub open spec fn message(self) -> Seq<char> {
        match self {
            LocalSolveError::BackendFailed { context, message } => context@ + ": "@ + message@,
        }
    }

    /// What went wrong, in words.
    pub fn to_string(&self) -> (text: String)
        ensures
            text@ == self.message(),
    {
        match self {
            LocalSolveError::BackendFailed { context, message } => {
                let mut text: String = (*context).to_owned();
                text.append(": ");
                text.append(message.as_str());
                text
            },
        }
    }
}

impl SolveError {
    /// What went wrong, in words.
    pub open spec fn message(self) -> Seq<char> {
        match self {
            SolveError::LocalSolveFailed { subdomain, source } => "subdomain "@
                + crate::text::decimal_text(subdomain as nat) + " local solve failed: "@
                + source.message(),
            SolveError::Synchronization { context } => "synchronization failure at "@ + context@,
            SolveError::InvalidInput { context, message } => "invalid solver input at "@ + context@
                + ": "@ + message@,
        }
    }

    /// What went wrong, in words.
    pub fn to_string(&self) -> (text: String)
        ensures
            text@ == self.message(),
    {
        match self {
            SolveError::LocalSolveFailed { subdomain, source } => {
                let mut text: String = "subdomain ".to_owned();
                text.append(decimal(*subdomain as u64).as_str());
                text.append(" local solve failed: ");
                text.append(source.to_string().as_str());
                text
            },
            SolveError::Synchronization { context } => {
                let mut text: String = "synchronization failure at ".to_owned();
                text.append(context);
                text
            },
            SolveError::InvalidInput { context, message } => {
                let mut text: String = "invalid solver input at ".to_owned();
                text.append(context);
                text.append(": ");
                text.append(message.as_str());
                text
            },
        }
    }

    /// The local failure behind this one, if there is one.
    pub fn source(&self) -> (source: Option<&LocalSolveError>)
        ensures
            match *self {
                SolveError::LocalSolveFailed { source: inner, .. } => source == Some(&inner),
                _ => source is None,
            },
    {
        match self {
            SolveError::LocalSolveFailed { source, .. } => Some(source),
            _ => None,
        }
    }
}

} // verus!
