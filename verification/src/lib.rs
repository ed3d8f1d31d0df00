//! Verified core of a fixed-effects solver.
//!
//! A response is regressed on categorical factors by iterative least squares,
//! preconditioned by additive Schwarz over factor pairs. The crate holds what
//! does not depend on a concrete scalar: the design and its row orderings, the
//! subdomains and their weights, the elimination and merge steps, the scheduling
//! decisions and the frame of a solve. Scalars come in through
//! [`arithmetic::Arithmetic`], numerical methods through [`solver::SolverKit`].

pub mod arithmetic;
pub mod binary64;
pub mod block_elim;
pub mod categories;
pub mod concat;
pub mod config;
pub mod domain;
pub mod elimination;
pub mod error;
pub mod kernels;
pub mod layout;
pub mod observation;
pub mod operator;
pub mod orchestrate;
pub(crate) mod parallel;
pub mod python;
pub mod schwarz_precond;
pub mod solver;
pub mod text;

pub use config::{LsmrOptions, PreconditionerConfig, SolverParams};
pub use domain::{Design, DesignOptions, Effect};
pub use error::{BuildError, WithinError};
pub use operator::schwarz::Preconditioner;
pub use orchestrate::{solve, solve_batch, BatchSolveResult, SolveResult};
pub use schwarz_precond::error::SolveError;
pub use solver::{PreconditionerInput, Solver};
