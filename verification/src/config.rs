//! Solver and preconditioner configuration types.
//!
//! # Defaults and why they are chosen
//!
//! | Parameter | Default | Rationale |
//! |---|---|---|
//! | `tol` | 1e-8 | Preserves about eight significant digits in the demeaned residuals. |
//! | `maxiter` | 1000 | Generous upper bound; well-preconditioned problems converge in tens of iterations. |
//! | `local_size` | None | The short recurrence suffices for well-preconditioned problems. |
//! | `LocalSolverConfig` | Schur complement | Eliminates the larger diagonal block exactly, leaving a smaller system for approximate Cholesky. |
//! | `dense_threshold` | 24 | Subdomains with `min(n_q, n_r) <= 24` use dense anchored Cholesky. |

use vstd::prelude::*;

use crate::binary64::Binary64;

pub use crate::schwarz_precond::planning::ReductionStrategy;

verus! {

/// Default `n_keep` threshold for dense Schur fast-path factorization.
pub const DEFAULT_DENSE_SCHUR_THRESHOLD: usize = 24;

/// Configuration for approximate Cholesky factorization.
#[derive(Debug, Clone, Copy, PartialEq, Eq)]
pub struct ApproxCholConfig {
    /// Random seed for the factorization sampler.
    pub seed: u64,
    /// Optional split/merge count for denser factorizations.
    pub split_merge: Option<u32>,
}

/// Seed zero, no split/merge.
pub open spec fn default_approx_chol() -> ApproxCholConfig {
    ApproxCholConfig { seed: 0, split_merge: None }
}

impl Default for ApproxCholConfig {
    fn default() -> (config: Self)
        ensures
            config == default_approx_chol(),
    {
        ApproxCholConfig { seed: 0, split_merge: None }
    }
}

/// Configuration for approximate Schur complement via clique-tree sampling.
///
/// Every eliminated vertex uses a sampled spanning tree (at most `deg - 1` fill
/// edges). With `split > 1`, each edge of the star is split into `split`
/// parallel copies before sampling, giving up to `split * (deg - 1)` fill edges.
#[derive(Debug, Clone, Copy)]
pub struct ApproxSchurConfig {
    /// Random seed for the clique-tree sampler.
    pub seed: u64,
    /// Edge split factor; `1` means no splitting.
    pub split: u32,
}

/// Seed zero, no splitting.
pub open spec fn default_approx_schur() -> ApproxSchurConfig {
    ApproxSchurConfig { seed: 0, split: 1 }
}

impl Default for ApproxSchurConfig {
    fn default() -> (config: Self)
        ensures
            config == default_approx_schur(),
    {
        ApproxSchurConfig { seed: 0, split: 1 }
    }
}

/// Local solver configuration for Schwarz subdomains.
///
/// Uses Schur complement reduction: eliminates the larger diagonal block
/// (exactly or approximately), then factorizes the smaller reduced system.
#[derive(Debug, Clone, Copy)]
pub struct LocalSolverConfig {
    /// Approximate Cholesky config for the reduced system.
    pub approx_chol: ApproxCholConfig,
    /// Approximate Schur complement configuration.
    ///
    /// `None` is exact, which is what [`LocalSolverConfig::default`] has; `Some` samples.
    pub approx_schur: Option<ApproxSchurConfig>,
    /// Dense Schur fast-path threshold on reduced size `n_keep = min(n_q, n_r)`.
    ///
    /// `0` disables the dense fast path.
    pub dense_threshold: usize,
}

/// Exact Schur complement, default threshold.
pub open spec fn default_local_solver() -> LocalSolverConfig {
    LocalSolverConfig {
        approx_chol: default_approx_chol(),
        approx_schur: None,
        dense_threshold: DEFAULT_DENSE_SCHUR_THRESHOLD,
    }
}

/// Sampled Schur complement, and `split_merge = 2` for the reduced system.
pub open spec fn solver_default_local_solver() -> LocalSolverConfig {
    LocalSolverConfig {
        approx_chol: ApproxCholConfig { seed: 0, split_merge: Some(2) },
        approx_schur: Some(ApproxSchurConfig { seed: 0, split: 1 }),
        dense_threshold: DEFAULT_DENSE_SCHUR_THRESHOLD,
    }
}

impl Default for LocalSolverConfig {
    fn default() -> (config: Self)
        ensures
            config == default_local_solver(),
    {
        LocalSolverConfig {
            approx_chol: ApproxCholConfig::default(),
            approx_schur: None,
            dense_threshold: DEFAULT_DENSE_SCHUR_THRESHOLD,
        }
    }
}

impl LocalSolverConfig {
    /// Default for iterative solvers: samples the Schur complement and uses
    /// `split_merge = 2` for the reduced system.
    pub fn solver_default() -> (config: Self)
        ensures
            config == solver_default_local_solver(),
    {
        let approx_chol = ApproxCholConfig::default();
        LocalSolverConfig {
            approx_chol: ApproxCholConfig { seed: approx_chol.seed, split_merge: Some(2) },
            approx_schur: Some(ApproxSchurConfig::default()),
            dense_threshold: DEFAULT_DENSE_SCHUR_THRESHOLD,
        }
    }
}

/// Schwarz preconditioner variant with embedded local solver configuration.
///
/// Marked `#[non_exhaustive]`: further variants may be added.
#[derive(Debug, Clone, Copy)]
#[non_exhaustive]
pub enum Preconditioner {
    /// One-level additive Schwarz over factor-pair subdomains.
    Additive(LocalSolverConfig, ReductionStrategy),
}

impl Default for Preconditioner {
    fn default() -> (config: Self)
        ensures
            config == Preconditioner::Additive(
                solver_default_local_solver(),
                ReductionStrategy::Auto,
            ),
    {
        Preconditioner::Additive(LocalSolverConfig::solver_default(), ReductionStrategy::Auto)
    }
}

/// Which preconditioner a solver builds.
#[derive(Debug, Clone, Copy)]
#[non_exhaustive]
pub enum PreconditionerConfig {
    /// Additive Schwarz over factor-pair subdomains.
    Additive {
        /// Local solver tuning.
        local_solver: LocalSolverConfig,
        /// How subdomain results are combined.
        reduction: ReductionStrategy,
    },
    /// Solve unpreconditioned.
    Off,
    /// Diagonal (Jacobi) preconditioning.
    Diagonal,
}

/// Additive Schwarz with the solver defaults and automatic reduction.
pub open spec fn default_preconditioner_config() -> PreconditionerConfig {
    PreconditionerConfig::Additive {
        local_solver: solver_default_local_solver(),
        reduction: ReductionStrategy::Auto,
    }
}

impl Default for PreconditionerConfig {
    fn default() -> (config: Self)
        ensures
            config == default_preconditioner_config(),
    {
        PreconditionerConfig::Additive {
            local_solver: LocalSolverConfig::solver_default(),
            reduction: ReductionStrategy::Auto,
        }
    }
}

/// Bit pattern of the binary64 value nearest to ten to the power of -8.
pub const DEFAULT_TOL_BITS: u64 = 0x3e45_798e_e230_8c3a;

/// Default bound on the number of iterations.
pub const DEFAULT_MAXITER: usize = 1000;

/// Solver configuration: tolerances and reorthogonalization window.
#[derive(Debug, Clone, Copy)]
pub struct SolverParams {
    /// Relative residual convergence tolerance.
    pub tol: Binary64,
    /// Maximum iterations before declaring non-convergence.
    pub maxiter: usize,
    /// Number of past vectors to reorthogonalize against; `None` disables.
    pub local_size: Option<usize>,
}

/// The solver configuration under its other name.
pub type LsmrOptions = SolverParams;

/// Tolerance `1e-8`, a thousand iterations, no window.
pub open spec fn default_solver_params() -> SolverParams {
    SolverParams {
        tol: Binary64 { bits: DEFAULT_TOL_BITS },
        maxiter: DEFAULT_MAXITER,
        local_size: None,
    }
}

impl Default for SolverParams {
    fn default() -> (params: Self)
        ensures
            params == default_solver_params(),
    {
        SolverParams {
            tol: Binary64 { bits: DEFAULT_TOL_BITS },
            maxiter: DEFAULT_MAXITER,
            local_size: None,
        }
    }
}

} // verus!
