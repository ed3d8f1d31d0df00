//! Additive Schwarz building blocks that know nothing of fixed effects.

pub mod additive;
pub mod apply;
pub mod domain;
pub mod error;
pub mod executor;
pub mod local_solve;
pub mod meaning;
pub mod planning;
pub mod pooled;
pub mod reduction;
pub mod solve;
pub mod symmetry;
