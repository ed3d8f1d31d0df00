//! Subdomain cores: which global unknowns a subdomain covers, and how it
//! shares them.
//!
//! The two-sided additive formula `M^-1 = sum R_i^T D_i A_i^-1 D_i R_i` needs
//! the squared weights to sum to one at every unknown. An unknown covered `c`
//! times gets weight `1 / sqrt(c)` in each subdomain; what is kept here is `c`.

use vstd::prelude::*;

use crate::schwarz_precond::error::BuildError;

verus! {

/// Partition-of-unity weights of a subdomain, as multiplicities.
#[derive(Debug, Clone, PartialEq, Eq)]
pub enum PartitionWeights {
    /// Every unknown of the subdomain belongs to this subdomain alone.
    Uniform,
    /// Position `i` has weight `1 / sqrt(c)` where `c` is the `i`-th entry.
    NonUniform(Vec<u32>),
}

impl PartitionWeights {
    /// Multiplicity at position `i`.
    pub open spec fn multiplicity(self, i: int) -> int {
        match self {
            PartitionWeights::Uniform => 1,
            PartitionWeights::NonUniform(counts) => counts@[i] as int,
        }
    }

    /// Multiplicity `c` at position `i`; the weight is `1 / sqrt(c)`.
    pub fn get(&self, i: usize) -> (c: u32)
        requires
            *self matches PartitionWeights::NonUniform(counts) ==> i < counts@.len(),
        ensures
            c == self.multiplicity(i as int),
    {
        match self {
            PartitionWeights::Uniform => 1,
            PartitionWeights::NonUniform(counts) => counts[i],
        }
    }
}

/// Global unknowns of a subdomain with their partition-of-unity weights.
#[derive(Debug, PartialEq, Eq)]
pub struct SubdomainCore {
    global_indices: Vec<u32>,
    partition_weights: PartitionWeights,
}

impl Clone for SubdomainCore {
    fn clone(&self) -> (copy: Self)
        ensures
            copy.indices() == self.indices(),
            copy.spec_weights() is Uniform == self.spec_weights() is Uniform,
            forall|i: int|
                0 <= i < self.indices().len() ==> #[trigger] copy.spec_weights().multiplicity(i)
                    == self.spec_weights().multiplicity(i),
    {
        proof {
            use_type_invariant(self);
        }
        let partition_weights = match &self.partition_weights {
            PartitionWeights::Uniform => PartitionWeights::Uniform,
            PartitionWeights::NonUniform(counts) => PartitionWeights::NonUniform(counts.clone()),
        };
        let copy = SubdomainCore { global_indices: self.global_indices.clone(), partition_weights };
        assert(copy.global_indices@ =~= self.global_indices@);
        copy
    }
}

impl SubdomainCore {
    /// Global unknowns in local order.
    pub closed spec fn indices(self) -> Seq<u32> {
        self.global_indices@
    }

    /// The weights.
    pub closed spec fn spec_weights(self) -> PartitionWeights {
        self.partition_weights
    }

    /// Stored multiplicities, if any, are one per unknown.
    #[verifier::type_invariant]
    pub open spec fn wf(self) -> bool {
        self.spec_weights() matches PartitionWeights::NonUniform(counts) ==> counts@.len()
            == self.indices().len()
    }

    /// A core whose unknowns belong to it alone.
    pub fn uniform(global_indices: Vec<u32>) -> (core: Self)
        ensures
            core.wf(),
            core.indices() == global_indices@,
            core.spec_weights() == PartitionWeights::Uniform,
    {
        SubdomainCore { global_indices, partition_weights: PartitionWeights::Uniform }
    }

    /// Global unknowns in local order.
    pub fn global_indices(&self) -> (indices: &[u32])
        ensures
            indices@ == self.indices(),
            self.wf(),
    {
        proof {
            use_type_invariant(self);
        }
        self.global_indices.as_slice()
    }

    /// Number of unknowns.
    pub fn n_local(&self) -> (n: usize)
        ensures
            n == self.indices().len(),
    {
        self.global_indices.len()
    }

    /// The weights.
    pub fn partition_weights(&self) -> (weights: &PartitionWeights)
        ensures
            *weights == self.spec_weights(),
    {
        &self.partition_weights
    }

    /// Declare that the unknowns belong to this subdomain alone.
    pub fn set_uniform_partition_weights(&mut self)
        ensures
            final(self).wf(),
            final(self).indices() == old(self).indices(),
            final(self).spec_weights() == PartitionWeights::Uniform,
    {
        self.partition_weights = PartitionWeights::Uniform;
    }

    /// Replace the weights; their number must match the number of unknowns.
    pub fn set_partition_weights(&mut self, weights: PartitionWeights) -> (result: Result<
        (),
        BuildError,
    >)
        ensures
            final(self).indices() == old(self).indices(),
            match weights {
                PartitionWeights::NonUniform(counts) if counts@.len() != old(self).indices().len() => {
                    &&& result matches Err(BuildError::PartitionWeightLengthMismatch {
                        index_count,
                        weight_count,
                    }) && index_count == old(self).indices().len() && weight_count == counts@.len()
                    &&& final(self).spec_weights() == old(self).spec_weights()
                },
                _ => {
                    &&& result is Ok
                    &&& final(self).spec_weights() == weights
                    &&& final(self).wf()
                },
            },
    {
        if let PartitionWeights::NonUniform(counts) = &weights {
            if counts.len() != self.global_indices.len() {
                return Err(
                    BuildError::PartitionWeightLengthMismatch {
                        index_count: self.global_indices.len(),
                        weight_count: counts.len(),
                    },
                );
            }
        }
        self.partition_weights = weights;
        Ok(())
    }
}

} // verus!
