//! Factor-pair subdomain construction.
//!
//! Each factor pair `(q, r)` becomes a Schwarz subdomain per connected
//! component of its bipartite cross-tab. Overlap is handled by
//! partition-of-unity weights.

use vstd::prelude::*;

use crate::schwarz_precond::domain::{PartitionWeights, SubdomainCore};

verus! {

/// A subdomain of the fixed-effects problem.
#[derive(Debug, PartialEq, Eq)]
pub struct Subdomain {
    /// The factors whose levels it covers.
    pub factor_pair: (usize, usize),
    /// Its unknowns and weights.
    pub core: SubdomainCore,
}

/// One connected component of a bipartite cross-tab, as compact level indices.
#[derive(Debug, Clone, PartialEq, Eq)]
pub struct BipartiteComponent {
    /// Levels of the first factor.
    pub q_indices: Vec<usize>,
    /// Levels of the second factor.
    pub r_indices: Vec<usize>,
}

// ---------------------------------------------------------------------------
// Pairs and indices
// ---------------------------------------------------------------------------

/// The pairs `(q, q + 1), (q, q + 2), .., (q, n - 1)`.
pub open spec fn pairs_from(q: int, n: int) -> Seq<(usize, usize)> {
    Seq::new((n - q - 1) as nat, |k: int| (q as usize, (q + 1 + k) as usize))
}

/// All pairs `(a, b)` with `a < q` and `a < b < n`, in lexicographic order.
pub open spec fn pairs_below(q: int, n: int) -> Seq<(usize, usize)>
    decreases q,
{
    if q <= 0 {
        Seq::empty()
    } else {
        pairs_below(q - 1, n) + pairs_from(q - 1, n)
    }
}

/// All factor pairs in lexicographic order.
pub fn build_pairs(n_factors: usize) -> (pairs: Vec<(usize, usize)>)
    ensures
        pairs@ == pairs_below(n_factors as int, n_factors as int),
{
    let mut pairs: Vec<(usize, usize)> = Vec::new();
    let mut q: usize = 0;
    while q < n_factors
        invariant
            q <= n_factors,
            pairs@ == pairs_below(q as int, n_factors as int),
        decreases n_factors - q,
    {
        let ghost before = pairs@;
        let mut r: usize = q + 1;
        while r < n_factors
            invariant
                q < r <= n_factors,
                pairs@ == before + pairs_from(q as int, n_factors as int).take(r - q - 1),
            decreases n_factors - r,
        {
            pairs.push((q, r));
            r = r + 1;
            assert(pairs@ =~= before + pairs_from(q as int, n_factors as int).take(r - q - 1));
        }
        proof {
            let row = pairs_from(q as int, n_factors as int);
            assert(row.take(row.len() as int) =~= row);
        }
        q = q + 1;
    }
    pairs
}

/// Every pair of two different factors is listed, and nothing else.
pub proof fn law_pairs_are_complete(n_factors: nat, a: usize, b: usize)
    requires
        n_factors <= usize::MAX,
    ensures
        pairs_below(n_factors as int, n_factors as int).contains((a, b)) <==> a < b < n_factors,
{
    lemma_pairs_below(n_factors as int, n_factors as int, a, b);
}

proof fn lemma_pairs_below(q: int, n: int, a: usize, b: usize)
    requires
        0 <= q <= n <= usize::MAX,
    ensures
        pairs_below(q, n).contains((a, b)) <==> a < q && a < b < n,
    decreases q,
{
    if q > 0 {
        lemma_pairs_below(q - 1, n, a, b);
        let front = pairs_below(q - 1, n);
        let row = pairs_from(q - 1, n);
        let all = front + row;
        if front.contains((a, b)) {
            let i = choose|i: int| 0 <= i < front.len() && front[i] == (a, b);
            assert(all[i] == (a, b));
        }
        if a == q - 1 && a < b < n {
            assert(all[front.len() + (b - a - 1)] == (a, b));
        }
        if all.contains((a, b)) {
            let i = choose|i: int| 0 <= i < all.len() && all[i] == (a, b);
            if i < front.len() {
                assert(front[i] == (a, b));
            } else {
                assert(row[i - front.len()] == (a, b));
            }
        }
    }
}

/// The component's unknowns: its levels of the first factor, then those of the second.
pub open spec fn spec_component_global_indices(
    component: BipartiteComponent,
    l2g: Seq<u32>,
    n_q_full: int,
) -> Seq<u32> {
    Seq::new(component.q_indices@.len(), |i: int| l2g[component.q_indices@[i] as int]) + Seq::new(
        component.r_indices@.len(),
        |i: int| l2g[n_q_full + component.r_indices@[i]],
    )
}

/// The component's levels are levels of the full cross-tab.
pub open spec fn is_component_within(
    component: BipartiteComponent,
    n_q_full: nat,
    n_r_full: nat,
) -> bool {
    &&& forall|i: int|
        0 <= i < component.q_indices@.len() ==> #[trigger] component.q_indices@[i] < n_q_full
    &&& forall|i: int|
        0 <= i < component.r_indices@.len() ==> #[trigger] component.r_indices@[i] < n_r_full
}

/// Compute the global unknowns of a bipartite component.
///
/// Maps the component's compact indices through the local-to-global vector,
/// the first factor's levels first, then the second factor's.
pub fn component_global_indices(
    component: &BipartiteComponent,
    l2g: &[u32],
    n_q_full: usize,
) -> (indices: Vec<u32>)
    requires
        n_q_full <= l2g@.len(),
        is_component_within(*component, n_q_full as nat, (l2g@.len() - n_q_full) as nat),
    ensures
        indices@ == spec_component_global_indices(*component, l2g@, n_q_full as int),
{
    let n_total: usize = l2g.len();
    let mut indices: Vec<u32> = Vec::new();
    let ghost all = spec_component_global_indices(*component, l2g@, n_q_full as int);
    let n_q: usize = component.q_indices.len();
    let mut i: usize = 0;
    while i < n_q
        invariant
            i <= n_q == component.q_indices@.len(),
            n_q_full <= l2g@.len(),
            is_component_within(*component, n_q_full as nat, (l2g@.len() - n_q_full) as nat),
            all == spec_component_global_indices(*component, l2g@, n_q_full as int),
            indices@ == all.take(i as int),
        decreases n_q - i,
    {
        indices.push(l2g[component.q_indices[i]]);
        i = i + 1;
        assert(indices@ =~= all.take(i as int));
    }
    let n_r: usize = component.r_indices.len();
    let mut j: usize = 0;
    while j < n_r
        invariant
            j <= n_r == component.r_indices@.len(),
            n_q == component.q_indices@.len(),
            n_q_full <= n_total == l2g@.len(),
            is_component_within(*component, n_q_full as nat, (l2g@.len() - n_q_full) as nat),
            all == spec_component_global_indices(*component, l2g@, n_q_full as int),
            indices@ == all.take(n_q + j),
        decreases n_r - j,
    {
        let r: usize = component.r_indices[j];
        indices.push(l2g[n_q_full + r]);
        j = j + 1;
        assert(indices@ =~= all.take(n_q + j));
    }
    assert(all.take(n_q + n_r) =~= all);
    indices
}

// ---------------------------------------------------------------------------
// Partition of unity
// ---------------------------------------------------------------------------

/// How often `dof` occurs in a list of unknowns.
pub open spec fn times_listed(indices: Seq<u32>, dof: int) -> nat
    decreases indices.len(),
{
    if indices.len() == 0 {
        0
    } else {
        times_listed(indices.drop_last(), dof) + if indices.last() == dof {
            1nat
        } else {
            0nat
        }
    }
}

/// How often `dof` occurs in all subdomains together.
pub open spec fn coverage<C>(domains: Seq<(Subdomain, C)>, dof: int) -> nat
    decreases domains.len(),
{
    if domains.len() == 0 {
        0
    } else {
        coverage(domains.drop_last(), dof) + times_listed(domains.last().0.core.indices(), dof)
    }
}

/// Every unknown a subdomain lists is below `n_dofs`.
pub open spec fn lists_within(indices: Seq<u32>, n_dofs: nat) -> bool {
    forall|i: int| 0 <= i < indices.len() ==> #[trigger] indices[i] < n_dofs
}

proof fn lemma_times_listed_monotone(indices: Seq<u32>, i: int, dof: int)
    requires
        0 <= i <= indices.len(),
    ensures
        times_listed(indices.take(i), dof) <= times_listed(indices, dof),
    decreases indices.len() - i,
{
    if i < indices.len() {
        lemma_times_listed_monotone(indices, i + 1, dof);
        assert(indices.take(i + 1).drop_last() =~= indices.take(i));
    } else {
        assert(indices.take(i) =~= indices);
    }
}

proof fn lemma_coverage_monotone<C>(domains: Seq<(Subdomain, C)>, d: int, dof: int)
    requires
        0 <= d <= domains.len(),
    ensures
        coverage(domains.take(d), dof) <= coverage(domains, dof),
    decreases domains.len() - d,
{
    if d < domains.len() {
        lemma_coverage_monotone(domains, d + 1, dof);
        assert(domains.take(d + 1).drop_last() =~= domains.take(d));
    } else {
        assert(domains.take(d) =~= domains);
    }
}

/// Count how often each unknown occurs in all subdomains together.
fn count_coverage<C>(domains: &Vec<(Subdomain, C)>, n_dofs: usize) -> (counts: Vec<u32>)
    requires
        forall|dof: int| 0 <= dof < n_dofs ==> #[trigger] coverage(domains@, dof) <= u32::MAX,
        forall|d: int|
            0 <= d < domains@.len() ==> lists_within(
                (#[trigger] domains@[d]).0.core.indices(),
                n_dofs as nat,
            ),
    ensures
        counts@.len() == n_dofs,
        forall|dof: int|
            0 <= dof < n_dofs ==> #[trigger] counts@[dof] == coverage(domains@, dof),
{
    let mut counts: Vec<u32> = vec![0u32; n_dofs];
    let n_domains: usize = domains.len();
    let mut d: usize = 0;
    assert(domains@.take(0) =~= Seq::empty());
    while d < n_domains
        invariant
            d <= n_domains == domains@.len(),
            forall|dof: int| 0 <= dof < n_dofs ==> #[trigger] coverage(domains@, dof) <= u32::MAX,
            forall|d: int|
                0 <= d < domains@.len() ==> lists_within(
                    (#[trigger] domains@[d]).0.core.indices(),
                    n_dofs as nat,
                ),
            counts@.len() == n_dofs,
            forall|dof: int|
                0 <= dof < n_dofs ==> #[trigger] counts@[dof] == coverage(
                    domains@.take(d as int),
                    dof,
                ),
        decreases n_domains - d,
    {
        let indices: &[u32] = domains[d].0.core.global_indices();
        let ghost before = counts@;
        let ghost seen = domains@.take(d as int);
        let n: usize = indices.len();
        proof {
            assert(domains@.take(d + 1).drop_last() =~= seen);
            assert(domains@.take(d + 1).last() == domains@[d as int]);
            assert(indices@.take(0) =~= Seq::empty());
            assert forall|dof: int| 0 <= dof < n_dofs implies #[trigger] before[dof] + times_listed(
                indices@,
                dof,
            ) <= u32::MAX by {
                lemma_coverage_monotone(domains@, d + 1, dof);
                assert(coverage(domains@, dof) <= u32::MAX);
            }
        }
        let mut i: usize = 0;
        while i < n
            invariant
                i <= n == indices@.len(),
                lists_within(indices@, n_dofs as nat),
                counts@.len() == before.len() == n_dofs,
                forall|dof: int|
                    0 <= dof < n_dofs ==> #[trigger] before[dof] + times_listed(indices@, dof)
                        <= u32::MAX,
                forall|dof: int|
                    0 <= dof < n_dofs ==> #[trigger] counts@[dof] == before[dof] + times_listed(
                        indices@.take(i as int),
                        dof,
                    ),
            decreases n - i,
        {
            let index: usize = indices[i] as usize;
            let ghost now = counts@;
            proof {
                lemma_times_listed_monotone(indices@, i + 1, index as int);
                assert(before[index as int] + times_listed(indices@, index as int) <= u32::MAX);
                assert(indices@.take(i + 1).drop_last() =~= indices@.take(i as int));
            }
            let count: u32 = counts[index];
            counts.set(index, count + 1);
            proof {
                assert forall|dof: int| 0 <= dof < n_dofs implies #[trigger] counts@[dof]
                    == before[dof] + times_listed(indices@.take(i + 1), dof) by {
                    assert(now[dof] == before[dof] + times_listed(indices@.take(i as int), dof));
                }
            }
            i = i + 1;
        }
        proof {
            assert(indices@.take(n as int) =~= indices@);
            assert forall|dof: int| 0 <= dof < n_dofs implies #[trigger] counts@[dof] == coverage(
                domains@.take(d + 1),
                dof,
            ) by {
                assert(before[dof] == coverage(seen, dof));
            }
        }
        d = d + 1;
    }
    assert(domains@.take(n_domains as int) =~= domains@);
    counts
}

/// The weights of a subdomain: uniform if it shares no unknown, else the
/// coverage of each of its unknowns.
pub open spec fn is_partitioned<C>(domains: Seq<(Subdomain, C)>, core: SubdomainCore) -> bool {
    let shares = exists|i: int|
        0 <= i < core.indices().len() && coverage(domains, #[trigger] core.indices()[i] as int) > 1;
    if shares {
        core.spec_weights() matches PartitionWeights::NonUniform(counts) && counts@.len()
            == core.indices().len() && (forall|i: int|
            0 <= i < core.indices().len() ==> #[trigger] counts@[i] == coverage(
                domains,
                core.indices()[i] as int,
            ))
    } else {
        core.spec_weights() is Uniform
    }
}

/// Compute partition-of-unity weights for overlapping Schwarz subdomains.
///
/// An unknown that occurs `c` times gets multiplicity `c`, that is weight
/// `1 / sqrt(c)`, in each place. In the common case where every unknown of a
/// subdomain occurs once, the compact uniform representation is used.
pub fn compute_partition_weights<C>(domains: Vec<(Subdomain, C)>, n_dofs: usize) -> (weighted: Vec<
    (Subdomain, C),
>)
    requires
        forall|dof: int| 0 <= dof < n_dofs ==> #[trigger] coverage(domains@, dof) <= u32::MAX,
        forall|d: int|
            0 <= d < domains@.len() ==> lists_within(
                (#[trigger] domains@[d]).0.core.indices(),
                n_dofs as nat,
            ),
    ensures
        weighted@.len() == domains@.len(),
        forall|d: int|
            0 <= d < domains@.len() ==> {
                &&& (#[trigger] weighted@[d]).1 == domains@[d].1
                &&& weighted@[d].0.factor_pair == domains@[d].0.factor_pair
                &&& weighted@[d].0.core.indices() == domains@[d].0.core.indices()
                &&& weighted@[d].0.core.wf()
                &&& is_partitioned(domains@, weighted@[d].0.core)
            },
{
    let counts: Vec<u32> = count_coverage(&domains, n_dofs);
    let mut weighted: Vec<(Subdomain, C)> = Vec::with_capacity(domains.len());
    for pair in iter: domains
        invariant
            iter.seq() == domains@,
            counts@.len() == n_dofs,
            forall|dof: int|
                0 <= dof < n_dofs ==> #[trigger] counts@[dof] == coverage(domains@, dof),
            forall|d: int|
                0 <= d < domains@.len() ==> lists_within(
                    (#[trigger] domains@[d]).0.core.indices(),
                    n_dofs as nat,
                ),
            weighted@.len() == iter.index(),
            forall|d: int|
                0 <= d < weighted@.len() ==> {
                    &&& (#[trigger] weighted@[d]).1 == domains@[d].1
                    &&& weighted@[d].0.factor_pair == domains@[d].0.factor_pair
                    &&& weighted@[d].0.core.indices() == domains@[d].0.core.indices()
                    &&& weighted@[d].0.core.wf()
                    &&& is_partitioned(domains@, weighted@[d].0.core)
                },
    {
        assert(pair == domains@[weighted@.len() as int]);
        let (domain, table) = pair;
        let core = weigh_core::<C>(domain.core, &counts, n_dofs, Ghost(domains@));
        weighted.push((Subdomain { factor_pair: domain.factor_pair, core }, table));
    }
    weighted
}

/// Give one core its weights.
fn weigh_core<C>(
    core: SubdomainCore,
    counts: &Vec<u32>,
    n_dofs: usize,
    Ghost(domains): Ghost<Seq<(Subdomain, C)>>,
) -> (weighed: SubdomainCore)
    requires
        counts@.len() == n_dofs,
        forall|dof: int|
            0 <= dof < n_dofs ==> #[trigger] counts@[dof] == coverage(domains, dof),
        lists_within(core.indices(), n_dofs as nat),
    ensures
        weighed.indices() == core.indices(),
        weighed.wf(),
        is_partitioned(domains, weighed),
{
    let mut core = core;
    let ghost listed = core.indices();
    let mut multiplicities: Vec<u32> = Vec::new();
    let mut shares: bool = false;
    let n: usize = core.n_local();
    let mut i: usize = 0;
    while i < n
        invariant
            i <= n == listed.len(),
            core.indices() == listed,
            counts@.len() == n_dofs,
            forall|dof: int|
                0 <= dof < n_dofs ==> #[trigger] counts@[dof] == coverage(domains, dof),
            lists_within(listed, n_dofs as nat),
            multiplicities@.len() == i,
            forall|j: int|
                0 <= j < i ==> #[trigger] multiplicities@[j] == coverage(domains, listed[j] as int),
            shares == exists|j: int|
                0 <= j < i && coverage(domains, #[trigger] listed[j] as int) > 1,
        decreases n - i,
    {
        let index: usize = core.global_indices()[i] as usize;
        assert(listed[i as int] == index);
        let c: u32 = counts[index];
        if c > 1 {
            shares = true;
        }
        multiplicities.push(c);
        i = i + 1;
    }
    if shares {
        let _ = core.set_partition_weights(PartitionWeights::NonUniform(multiplicities));
    } else {
        core.set_uniform_partition_weights();
    }
    core
}

proof fn lemma_listed_at_least_once(indices: Seq<u32>, i: int)
    requires
        0 <= i < indices.len(),
    ensures
        times_listed(indices, indices[i] as int) >= 1,
    decreases indices.len(),
{
    if i < indices.len() - 1 {
        lemma_listed_at_least_once(indices.drop_last(), i);
    }
}

proof fn lemma_covered_at_least_once<C>(domains: Seq<(Subdomain, C)>, d: int, i: int)
    requires
        0 <= d < domains.len(),
        0 <= i < domains[d].0.core.indices().len(),
    ensures
        coverage(domains, domains[d].0.core.indices()[i] as int) >= 1,
    decreases domains.len(),
{
    if d < domains.len() - 1 {
        lemma_covered_at_least_once(domains.drop_last(), d, i);
    } else {
        lemma_listed_at_least_once(domains[d].0.core.indices(), i);
    }
}

/// Partition of unity: wherever an unknown occurs, its multiplicity is the
/// number of its occurrences in all subdomains. So the squared weights, one
/// over the multiplicity each, sum to one at every covered unknown.
pub proof fn law_partition_of_unity<C>(
    domains: Seq<(Subdomain, C)>,
    weighted: Seq<(Subdomain, C)>,
    d: int,
    i: int,
)
    requires
        weighted.len() == domains.len(),
        forall|d: int|
            0 <= d < domains.len() ==> (#[trigger] weighted[d]).0.core.indices()
                == domains[d].0.core.indices() && is_partitioned(domains, weighted[d].0.core),
        0 <= d < weighted.len(),
        0 <= i < weighted[d].0.core.indices().len(),
    ensures
        weighted[d].0.core.spec_weights().multiplicity(i) == coverage(
            weighted,
            weighted[d].0.core.indices()[i] as int,
        ),
        coverage(weighted, weighted[d].0.core.indices()[i] as int) >= 1,
{
    let core = weighted[d].0.core;
    let dof = core.indices()[i] as int;
    lemma_same_coverage(domains, weighted, dof);
    lemma_covered_at_least_once(domains, d, i);
    assert(core.indices() == domains[d].0.core.indices());
    assert(is_partitioned(domains, core));
}

/// Coverage depends on the listed unknowns alone.
pub proof fn lemma_same_coverage<C>(a: Seq<(Subdomain, C)>, b: Seq<(Subdomain, C)>, dof: int)
    requires
        a.len() == b.len(),
        forall|d: int|
            0 <= d < a.len() ==> (#[trigger] b[d]).0.core.indices() == a[d].0.core.indices(),
    ensures
        coverage(a, dof) == coverage(b, dof),
    decreases a.len(),
{
    if a.len() > 0 {
        let last = a.len() - 1;
        assert(b[last].0.core.indices() == a[last].0.core.indices());
        lemma_same_coverage(a.drop_last(), b.drop_last(), dof);
    }
}

} // verus!
