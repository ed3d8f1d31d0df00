//! Subdomains of all factor pairs.

use vstd::prelude::*;

use crate::arithmetic::Arithmetic;
use crate::domain::components::{
    bipartite_connected_components, extract_component, Components,
};
use crate::concat::concatenate;
use crate::domain::cross_tab::{
    build_for_pair_with_active, find_all_active_levels, CompactLevels,
};
use crate::domain::design::Design;
use crate::domain::factor_pairs::{
    build_pairs, component_global_indices, compute_partition_weights, BipartiteComponent,
    Subdomain,
};
use crate::elimination::{CrossTab, Edge};
use crate::parallel::par_map;
use crate::schwarz_precond::domain::SubdomainCore;

verus! {

/// `part` is the subdomain of one component of the pair's table.
pub open spec fn is_subdomain_of<T>(
    table: CrossTab<T>,
    l2g: Seq<u32>,
    factor_pair: (usize, usize),
    component: BipartiteComponent,
    part: (Subdomain, CrossTab<T>),
) -> bool {
    &&& part.0.factor_pair == factor_pair
    &&& part.0.core.wf()
    &&& part.0.core.indices() == crate::domain::factor_pairs::spec_component_global_indices(
        component,
        l2g,
        table.diag_q@.len() as int,
    )
    &&& part.0.core.spec_weights() is Uniform
    &&& crate::domain::components::is_table_part(table, component, part.1)
}

/// `parts` has one subdomain per component, in order.
pub open spec fn splits_into<T>(
    table: CrossTab<T>,
    l2g: Seq<u32>,
    factor_pair: (usize, usize),
    components: Components,
    parts: Seq<(Subdomain, CrossTab<T>)>,
) -> bool {
    &&& crate::domain::components::are_components(table, components)
    &&& parts.len() == components.list@.len()
    &&& forall|c: int|
        0 <= c < parts.len() ==> is_subdomain_of(
            table,
            l2g,
            factor_pair,
            components.list@[c],
            #[trigger] parts[c],
        )
}

/// `parts` are the subdomains of the table's connected components.
pub open spec fn is_split<T>(
    table: CrossTab<T>,
    l2g: Seq<u32>,
    factor_pair: (usize, usize),
    parts: Seq<(Subdomain, CrossTab<T>)>,
) -> bool {
    exists|components: Components| #[trigger]
        splits_into(table, l2g, factor_pair, components, parts)
}

/// Split a cross-tab into its connected components, one subdomain each.
pub fn split_into_subdomains<T: Copy>(
    full_ct: CrossTab<T>,
    l2g: &[u32],
    n_q_full: usize,
    factor_pair: (usize, usize),
) -> (parts: Vec<(Subdomain, CrossTab<T>)>)
    requires
        crate::domain::cross_tab::is_cross_tab(full_ct),
        crate::domain::components::n_vertices(full_ct) <= u32::MAX,
        n_q_full == full_ct.diag_q@.len(),
        l2g@.len() == crate::domain::components::n_vertices(full_ct),
    ensures
        is_split(full_ct, l2g@, factor_pair, parts@),
{
    let ghost edges = choose|edges: Seq<Edge<T>>| #[trigger]
        crate::domain::cross_tab::holds_edges(edges, full_ct);
    proof {
        crate::domain::cross_tab::law_table_is_symmetric(edges, full_ct);
    }
    let components: Components = bipartite_connected_components(&full_ct);
    let n: usize = components.list.len();
    let mut parts: Vec<(Subdomain, CrossTab<T>)> = Vec::with_capacity(n);
    if n == 1 {
        proof {
            crate::domain::components::lemma_component_within(full_ct, components, 0);
            crate::domain::cross_tab::lemma_bounds_span(edges, full_ct);
            crate::domain::components::law_single_component_is_whole(full_ct, components);
        }
        let indices: Vec<u32> = component_global_indices(&components.list[0], l2g, n_q_full);
        parts.push((Subdomain { factor_pair, core: SubdomainCore::uniform(indices) }, full_ct));
    } else {
        let mut c: usize = 0;
        while c < n
            invariant
                c <= n == components.list@.len(),
                full_ct.wf(),
                crate::domain::cross_tab::columns_in_range(full_ct),
                crate::domain::components::n_vertices(full_ct) <= u32::MAX,
                crate::domain::components::are_components(full_ct, components),
                n_q_full == full_ct.diag_q@.len(),
                l2g@.len() == crate::domain::components::n_vertices(full_ct),
                parts@.len() == c,
                forall|d: int|
                    0 <= d < c ==> is_subdomain_of(
                        full_ct,
                        l2g@,
                        factor_pair,
                        components.list@[d],
                        #[trigger] parts@[d],
                    ),
            decreases n - c,
        {
            proof {
                crate::domain::components::lemma_component_within(full_ct, components, c as int);
            }
            let indices: Vec<u32> = component_global_indices(&components.list[c], l2g, n_q_full);
            let part: CrossTab<T> = extract_component(&full_ct, &components, c);
            parts.push((Subdomain { factor_pair, core: SubdomainCore::uniform(indices) }, part));
            c = c + 1;
        }
    }
    assert(splits_into(full_ct, l2g@, factor_pair, components, parts@));
    parts
}

// ---------------------------------------------------------------------------
// One factor pair
// ---------------------------------------------------------------------------

/// `all_active` marks the levels that occur in each factor.
pub open spec fn marks_all_active(design: Design<'_>, all_active: Seq<Vec<bool>>) -> bool {
    &&& all_active.len() == design.terms@.len()
    &&& forall|t: int|
        0 <= t < all_active.len() ==> (#[trigger] all_active[t])@.len() == design.terms@[t].n_levels
            && crate::domain::cross_tab::marks_active(design.frame.levels()[t], all_active[t]@)
}

/// `parts` are the subdomains of factor pair `(q, r)`.
pub open spec fn is_pair_split<T, A: Arithmetic<T>>(
    ops: A,
    design: Design<'_>,
    weights: Option<Seq<T>>,
    all_active: Seq<Vec<bool>>,
    q: usize,
    r: usize,
    parts: Seq<(Subdomain, CrossTab<T>)>,
) -> bool {
    exists|table: CrossTab<T>, l2g: Seq<u32>|
        {
            &&& #[trigger] is_split(table, l2g, (q, r), parts)
            &&& crate::domain::cross_tab::is_tabulation(
                ops,
                design.frame.levels()[q as int],
                design.frame.levels()[r as int],
                all_active[q as int]@,
                all_active[r as int]@,
                weights,
                table,
            )
            &&& crate::domain::cross_tab::is_local_to_global(
                design,
                q as int,
                r as int,
                all_active[q as int]@,
                all_active[r as int]@,
                l2g,
            )
            &&& l2g.len() == crate::domain::components::n_vertices(table)
        }
}

/// The optional weights.
pub open spec fn optional_view<T>(weights: Option<&[T]>) -> Option<Seq<T>> {
    match weights {
        None => None,
        Some(given) => Some(given@),
    }
}

/// Build the subdomains of one factor pair.
fn domains_for_pair<T: Copy, A: Arithmetic<T>>(
    design: &Design<'_>,
    weights: Option<&[T]>,
    q: usize,
    r: usize,
    all_active: &Vec<Vec<bool>>,
    ops: &A,
) -> (parts: Vec<(Subdomain, CrossTab<T>)>)
    requires
        design.wf(),
        design.is_plain(),
        q < r < design.terms@.len(),
        weights matches Some(given) ==> given@.len() == design.n_obs,
        marks_all_active(*design, all_active@),
    ensures
        is_pair_split(*ops, *design, optional_view(weights), all_active@, q, r, parts@),
{
    match build_for_pair_with_active(design, weights, q, r, all_active, ops) {
        None => Vec::new(),
        Some((full_ct, l2g)) => {
            proof {
                crate::domain::cross_tab::lemma_rank_monotone(
                    all_active@[q as int]@,
                    0,
                    all_active@[q as int]@.len() as int,
                );
                crate::domain::cross_tab::lemma_rank_monotone(
                    all_active@[r as int]@,
                    0,
                    all_active@[r as int]@.len() as int,
                );
                crate::operator::lemma_term_in_range(*design, q as int);
                crate::operator::lemma_term_in_range(*design, r as int);
                crate::operator::lemma_terms_apart(*design, q as int, r as int);
            }
            let n_q_full: usize = full_ct.n_q();
            split_into_subdomains(full_ct, &l2g, n_q_full, (q, r))
        },
    }
}

// ---------------------------------------------------------------------------
// Coverage
// ---------------------------------------------------------------------------

proof fn lemma_listed_once(indices: Seq<u32>, dof: int)
    requires
        indices.no_duplicates(),
    ensures
        crate::domain::factor_pairs::times_listed(indices, dof) == if (exists|i: int|
            0 <= i < indices.len() && #[trigger] indices[i] == dof) {
            1nat
        } else {
            0nat
        },
    decreases indices.len(),
{
    if indices.len() > 0 {
        let front = indices.drop_last();
        assert(front.no_duplicates());
        lemma_listed_once(front, dof);
        let last = indices.len() - 1;
        if exists|i: int| 0 <= i < front.len() && #[trigger] front[i] == dof {
            let i = choose|i: int| 0 <= i < front.len() && #[trigger] front[i] == dof;
            assert(indices[i] == dof);
            assert(indices[i] != indices[last]);
        } else if exists|i: int| 0 <= i < indices.len() && #[trigger] indices[i] == dof {
            let i = choose|i: int| 0 <= i < indices.len() && #[trigger] indices[i] == dof;
            if i < last {
                assert(front[i] == dof);
            }
        }
    }
}

/// Only subdomain `only` may list `dof`, and it lists it `times` times.
proof fn lemma_coverage_of_one<C>(
    domains: Seq<(Subdomain, C)>,
    dof: int,
    only: int,
    times: nat,
)
    requires
        0 <= only < domains.len(),
        forall|d: int|
            0 <= d < domains.len() && d != only ==> crate::domain::factor_pairs::times_listed(
                (#[trigger] domains[d]).0.core.indices(),
                dof,
            ) == 0,
        crate::domain::factor_pairs::times_listed(domains[only].0.core.indices(), dof) == times,
    ensures
        crate::domain::factor_pairs::coverage(domains, dof) == times,
    decreases domains.len(),
{
    let front = domains.drop_last();
    let last = domains.len() - 1;
    assert forall|d: int|
        0 <= d < front.len() && d != only implies crate::domain::factor_pairs::times_listed(
        (#[trigger] front[d]).0.core.indices(),
        dof,
    ) == 0 by {
        assert(front[d] == domains[d]);
    }
    if only == last {
        lemma_coverage_of_none(front, dof);
    } else {
        lemma_coverage_of_one(front, dof, only, times);
        assert(domains[last].0.core.indices() == domains.last().0.core.indices());
    }
}

proof fn lemma_coverage_of_none<C>(domains: Seq<(Subdomain, C)>, dof: int)
    requires
        forall|d: int|
            0 <= d < domains.len() ==> crate::domain::factor_pairs::times_listed(
                (#[trigger] domains[d]).0.core.indices(),
                dof,
            ) == 0,
    ensures
        crate::domain::factor_pairs::coverage(domains, dof) == 0,
    decreases domains.len(),
{
    if domains.len() > 0 {
        let front = domains.drop_last();
        assert forall|d: int| 0 <= d < front.len() implies crate::domain::factor_pairs::times_listed(
            (#[trigger] front[d]).0.core.indices(),
            dof,
        ) == 0 by {
            assert(front[d] == domains[d]);
        }
        lemma_coverage_of_none(front, dof);
        assert(domains[domains.len() - 1] == domains.last());
    }
}

/// The component with label `c` lists `dof` once if the level that stands for
/// it has that label, and not otherwise.
proof fn lemma_component_lists<T>(
    table: CrossTab<T>,
    labels: Seq<usize>,
    components: Components,
    l2g: Seq<u32>,
    c: int,
    dof: int,
)
    requires
        crate::domain::components::are_labelled_components(table, labels, components),
        l2g.len() == crate::domain::components::n_vertices(table) <= u32::MAX,
        l2g.no_duplicates(),
        0 <= c < components.list@.len(),
    ensures
        crate::domain::factor_pairs::times_listed(
            crate::domain::factor_pairs::spec_component_global_indices(
                components.list@[c],
                l2g,
                table.diag_q@.len() as int,
            ),
            dof,
        ) == if (exists|p: int|
            0 <= p < l2g.len() && #[trigger] l2g[p] == dof && labels[p] == c) {
            1nat
        } else {
            0nat
        },
{
    let n_q = table.diag_q@.len() as int;
    let component = components.list@[c];
    let indices = crate::domain::factor_pairs::spec_component_global_indices(component, l2g, n_q);
    let nq_here = component.q_indices@.len() as int;
    assert(crate::domain::components::is_component(labels, n_q, c, component));
    // the level behind each entry
    assert forall|i: int| 0 <= i < indices.len() implies {
        let p = level_behind(component, n_q, i);
        0 <= p < l2g.len() && #[trigger] indices[i] == l2g[p] && labels[p] == c
    } by {
        if i < nq_here {
            assert(component.q_indices@[i] < labels.take(n_q).len());
            assert(labels.take(n_q)[component.q_indices@[i] as int] == c);
        } else {
            assert(component.r_indices@[i - nq_here] < labels.skip(n_q).len());
            assert(labels.skip(n_q)[component.r_indices@[i - nq_here] as int] == c);
        }
    }
    assert forall|i: int, j: int| 0 <= i < j < indices.len() implies indices[i] != indices[j] by {
        let a = level_behind(component, n_q, i);
        let b = level_behind(component, n_q, j);
        assert(indices[i] == l2g[a] && indices[j] == l2g[b]);
        if j < nq_here {
            assert(component.q_indices@[i] < component.q_indices@[j]);
        } else if i >= nq_here {
            assert(component.r_indices@[i - nq_here] < component.r_indices@[j - nq_here]);
        } else {
            assert(component.q_indices@[i] < labels.take(n_q).len());
        }
        assert(a != b);
    }
    assert(indices.no_duplicates());
    lemma_listed_once(indices, dof);
    if exists|p: int| 0 <= p < l2g.len() && #[trigger] l2g[p] == dof && labels[p] == c {
        let p = choose|p: int| 0 <= p < l2g.len() && #[trigger] l2g[p] == dof && labels[p] == c;
        if p < n_q {
            assert(labels.take(n_q)[p] == c);
            assert(component.q_indices@.contains(p as usize));
            let i = choose|i: int|
                0 <= i < component.q_indices@.len() && component.q_indices@[i] == p as usize;
            assert(indices[i] == dof);
        } else {
            assert(labels.skip(n_q)[p - n_q] == c);
            assert(component.r_indices@.contains((p - n_q) as usize));
            let i = choose|i: int|
                0 <= i < component.r_indices@.len() && component.r_indices@[i] == (p
                    - n_q) as usize;
            assert(indices[nq_here + i] == dof);
        }
    }
    if exists|i: int| 0 <= i < indices.len() && #[trigger] indices[i] == dof {
        let i = choose|i: int| 0 <= i < indices.len() && #[trigger] indices[i] == dof;
        let p = level_behind(component, n_q, i);
        assert(l2g[p] == dof && labels[p] == c);
    }
}

/// The level that entry `i` of a component's unknowns stands for.
spec fn level_behind(component: BipartiteComponent, n_q: int, i: int) -> int {
    let nq_here = component.q_indices@.len() as int;
    if i < nq_here {
        component.q_indices@[i] as int
    } else {
        n_q + component.r_indices@[i - nq_here]
    }
}

/// The list names `dof`.
pub open spec fn names_unknown(l2g: Seq<u32>, dof: int) -> bool {
    exists|p: int| 0 <= p < l2g.len() && #[trigger] l2g[p] == dof
}

/// A split covers each of the table's unknowns once.
proof fn lemma_split_coverage<T>(
    table: CrossTab<T>,
    l2g: Seq<u32>,
    factor_pair: (usize, usize),
    parts: Seq<(Subdomain, CrossTab<T>)>,
    dof: int,
)
    requires
        is_split(table, l2g, factor_pair, parts),
        l2g.len() == crate::domain::components::n_vertices(table) <= u32::MAX,
        l2g.no_duplicates(),
    ensures
        crate::domain::factor_pairs::coverage(parts, dof) == if names_unknown(l2g, dof) {
            1nat
        } else {
            0nat
        },
{
    let components = choose|components: Components| #[trigger]
        splits_into(table, l2g, factor_pair, components, parts);
    let labels = choose|labels: Seq<usize>| #[trigger]
        crate::domain::components::are_labelled_components(table, labels, components);
    assert forall|c: int| 0 <= c < parts.len() implies crate::domain::factor_pairs::times_listed(
        (#[trigger] parts[c]).0.core.indices(),
        dof,
    ) == if (exists|p: int| 0 <= p < l2g.len() && #[trigger] l2g[p] == dof && labels[p] == c) {
        1nat
    } else {
        0nat
    } by {
        assert(is_subdomain_of(table, l2g, factor_pair, components.list@[c], parts[c]));
        lemma_component_lists(table, labels, components, l2g, c, dof);
    }
    if names_unknown(l2g, dof) {
        let p = choose|p: int| 0 <= p < l2g.len() && #[trigger] l2g[p] == dof;
        let c = labels[p] as int;
        assert forall|d: int|
            0 <= d < parts.len() && d != c implies crate::domain::factor_pairs::times_listed(
            (#[trigger] parts[d]).0.core.indices(),
            dof,
        ) == 0 by {
            assert forall|o: int| 0 <= o < l2g.len() && #[trigger] l2g[o] == dof implies labels[o]
                != d by {
                assert(o == p);
            }
        }
        assert(crate::domain::factor_pairs::times_listed(parts[c].0.core.indices(), dof) == 1);
        lemma_coverage_of_one(parts, dof, c, 1);
    } else {
        lemma_coverage_of_none(parts, dof);
    }
}

/// `dof` is the unknown of an active level of term `t`.
pub open spec fn is_active_unknown(
    design: Design<'_>,
    all_active: Seq<Vec<bool>>,
    t: int,
    dof: int,
) -> bool {
    let level = dof - design.terms@[t].offset;
    0 <= level < all_active[t]@.len() && all_active[t]@[level]
}

/// The local-to-global list of a pair names each active unknown of either
/// factor once, and nothing else.
pub proof fn lemma_local_to_global(
    design: Design<'_>,
    all_active: Seq<Vec<bool>>,
    q: int,
    r: int,
    l2g: Seq<u32>,
)
    requires
        design.wf(),
        design.is_plain(),
        0 <= q < r < design.terms@.len(),
        marks_all_active(design, all_active),
        crate::domain::cross_tab::is_local_to_global(
            design,
            q,
            r,
            all_active[q]@,
            all_active[r]@,
            l2g,
        ),
    ensures
        l2g.no_duplicates(),
        l2g.len() <= u32::MAX,
        forall|p: int| 0 <= p < l2g.len() ==> #[trigger] l2g[p] < design.n_dofs,
        forall|dof: int| #[trigger]
            names_unknown(l2g, dof) == (is_active_unknown(design, all_active, q, dof)
                || is_active_unknown(design, all_active, r, dof)),
{
    let (first, second) = choose|first: CompactLevels, second: CompactLevels|
        {
            &&& #[trigger] first.numbers(all_active[q]@)
            &&& #[trigger] second.numbers(all_active[r]@)
            &&& l2g == crate::domain::cross_tab::global_levels(
                design,
                q,
                r,
                first.level_of@,
                second.level_of@,
            )
        };
    crate::operator::lemma_term_in_range(design, q);
    crate::operator::lemma_term_in_range(design, r);
    crate::operator::lemma_terms_apart(design, q, r);
    assert(all_active[q]@.len() == design.terms@[q].n_levels);
    assert(all_active[r]@.len() == design.terms@[r].n_levels);
    let n_q = first.level_of@.len() as int;
    let offset_q = design.terms@[q].offset as int;
    let offset_r = design.terms@[r].offset as int;
    crate::domain::cross_tab::lemma_rank_monotone(
        all_active[q]@,
        0,
        all_active[q]@.len() as int,
    );
    crate::domain::cross_tab::lemma_rank_monotone(
        all_active[r]@,
        0,
        all_active[r]@.len() as int,
    );
    assert forall|p: int| 0 <= p < l2g.len() implies #[trigger] l2g[p] == if p < n_q {
        offset_q + first.level_of@[p]
    } else {
        offset_r + second.level_of@[p - n_q]
    } && (p < n_q ==> first.level_of@[p] < all_active[q]@.len()) && (p >= n_q
        ==> second.level_of@[p - n_q] < all_active[r]@.len()) by {
        if p < n_q {
            assert(first.level_of@[p] < all_active[q]@.len());
        } else {
            assert(second.level_of@[p - n_q] < all_active[r]@.len());
        }
    }
    assert forall|a: int, b: int| 0 <= a < b < l2g.len() implies l2g[a] != l2g[b] by {
        if b < n_q {
            assert(crate::domain::cross_tab::rank(all_active[q]@, first.level_of@[a] as int) == a);
            assert(crate::domain::cross_tab::rank(all_active[q]@, first.level_of@[b] as int) == b);
        } else if a >= n_q {
            assert(crate::domain::cross_tab::rank(
                all_active[r]@,
                second.level_of@[a - n_q] as int,
            ) == a - n_q);
            assert(crate::domain::cross_tab::rank(
                all_active[r]@,
                second.level_of@[b - n_q] as int,
            ) == b - n_q);
        }
    }
    assert forall|dof: int| #[trigger]
        names_unknown(l2g, dof) == (is_active_unknown(design, all_active, q, dof)
            || is_active_unknown(design, all_active, r, dof)) by {
        if names_unknown(l2g, dof) {
            let p = choose|p: int| 0 <= p < l2g.len() && #[trigger] l2g[p] == dof;
            if p < n_q {
                assert(all_active[q]@[first.level_of@[p] as int]);
                assert(is_active_unknown(design, all_active, q, dof));
            } else {
                assert(all_active[r]@[second.level_of@[p - n_q] as int]);
                assert(is_active_unknown(design, all_active, r, dof));
            }
        }
        if is_active_unknown(design, all_active, q, dof) {
            let level = dof - offset_q;
            let p = first.index_of@[level] as int;
            assert(first.level_of@[p] == level);
            assert(l2g[p] == dof);
        }
        if is_active_unknown(design, all_active, r, dof) {
            let level = dof - offset_r;
            let p = second.index_of@[level] as int;
            assert(second.level_of@[p] == level);
            assert(l2g[n_q + p] == dof);
        }
    }
}

/// The subdomains of a pair cover each active unknown of either factor once.
proof fn lemma_pair_coverage<T, A: Arithmetic<T>>(
    ops: A,
    design: Design<'_>,
    weights: Option<Seq<T>>,
    all_active: Seq<Vec<bool>>,
    q: usize,
    r: usize,
    parts: Seq<(Subdomain, CrossTab<T>)>,
    dof: int,
)
    requires
        design.wf(),
        design.is_plain(),
        q < r < design.terms@.len(),
        marks_all_active(design, all_active),
        is_pair_split(ops, design, weights, all_active, q, r, parts),
    ensures
        crate::domain::factor_pairs::coverage(parts, dof) == if is_active_unknown(
            design,
            all_active,
            q as int,
            dof,
        ) || is_active_unknown(design, all_active, r as int, dof) {
            1nat
        } else {
            0nat
        },
        forall|c: int|
            0 <= c < parts.len() ==> crate::domain::factor_pairs::lists_within(
                (#[trigger] parts[c]).0.core.indices(),
                design.n_dofs as nat,
            ),
{
    let (table, l2g) = choose|table: CrossTab<T>, l2g: Seq<u32>|
        {
            &&& #[trigger] is_split(table, l2g, (q, r), parts)
            &&& crate::domain::cross_tab::is_tabulation(
                ops,
                design.frame.levels()[q as int],
                design.frame.levels()[r as int],
                all_active[q as int]@,
                all_active[r as int]@,
                weights,
                table,
            )
            &&& crate::domain::cross_tab::is_local_to_global(
                design,
                q as int,
                r as int,
                all_active[q as int]@,
                all_active[r as int]@,
                l2g,
            )
            &&& l2g.len() == crate::domain::components::n_vertices(table)
        };
    lemma_local_to_global(design, all_active, q as int, r as int, l2g);
    lemma_split_coverage(table, l2g, (q, r), parts, dof);
    let components = choose|components: Components| #[trigger]
        splits_into(table, l2g, (q, r), components, parts);
    assert forall|c: int| 0 <= c < parts.len() implies crate::domain::factor_pairs::lists_within(
        (#[trigger] parts[c]).0.core.indices(),
        design.n_dofs as nat,
    ) by {
        let component = components.list@[c];
        assert(is_subdomain_of(table, l2g, (q, r), component, parts[c]));
        crate::domain::components::lemma_component_within(table, components, c);
        let indices = parts[c].0.core.indices();
        let nq_here = component.q_indices@.len() as int;
        let n_q = table.diag_q@.len() as int;
        assert forall|i: int| 0 <= i < indices.len() implies #[trigger] indices[i]
            < design.n_dofs by {
            if i < nq_here {
                assert(component.q_indices@[i] < n_q);
                assert(indices[i] == l2g[component.q_indices@[i] as int]);
            } else {
                assert(component.r_indices@[i - nq_here] < table.diag_r@.len());
                assert(indices[i] == l2g[n_q + component.r_indices@[i - nq_here]]);
            }
        }
    }
}

/// How many of the pairs have term `t`.
pub open spec fn pairs_with(pairs: Seq<(usize, usize)>, t: int) -> nat
    decreases pairs.len(),
{
    if pairs.len() == 0 {
        0
    } else {
        pairs_with(pairs.drop_last(), t) + if pairs.last().0 == t || pairs.last().1 == t {
            1nat
        } else {
            0nat
        }
    }
}

proof fn lemma_pairs_with_concat(a: Seq<(usize, usize)>, b: Seq<(usize, usize)>, t: int)
    ensures
        pairs_with(a + b, t) == pairs_with(a, t) + pairs_with(b, t),
    decreases b.len(),
{
    if b.len() == 0 {
        assert(a + b =~= a);
    } else {
        lemma_pairs_with_concat(a, b.drop_last(), t);
        assert((a + b).drop_last() =~= a + b.drop_last());
    }
}

proof fn lemma_pairs_with_row(q: int, n: int, m: int, t: int)
    requires
        0 <= q < n <= usize::MAX,
        0 <= m <= n - q - 1,
        0 <= t < n,
    ensures
        pairs_with(crate::domain::factor_pairs::pairs_from(q, n).take(m), t) == if t == q {
            m as nat
        } else if q < t <= q + m {
            1nat
        } else {
            0nat
        },
    decreases m,
{
    let row = crate::domain::factor_pairs::pairs_from(q, n);
    if m > 0 {
        lemma_pairs_with_row(q, n, m - 1, t);
        assert(row.take(m).drop_last() =~= row.take(m - 1));
        assert(row.take(m).last() == (q as usize, (q + m) as usize));
    } else {
        assert(row.take(0).len() == 0);
    }
}

proof fn lemma_pairs_with_below(q: int, n: int, t: int)
    requires
        0 <= q <= n <= usize::MAX,
        0 <= t < n,
    ensures
        pairs_with(crate::domain::factor_pairs::pairs_below(q, n), t) == if q <= t {
            q as nat
        } else {
            (n - 1) as nat
        },
    decreases q,
{
    if q > 0 {
        lemma_pairs_with_below(q - 1, n, t);
        let row = crate::domain::factor_pairs::pairs_from(q - 1, n);
        lemma_pairs_with_row(q - 1, n, row.len() as int, t);
        assert(row.take(row.len() as int) =~= row);
        lemma_pairs_with_concat(crate::domain::factor_pairs::pairs_below(q - 1, n), row, t);
    }
}

/// Each of `n` terms is in `n - 1` pairs.
pub proof fn law_pairs_with_each_term(n: nat, t: int)
    requires
        n <= usize::MAX,
        0 <= t < n,
    ensures
        pairs_with(crate::domain::factor_pairs::pairs_below(n as int, n as int), t) == n - 1,
{
    lemma_pairs_with_below(n as int, n as int, t);
}

// ---------------------------------------------------------------------------
// All factor pairs
// ---------------------------------------------------------------------------

/// `groups[k]` are the subdomains of pair `k`.
pub open spec fn are_pair_splits<T, A: Arithmetic<T>>(
    ops: A,
    design: Design<'_>,
    weights: Option<Seq<T>>,
    all_active: Seq<Vec<bool>>,
    pairs: Seq<(usize, usize)>,
    groups: Seq<Seq<(Subdomain, CrossTab<T>)>>,
) -> bool {
    &&& groups.len() == pairs.len()
    &&& forall|k: int|
        0 <= k < pairs.len() ==> is_pair_split(
            ops,
            design,
            weights,
            all_active,
            pairs[k].0,
            pairs[k].1,
            #[trigger] groups[k],
        )
}

/// `weighted` are the same subdomains with their partition-of-unity weights.
pub open spec fn is_weighted<C>(
    domains: Seq<(Subdomain, C)>,
    weighted: Seq<(Subdomain, C)>,
) -> bool {
    &&& weighted.len() == domains.len()
    &&& forall|d: int|
        0 <= d < domains.len() ==> {
            &&& (#[trigger] weighted[d]).1 == domains[d].1
            &&& weighted[d].0.factor_pair == domains[d].0.factor_pair
            &&& weighted[d].0.core.indices() == domains[d].0.core.indices()
            &&& weighted[d].0.core.wf()
            &&& crate::domain::factor_pairs::is_partitioned(domains, weighted[d].0.core)
        }
}

/// `domains` are the subdomains of all factor pairs, in order, with weights.
pub open spec fn are_local_domains<T, A: Arithmetic<T>>(
    ops: A,
    design: Design<'_>,
    weights: Option<Seq<T>>,
    domains: Seq<(Subdomain, CrossTab<T>)>,
) -> bool {
    let n = design.terms@.len() as int;
    exists|all_active: Seq<Vec<bool>>, groups: Seq<Seq<(Subdomain, CrossTab<T>)>>|
        {
            &&& marks_all_active(design, all_active)
            &&& #[trigger] are_pair_splits(
                ops,
                design,
                weights,
                all_active,
                crate::domain::factor_pairs::pairs_below(n, n),
                groups,
            )
            &&& is_weighted(crate::concat::concat_all(groups), domains)
        }
}

proof fn lemma_coverage_concat<C>(a: Seq<(Subdomain, C)>, b: Seq<(Subdomain, C)>, dof: int)
    ensures
        crate::domain::factor_pairs::coverage(a + b, dof) == crate::domain::factor_pairs::coverage(
            a,
            dof,
        ) + crate::domain::factor_pairs::coverage(b, dof),
    decreases b.len(),
{
    if b.len() == 0 {
        assert(a + b =~= a);
    } else {
        lemma_coverage_concat(a, b.drop_last(), dof);
        assert((a + b).drop_last() =~= a + b.drop_last());
    }
}

/// The pairs name two different terms, the earlier first.
pub open spec fn are_ordered_pairs(pairs: Seq<(usize, usize)>, n_terms: nat) -> bool {
    forall|k: int| 0 <= k < pairs.len() ==> (#[trigger] pairs[k]).0 < pairs[k].1 < n_terms
}

/// An active unknown of term `t` is covered once per pair that has the term.
proof fn lemma_groups_coverage<T, A: Arithmetic<T>>(
    ops: A,
    design: Design<'_>,
    weights: Option<Seq<T>>,
    all_active: Seq<Vec<bool>>,
    pairs: Seq<(usize, usize)>,
    groups: Seq<Seq<(Subdomain, CrossTab<T>)>>,
    t: int,
    dof: int,
)
    requires
        design.wf(),
        design.is_plain(),
        marks_all_active(design, all_active),
        are_ordered_pairs(pairs, design.terms@.len()),
        are_pair_splits(ops, design, weights, all_active, pairs, groups),
        0 <= t < design.terms@.len(),
        is_active_unknown(design, all_active, t, dof),
    ensures
        crate::domain::factor_pairs::coverage(crate::concat::concat_all(groups), dof)
            == pairs_with(pairs, t),
    decreases pairs.len(),
{
    if pairs.len() > 0 {
        let last = pairs.len() - 1;
        let (q, r) = pairs[last];
        assert(are_pair_splits(
            ops,
            design,
            weights,
            all_active,
            pairs.drop_last(),
            groups.drop_last(),
        )) by {
            assert forall|k: int| 0 <= k < pairs.drop_last().len() implies is_pair_split(
                ops,
                design,
                weights,
                all_active,
                pairs.drop_last()[k].0,
                pairs.drop_last()[k].1,
                #[trigger] groups.drop_last()[k],
            ) by {
                assert(groups[k] == groups.drop_last()[k]);
            }
        }
        assert(are_ordered_pairs(pairs.drop_last(), design.terms@.len()));
        lemma_groups_coverage(
            ops,
            design,
            weights,
            all_active,
            pairs.drop_last(),
            groups.drop_last(),
            t,
            dof,
        );
        lemma_coverage_concat(
            crate::concat::concat_all(groups.drop_last()),
            groups[last],
            dof,
        );
        assert(q < r < design.terms@.len());
        assert(is_pair_split(ops, design, weights, all_active, q, r, groups[last]));
        lemma_pair_coverage(ops, design, weights, all_active, q, r, groups[last], dof);
        lemma_unknown_of_one_term(design, all_active, t, q as int, dof);
        lemma_unknown_of_one_term(design, all_active, t, r as int, dof);
    }
}

/// An unknown belongs to one term.
proof fn lemma_unknown_of_one_term(
    design: Design<'_>,
    all_active: Seq<Vec<bool>>,
    t: int,
    u: int,
    dof: int,
)
    requires
        design.wf(),
        design.is_plain(),
        marks_all_active(design, all_active),
        0 <= t < design.terms@.len(),
        0 <= u < design.terms@.len(),
        is_active_unknown(design, all_active, t, dof),
    ensures
        is_active_unknown(design, all_active, u, dof) <==> t == u,
{
    assert(all_active[t]@.len() == design.terms@[t].n_levels);
    assert(all_active[u]@.len() == design.terms@[u].n_levels);
    if t < u {
        crate::operator::lemma_terms_apart(design, t, u);
    }
    if u < t {
        crate::operator::lemma_terms_apart(design, u, t);
    }
}

/// Every subdomain lists unknowns of the design, and an unknown that any of
/// them lists is an active unknown of some term.
proof fn lemma_groups_within<T, A: Arithmetic<T>>(
    ops: A,
    design: Design<'_>,
    weights: Option<Seq<T>>,
    all_active: Seq<Vec<bool>>,
    pairs: Seq<(usize, usize)>,
    groups: Seq<Seq<(Subdomain, CrossTab<T>)>>,
    dof: int,
)
    requires
        design.wf(),
        design.is_plain(),
        marks_all_active(design, all_active),
        are_ordered_pairs(pairs, design.terms@.len()),
        are_pair_splits(ops, design, weights, all_active, pairs, groups),
    ensures
        forall|d: int|
            0 <= d < crate::concat::concat_all(groups).len()
                ==> crate::domain::factor_pairs::lists_within(
                (#[trigger] crate::concat::concat_all(groups)[d]).0.core.indices(),
                design.n_dofs as nat,
            ),
        crate::domain::factor_pairs::coverage(crate::concat::concat_all(groups), dof) > 0
            ==> exists|t: int|
            0 <= t < design.terms@.len() && #[trigger] is_active_unknown(
                design,
                all_active,
                t,
                dof,
            ),
    decreases pairs.len(),
{
    if pairs.len() > 0 {
        let last = pairs.len() - 1;
        let (q, r) = pairs[last];
        assert(are_pair_splits(
            ops,
            design,
            weights,
            all_active,
            pairs.drop_last(),
            groups.drop_last(),
        )) by {
            assert forall|k: int| 0 <= k < pairs.drop_last().len() implies is_pair_split(
                ops,
                design,
                weights,
                all_active,
                pairs.drop_last()[k].0,
                pairs.drop_last()[k].1,
                #[trigger] groups.drop_last()[k],
            ) by {
                assert(groups[k] == groups.drop_last()[k]);
            }
        }
        assert(are_ordered_pairs(pairs.drop_last(), design.terms@.len()));
        lemma_groups_within(
            ops,
            design,
            weights,
            all_active,
            pairs.drop_last(),
            groups.drop_last(),
            dof,
        );
        let front = crate::concat::concat_all(groups.drop_last());
        lemma_coverage_concat(front, groups[last], dof);
        assert(q < r < design.terms@.len());
        assert(is_pair_split(ops, design, weights, all_active, q, r, groups[last]));
        lemma_pair_coverage(ops, design, weights, all_active, q, r, groups[last], dof);
        let all = crate::concat::concat_all(groups);
        assert(all == front + groups[last]);
        assert forall|d: int| 0 <= d < all.len() implies crate::domain::factor_pairs::lists_within(
            (#[trigger] all[d]).0.core.indices(),
            design.n_dofs as nat,
        ) by {
            if d < front.len() {
                assert(all[d] == front[d]);
            } else {
                assert(all[d] == groups[last][d - front.len()]);
            }
        }
    }
}

pub proof fn lemma_pairs_are_ordered(n: nat)
    requires
        n <= usize::MAX,
    ensures
        are_ordered_pairs(crate::domain::factor_pairs::pairs_below(n as int, n as int), n),
{
    let pairs = crate::domain::factor_pairs::pairs_below(n as int, n as int);
    assert forall|k: int| 0 <= k < pairs.len() implies (#[trigger] pairs[k]).0 < pairs[k].1
        < n by {
        assert(pairs.contains(pairs[k]));
        crate::domain::factor_pairs::law_pairs_are_complete(n, pairs[k].0, pairs[k].1);
    }
}

/// The subdomains cover every unknown that occurs in the data, each as often
/// as there are other factors.
pub proof fn law_subdomains_cover_every_level<T, A: Arithmetic<T>>(
    ops: A,
    design: Design<'_>,
    weights: Option<Seq<T>>,
    domains: Seq<(Subdomain, CrossTab<T>)>,
    t: int,
    i: int,
)
    requires
        design.wf(),
        design.is_plain(),
        are_local_domains(ops, design, weights, domains),
        0 <= t < design.terms@.len(),
        0 <= i < design.n_obs,
    ensures
        crate::domain::factor_pairs::coverage(
            domains,
            design.terms@[t].offset + design.frame.levels()[t][i],
        ) == design.terms@.len() - 1,
{
    let n = design.terms@.len();
    let pairs = crate::domain::factor_pairs::pairs_below(n as int, n as int);
    let dof = design.terms@[t].offset + design.frame.levels()[t][i];
    let (all_active, groups) = choose|
        all_active: Seq<Vec<bool>>,
        groups: Seq<Seq<(Subdomain, CrossTab<T>)>>,
    |
        {
            &&& marks_all_active(design, all_active)
            &&& #[trigger] are_pair_splits(ops, design, weights, all_active, pairs, groups)
            &&& is_weighted(crate::concat::concat_all(groups), domains)
        };
    lemma_term_count(design);
    lemma_pairs_are_ordered(n);
    let level = design.frame.levels()[t][i] as int;
    assert(crate::domain::cross_tab::marks_active(design.frame.levels()[t], all_active[t]@));
    assert(level < design.terms@[t].n_levels);
    assert(all_active[t]@[level]) by {
        assert(design.frame.levels()[t].len() == design.n_obs);
        assert(design.frame.levels()[t][i] == level);
    }
    assert(is_active_unknown(design, all_active, t, dof));
    lemma_groups_coverage(ops, design, weights, all_active, pairs, groups, t, dof);
    law_pairs_with_each_term(n, t);
    crate::domain::factor_pairs::lemma_same_coverage(
        crate::concat::concat_all(groups),
        domains,
        dof,
    );
}

/// There are subdomains exactly if there are two factors to pair.
pub proof fn law_subdomains_need_two_factors<T, A: Arithmetic<T>>(
    ops: A,
    design: Design<'_>,
    weights: Option<Seq<T>>,
    domains: Seq<(Subdomain, CrossTab<T>)>,
)
    requires
        design.wf(),
        design.is_plain(),
        are_local_domains(ops, design, weights, domains),
    ensures
        domains.len() == 0 <==> design.terms@.len() < 2,
{
    let n = design.terms@.len() as int;
    if n >= 2 {
        law_subdomains_cover_every_level(ops, design, weights, domains, 0, 0);
    } else {
        let pairs = crate::domain::factor_pairs::pairs_below(n, n);
        lemma_pairs_are_ordered(n as nat);
        if pairs.len() > 0 {
            assert(pairs[0].0 < pairs[0].1 < n);
        }
    }
}

/// There are no more terms than unknowns.
pub proof fn lemma_term_count(design: Design<'_>)
    requires
        design.wf(),
    ensures
        design.terms@.len() <= design.n_dofs <= u32::MAX,
{
    lemma_term_count_before(design, design.terms@.len() as int);
}

proof fn lemma_term_count_before(design: Design<'_>, t: int)
    requires
        design.wf(),
        0 <= t <= design.terms@.len(),
    ensures
        t <= crate::domain::design::offset_before(design.terms@, t),
    decreases t,
{
    if t > 0 {
        lemma_term_count_before(design, t - 1);
        let term = design.terms@[t - 1];
        assert(term.n_levels > 0);
        assert(term.columns@.len() > 0);
        assert(term.spec_n_dofs() >= 1) by (nonlinear_arith)
            requires
                term.spec_n_dofs() == term.columns@.len() * term.n_levels as nat,
                term.columns@.len() > 0,
                term.n_levels > 0,
        ;
    }
}

/// What splitting one of the pairs needs.
spec fn can_split_pairs<T>(
    design: &Design<'_>,
    weights: Option<&[T]>,
    all_active: &Vec<Vec<bool>>,
    pairs: &Vec<(usize, usize)>,
    n_pairs: usize,
) -> bool {
    &&& design.wf()
    &&& design.is_plain()
    &&& weights matches Some(given) ==> given@.len() == design.n_obs
    &&& marks_all_active(*design, all_active@)
    &&& n_pairs == pairs@.len()
    &&& are_ordered_pairs(pairs@, design.terms@.len())
}

/// `parts` are the subdomains of pair `k`.
spec fn is_split_at<T, A: Arithmetic<T>>(
    ops: &A,
    design: &Design<'_>,
    weights: Option<&[T]>,
    all_active: &Vec<Vec<bool>>,
    pairs: &Vec<(usize, usize)>,
    k: usize,
    parts: Seq<(Subdomain, CrossTab<T>)>,
) -> bool {
    is_pair_split(
        *ops,
        *design,
        optional_view(weights),
        all_active@,
        pairs@[k as int].0,
        pairs@[k as int].1,
        parts,
    )
}

/// Build all subdomains from a design, one per connected component of each
/// factor pair, with partition-of-unity weights.
pub fn build_local_domains<T: Copy + Send + Sync, A: Arithmetic<T> + Sync>(
    design: &Design<'_>,
    weights: Option<&[T]>,
    ops: &A,
) -> (domains: Vec<(Subdomain, CrossTab<T>)>)
    requires
        design.wf(),
        design.is_plain(),
        weights matches Some(given) ==> given@.len() == design.n_obs,
    ensures
        are_local_domains(*ops, *design, optional_view(weights), domains@),
{
    let pairs: Vec<(usize, usize)> = build_pairs(design.terms.len());
    let all_active: Vec<Vec<bool>> = find_all_active_levels(design);
    let pairs_ref = &pairs;
    let all_active_ref = &all_active;
    proof {
        lemma_pairs_are_ordered(design.terms@.len());
    }
    let n_pairs: usize = pairs.len();
    let f = |k: usize| -> (parts: Vec<(Subdomain, CrossTab<T>)>)
        requires
            k < n_pairs,
            can_split_pairs(design, weights, all_active_ref, pairs_ref, n_pairs),
        ensures
            is_split_at(ops, design, weights, all_active_ref, pairs_ref, k, parts@),
        {
            let pair: (usize, usize) = pairs_ref[k];
            domains_for_pair(design, weights, pair.0, pair.1, all_active_ref, ops)
        };
    let groups: Vec<Vec<(Subdomain, CrossTab<T>)>> = par_map(n_pairs, 1, f);
    let ghost parts = crate::concat::contents(groups@);
    proof {
        assert forall|k: int| 0 <= k < pairs@.len() implies is_pair_split(
            *ops,
            *design,
            optional_view(weights),
            all_active@,
            pairs@[k].0,
            pairs@[k].1,
            #[trigger] parts[k],
        ) by {
            let at = k as usize;
            assert(parts[k] == groups@[at as int]@);
        }
        assert(are_pair_splits(
            *ops,
            *design,
            optional_view(weights),
            all_active@,
            pairs@,
            parts,
        ));
    }
    let domains: Vec<(Subdomain, CrossTab<T>)> = concatenate(groups);
    proof {
        lemma_groups_within(
            *ops,
            *design,
            optional_view(weights),
            all_active@,
            pairs@,
            parts,
            0,
        );
        lemma_term_count(*design);
        assert forall|dof: int| 0 <= dof < design.n_dofs implies #[trigger]
        crate::domain::factor_pairs::coverage(domains@, dof) <= u32::MAX by {
            lemma_groups_within(
                *ops,
                *design,
                optional_view(weights),
                all_active@,
                pairs@,
                parts,
                dof,
            );
            if crate::domain::factor_pairs::coverage(domains@, dof) > 0 {
                let t = choose|t: int|
                    0 <= t < design.terms@.len() && #[trigger] is_active_unknown(
                        *design,
                        all_active@,
                        t,
                        dof,
                    );
                lemma_groups_coverage(
                    *ops,
                    *design,
                    optional_view(weights),
                    all_active@,
                    pairs@,
                    parts,
                    t,
                    dof,
                );
                law_pairs_with_each_term(design.terms@.len(), t);
            }
        }
    }
    compute_partition_weights(domains, design.n_dofs)
}

/// Every subdomain lists unknowns of the design.
pub proof fn lemma_unknowns_in_bounds<T, A: Arithmetic<T>>(
    ops: A,
    design: Design<'_>,
    weights: Option<Seq<T>>,
    domains: Seq<(Subdomain, CrossTab<T>)>,
    d: int,
    i: int,
)
    requires
        design.wf(),
        design.is_plain(),
        are_local_domains(ops, design, weights, domains),
        0 <= d < domains.len(),
        0 <= i < domains[d].0.core.indices().len(),
    ensures
        domains[d].0.core.indices()[i] < design.n_dofs,
{
    let n = design.terms@.len() as int;
    let pairs = crate::domain::factor_pairs::pairs_below(n, n);
    let (all_active, groups) = choose|
        all_active: Seq<Vec<bool>>,
        groups: Seq<Seq<(Subdomain, CrossTab<T>)>>,
    |
        {
            &&& marks_all_active(design, all_active)
            &&& #[trigger] are_pair_splits(ops, design, weights, all_active, pairs, groups)
            &&& is_weighted(crate::concat::concat_all(groups), domains)
        };
    lemma_term_count(design);
    lemma_pairs_are_ordered(n as nat);
    lemma_groups_within(ops, design, weights, all_active, pairs, groups, 0);
    let all = crate::concat::concat_all(groups);
    assert(crate::domain::factor_pairs::lists_within(
        all[d].0.core.indices(),
        design.n_dofs as nat,
    ));
    assert(domains[d].0.core.indices() == all[d].0.core.indices());
}

} // verus!
