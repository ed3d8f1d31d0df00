//! The local system of a subdomain is the restriction of `D^T W D` to its
//! unknowns.

use vstd::prelude::*;

use crate::arithmetic::Arithmetic;
use crate::domain::components::Components;
use crate::domain::cross_tab::CompactLevels;
use crate::domain::design::Design;
use crate::domain::factor_pairs::{BipartiteComponent, Subdomain};
use crate::elimination::{CrossTab, CsrBlock, Edge};
use crate::kernels::ScatterStrategy;

verus! {

/// The value of the weight of observation `k`; without weights it is one.
pub open spec fn observation_weight<T>(
    value: spec_fn(T) -> real,
    weights: Option<Seq<T>>,
    k: int,
) -> real {
    match weights {
        None => 1real,
        Some(w) => value(w[k]),
    }
}

/// Observation `k` is at the unknown `u` of term `q`.
pub open spec fn is_at(design: Design<'_>, q: int, u: int, k: int) -> bool {
    design.terms@[q].offset + design.frame.levels()[q][k] == u
}

/// The diagonal entry of `D^T W D` at the unknown `u` of term `q`: the weights of
/// the observations at it.
pub open spec fn gramian_diagonal(
    design: Design<'_>,
    w: spec_fn(int) -> real,
    q: int,
    u: int,
) -> real {
    crate::operator::laws::total(
        design.n_obs as int,
        |k: int|
            if is_at(design, q, u, k) {
                w(k)
            } else {
                0real
            },
    )
}

/// The entry of `D^T W D` at the unknowns `u` of term `q` and `v` of term `r`: the
/// weights of the observations at both.
pub open spec fn gramian_entry(
    design: Design<'_>,
    w: spec_fn(int) -> real,
    q: int,
    u: int,
    r: int,
    v: int,
) -> real {
    crate::operator::laws::total(
        design.n_obs as int,
        |k: int|
            if is_at(design, q, u, k) && is_at(design, r, v, k) {
                w(k)
            } else {
                0real
            },
    )
}

/// The value of entry `(i, j)` of the block: the sum of what row `i` stores for
/// column `j`, zero if it stores nothing.
pub open spec fn block_entry<T>(
    value: spec_fn(T) -> real,
    block: CsrBlock<T>,
    i: int,
    j: int,
) -> real {
    crate::operator::laws::total(
        block.indptr@[i + 1] - block.indptr@[i],
        stored_value(value, block, block.indptr@[i] as int, j),
    )
}

/// What the block stores for column `j`, counted from entry `first` on.
pub open spec fn stored_value<T>(
    value: spec_fn(T) -> real,
    block: CsrBlock<T>,
    first: int,
    j: int,
) -> spec_fn(int) -> real {
    |e: int|
        if block.indices@[first + e] == j {
            value(block.data@[first + e])
        } else {
            0real
        }
}

/// The table is the part of `D^T W D` on the listed unknowns, those of term `q`
/// before those of term `r`: both diagonals and both orientations of the block
/// between them.
pub open spec fn restricts_gramian<T>(
    value: spec_fn(T) -> real,
    design: Design<'_>,
    w: spec_fn(int) -> real,
    q: int,
    r: int,
    unknowns: Seq<u32>,
    table: CrossTab<T>,
) -> bool {
    let n_q = table.diag_q@.len() as int;
    let n_r = table.diag_r@.len() as int;
    &&& unknowns.len() == n_q + n_r
    &&& table.wf()
    &&& forall|i: int|
        0 <= i < n_q ==> value(#[trigger] table.diag_q@[i]) == gramian_diagonal(
            design,
            w,
            q,
            unknowns[i] as int,
        )
    &&& forall|j: int|
        0 <= j < n_r ==> value(#[trigger] table.diag_r@[j]) == gramian_diagonal(
            design,
            w,
            r,
            unknowns[n_q + j] as int,
        )
    &&& forall|i: int, j: int|
        0 <= i < n_q && 0 <= j < n_r ==> #[trigger] block_entry(value, table.c, i, j)
            == gramian_entry(design, w, q, unknowns[i] as int, r, unknowns[n_q + j] as int)
    &&& forall|i: int, j: int|
        0 <= i < n_q && 0 <= j < n_r ==> #[trigger] block_entry(value, table.ct, j, i)
            == gramian_entry(design, w, q, unknowns[i] as int, r, unknowns[n_q + j] as int)
}

/// Equal weights give equal diagonal entries.
pub proof fn lemma_same_diagonal(
    design: Design<'_>,
    a: spec_fn(int) -> real,
    b: spec_fn(int) -> real,
    q: int,
    u: int,
)
    requires
        forall|k: int| 0 <= k < design.n_obs ==> #[trigger] a(k) == b(k),
    ensures
        gramian_diagonal(design, a, q, u) == gramian_diagonal(design, b, q, u),
{
    let f = |k: int|
        if is_at(design, q, u, k) {
            a(k)
        } else {
            0real
        };
    let g = |k: int|
        if is_at(design, q, u, k) {
            b(k)
        } else {
            0real
        };
    assert forall|k: int| 0 <= k < design.n_obs implies #[trigger] f(k) == g(k) by {
        assert(a(k) == b(k));
    }
    crate::operator::laws::lemma_total_same(design.n_obs as int, f, g);
}

proof fn lemma_same_entry(
    design: Design<'_>,
    a: spec_fn(int) -> real,
    b: spec_fn(int) -> real,
    q: int,
    u: int,
    r: int,
    v: int,
)
    requires
        forall|k: int| 0 <= k < design.n_obs ==> #[trigger] a(k) == b(k),
    ensures
        gramian_entry(design, a, q, u, r, v) == gramian_entry(design, b, q, u, r, v),
{
    let f = |k: int|
        if is_at(design, q, u, k) && is_at(design, r, v, k) {
            a(k)
        } else {
            0real
        };
    let g = |k: int|
        if is_at(design, q, u, k) && is_at(design, r, v, k) {
            b(k)
        } else {
            0real
        };
    assert forall|k: int| 0 <= k < design.n_obs implies #[trigger] f(k) == g(k) by {
        assert(a(k) == b(k));
    }
    crate::operator::laws::lemma_total_same(design.n_obs as int, f, g);
}

/// Equal weights have the same restrictions.
pub proof fn lemma_same_weights<T>(
    value: spec_fn(T) -> real,
    design: Design<'_>,
    a: spec_fn(int) -> real,
    b: spec_fn(int) -> real,
    q: int,
    r: int,
    unknowns: Seq<u32>,
    table: CrossTab<T>,
)
    requires
        forall|k: int| 0 <= k < design.n_obs ==> #[trigger] a(k) == b(k),
        restricts_gramian(value, design, a, q, r, unknowns, table),
    ensures
        restricts_gramian(value, design, b, q, r, unknowns, table),
{
    let n_q = table.diag_q@.len() as int;
    assert forall|u: int| #[trigger] gramian_diagonal(design, b, q, u) == gramian_diagonal(
        design,
        a,
        q,
        u,
    ) by {
        lemma_same_diagonal(design, a, b, q, u);
    }
    assert forall|u: int| #[trigger] gramian_diagonal(design, b, r, u) == gramian_diagonal(
        design,
        a,
        r,
        u,
    ) by {
        lemma_same_diagonal(design, a, b, r, u);
    }
    assert forall|u: int, v: int| #[trigger] gramian_entry(design, b, q, u, r, v) == gramian_entry(
        design,
        a,
        q,
        u,
        r,
        v,
    ) by {
        lemma_same_entry(design, a, b, q, u, r, v);
    }
}

// ---------------------------------------------------------------------------
// Edges and blocks
// ---------------------------------------------------------------------------

/// A total whose first `a` and last `c` parts vanish is that of the middle.
proof fn lemma_total_middle(a: int, b: int, c: int, f: spec_fn(int) -> real)
    requires
        0 <= a,
        0 <= b,
        0 <= c,
        forall|k: int| 0 <= k < a ==> #[trigger] f(k) == 0real,
        forall|k: int| a + b <= k < a + b + c ==> #[trigger] f(k) == 0real,
    ensures
        crate::operator::laws::total(a + b + c, f) == crate::operator::laws::total(
            b,
            |k: int| f(a + k),
        ),
{
    let zero = |k: int| 0real;
    crate::operator::laws::lemma_total_split(a + b, c, f);
    crate::operator::laws::lemma_total_split(a, b, f);
    crate::operator::laws::lemma_total_same(a, f, zero);
    crate::operator::laws::lemma_total_zero(a);
    crate::operator::laws::lemma_total_same(a, zero, |k: int| 0real);
    let tail = |l: int| f(a + b + l);
    assert forall|l: int| 0 <= l < c implies #[trigger] tail(l) == zero(l) by {
        assert(f(a + b + l) == 0real);
    }
    crate::operator::laws::lemma_total_same(c, tail, zero);
    crate::operator::laws::lemma_total_zero(c);
    crate::operator::laws::lemma_total_same(c, zero, |k: int| 0real);
    crate::operator::laws::lemma_total_same(c, |l: int| f(a + b + l), tail);
}

/// A block's entry is the sum of its edges between the two columns.
proof fn lemma_block_entry_total<T>(
    value: spec_fn(T) -> real,
    edges: Seq<Edge<T>>,
    n_rows: nat,
    block: CsrBlock<T>,
    i: int,
    j: int,
)
    requires
        crate::domain::cross_tab::is_block_of(edges, n_rows, block),
        0 <= i < n_rows,
        i <= u32::MAX,
        0 <= j <= u32::MAX,
    ensures
        block_entry(value, block, i, j) == crate::elimination::meaning::edge_total(
            value,
            edges,
            i as u32,
            j as u32,
        ),
{
    let a = block.indptr@[i] as int;
    let b = block.indptr@[i + 1] - a;
    let n = edges.len() as int;
    assert(block.indptr@[i] <= block.indptr@[i + 1]);
    assert(block.indptr@[i + 1] <= block.indices@.len());
    let c = n - a - b;
    let f = crate::elimination::meaning::edge_value(value, edges, i as u32, j as u32);
    assert forall|k: int| 0 <= k < a implies #[trigger] f(k) == 0real by {
        assert(edges[k].0 != i) by {
            assert(block.indptr@[i] <= k < block.indptr@[i + 1] <==> edges[k].0 == i);
        }
    }
    assert forall|k: int| a + b <= k < a + b + c implies #[trigger] f(k) == 0real by {
        assert(block.indptr@[i] <= k < block.indptr@[i + 1] <==> edges[k].0 == i);
    }
    lemma_total_middle(a, b, c, f);
    let g = stored_value(value, block, a, j);
    let h = |k: int| f(a + k);
    assert forall|e: int| 0 <= e < b implies #[trigger] g(e) == h(e) by {
        assert(block.indptr@[i] <= a + e < block.indptr@[i + 1] <==> edges[a + e].0 == i);
        assert(block.indices@[a + e] == edges[a + e].1);
        assert(block.data@[a + e] == edges[a + e].2);
    }
    crate::operator::laws::lemma_total_same(b, g, h);
    crate::operator::laws::lemma_total_same(b, h, |k: int| f(a + k));
}

/// In a strictly keyed list, the edges of a key sum to the one edge that has it.
proof fn lemma_keyed_total<T>(value: spec_fn(T) -> real, edges: Seq<Edge<T>>, p: int)
    requires
        crate::elimination::is_strictly_keyed(edges),
        0 <= p < edges.len(),
    ensures
        crate::elimination::meaning::edge_total(value, edges, edges[p].0, edges[p].1) == value(
            edges[p].2,
        ),
{
    crate::elimination::lemma_single_weight(edges, p);
    crate::elimination::meaning::lemma_edge_total(value, edges, edges[p].0, edges[p].1);
    let one = seq![edges[p].2];
    assert(crate::elimination::edge_key(edges[p]) == (edges[p].0, edges[p].1));
    assert(one.drop_last() =~= Seq::empty());
    assert(crate::arithmetic::value_sum(value, one.drop_last()) == 0real);
}

proof fn lemma_missing_total<T>(value: spec_fn(T) -> real, edges: Seq<Edge<T>>, a: u32, b: u32)
    requires
        !crate::elimination::has_key(edges, (a, b)),
    ensures
        crate::elimination::meaning::edge_total(value, edges, a, b) == 0real,
{
    crate::elimination::lemma_no_weights(edges, (a, b));
    crate::elimination::meaning::lemma_edge_total(value, edges, a, b);
}

/// Merging keeps the sum of every key.
pub proof fn lemma_merge_total<T, A: Arithmetic<T>>(
    ops: A,
    value: spec_fn(T) -> real,
    edges: Seq<Edge<T>>,
    merged: Seq<Edge<T>>,
    a: u32,
    b: u32,
)
    requires
        crate::arithmetic::is_exact(ops, value),
        crate::elimination::is_merge_of(ops, edges, merged),
    ensures
        crate::elimination::meaning::edge_total(value, merged, a, b)
            == crate::elimination::meaning::edge_total(value, edges, a, b),
{
    assert(crate::elimination::has_key(edges, (a, b)) <==> crate::elimination::has_key(
        merged,
        (a, b),
    ));
    if crate::elimination::has_key(merged, (a, b)) {
        let p = choose|p: int|
            0 <= p < merged.len() && crate::elimination::edge_key(#[trigger] merged[p]) == (a, b);
        lemma_keyed_total(value, merged, p);
        crate::elimination::law_merge_keeps_weight(ops, value, edges, merged, p);
        crate::elimination::meaning::lemma_edge_total(value, edges, a, b);
    } else {
        lemma_missing_total(value, edges, a, b);
        lemma_missing_total(value, merged, a, b);
    }
}

/// Exchanging the columns of strictly keyed edges exchanges the columns of their sums.
proof fn lemma_turned_total<T>(
    value: spec_fn(T) -> real,
    edges: Seq<Edge<T>>,
    turned: Seq<Edge<T>>,
    a: u32,
    b: u32,
)
    requires
        crate::elimination::is_strictly_keyed(edges),
        crate::elimination::is_strictly_keyed(turned),
        turned.to_multiset() == crate::domain::cross_tab::swapped(edges).to_multiset(),
    ensures
        crate::elimination::meaning::edge_total(value, turned, b, a)
            == crate::elimination::meaning::edge_total(value, edges, a, b),
{
    let swapped = crate::domain::cross_tab::swapped(edges);
    if crate::elimination::has_key(edges, (a, b)) {
        let p = choose|p: int|
            0 <= p < edges.len() && crate::elimination::edge_key(#[trigger] edges[p]) == (a, b);
        let f = crate::domain::cross_tab::lemma_same_members(swapped, turned, p);
        assert(turned[f] == (b, a, edges[p].2));
        lemma_keyed_total(value, edges, p);
        lemma_keyed_total(value, turned, f);
    } else {
        if crate::elimination::has_key(turned, (b, a)) {
            let f = choose|f: int|
                0 <= f < turned.len() && crate::elimination::edge_key(#[trigger] turned[f]) == (
                    b,
                    a,
                );
            let p = crate::domain::cross_tab::lemma_same_members(turned, swapped, f);
            assert(crate::elimination::edge_key(edges[p]) == (a, b));
        }
        lemma_missing_total(value, edges, a, b);
        lemma_missing_total(value, turned, b, a);
    }
}

// ---------------------------------------------------------------------------
// The table of a pair
// ---------------------------------------------------------------------------

/// The level with compact index `c` is the one that observations with that
/// compact code are at.
proof fn lemma_compact_code(
    column: Seq<u32>,
    active: Seq<bool>,
    compact: CompactLevels,
    c: int,
    k: int,
)
    requires
        compact.numbers(active),
        crate::domain::cross_tab::marks_active(column, active),
        0 <= k < column.len(),
        column[k] < active.len(),
        active.len() <= u32::MAX,
        0 <= c < compact.level_of@.len(),
    ensures
        crate::domain::cross_tab::compact_codes(column, active)[k] == c <==> column[k]
            == compact.level_of@[c],
        crate::domain::cross_tab::rank(active, column[k] as int) <= u32::MAX,
{
    let level = column[k] as int;
    assert(active[level]);
    assert(compact.index_of@[level] == crate::domain::cross_tab::rank(active, level));
    assert(compact.level_of@[compact.index_of@[level] as int] == level);
    assert(crate::domain::cross_tab::rank(active, compact.level_of@[c] as int) == c);
}

/// The full table of a pair restricts `D^T W D` to the levels that occur.
proof fn lemma_full_table<T, A: Arithmetic<T>>(
    ops: A,
    value: spec_fn(T) -> real,
    design: Design<'_>,
    weights: Option<Seq<T>>,
    q: int,
    r: int,
    active_q: Seq<bool>,
    active_r: Seq<bool>,
    l2g: Seq<u32>,
    table: CrossTab<T>,
)
    requires
        design.wf(),
        design.is_plain(),
        crate::arithmetic::is_exact(ops, value),
        0 <= q < r < design.terms@.len(),
        active_q.len() == design.terms@[q].n_levels,
        active_r.len() == design.terms@[r].n_levels,
        crate::domain::cross_tab::marks_active(design.frame.levels()[q], active_q),
        crate::domain::cross_tab::marks_active(design.frame.levels()[r], active_r),
        crate::domain::cross_tab::is_tabulation(
            ops,
            design.frame.levels()[q],
            design.frame.levels()[r],
            active_q,
            active_r,
            weights,
            table,
        ),
        crate::domain::cross_tab::is_local_to_global(design, q, r, active_q, active_r, l2g),
    ensures
        restricts_gramian(
            value,
            design,
            |k: int| observation_weight(value, weights, k),
            q,
            r,
            l2g,
            table,
        ),
{
    let first = design.frame.levels()[q];
    let second = design.frame.levels()[r];
    let n = design.n_obs as int;
    crate::operator::lemma_term_in_range(design, q);
    crate::operator::lemma_term_in_range(design, r);
    assert(first.len() == n && second.len() == n);
    let (compact_q, compact_r) = choose|a: CompactLevels, b: CompactLevels|
        {
            &&& #[trigger] a.numbers(active_q)
            &&& #[trigger] b.numbers(active_r)
            &&& l2g == crate::domain::cross_tab::global_levels(
                design,
                q,
                r,
                a.level_of@,
                b.level_of@,
            )
        };
    let (w, edges) = choose|w: Seq<T>, edges: Seq<Edge<T>>|
        {
            &&& #[trigger] crate::domain::cross_tab::are_row_weights(ops, weights, first.len(), w)
            &&& #[trigger] crate::domain::cross_tab::holds_edges(edges, table)
            &&& crate::elimination::is_merge_of(
                ops,
                crate::domain::cross_tab::row_edges(first, second, active_q, active_r, w),
                edges,
            )
            &&& crate::domain::cross_tab::is_diagonal(ops, first, active_q, w, table.diag_q@)
            &&& crate::domain::cross_tab::is_diagonal(ops, second, active_r, w, table.diag_r@)
        };
    let turned = choose|turned: Seq<Edge<T>>| #[trigger]
        crate::domain::cross_tab::is_block_of(turned, table.diag_r@.len(), table.ct)
            && crate::elimination::is_strictly_keyed(turned) && turned.to_multiset()
            == crate::domain::cross_tab::swapped(edges).to_multiset();
    let raw = crate::domain::cross_tab::row_edges(first, second, active_q, active_r, w);
    let wv = |k: int| observation_weight(value, weights, k);
    let n_q = table.diag_q@.len() as int;
    let n_r = table.diag_r@.len() as int;
    assert forall|k: int| 0 <= k < n implies value(#[trigger] w[k]) == wv(k) by {
        match weights {
            None => {
                assert(crate::arithmetic::one_gives(ops, w[k]));
            },
            Some(given) => {},
        }
    }
    assert forall|k: int| 0 <= k < n implies #[trigger] first[k] < active_q.len() by {
        assert(design.frame.levels()[q][k] < design.terms@[q].n_levels);
    }
    assert forall|k: int| 0 <= k < n implies #[trigger] second[k] < active_r.len() by {
        assert(design.frame.levels()[r][k] < design.terms@[r].n_levels);
    }
    crate::domain::cross_tab::lemma_rank_monotone(active_q, 0, active_q.len() as int);
    crate::domain::cross_tab::lemma_rank_monotone(active_r, 0, active_r.len() as int);
    assert(n_q == compact_q.level_of@.len());
    assert(n_r == compact_r.level_of@.len());
    assert forall|i: int, k: int|
        #![trigger l2g[i], first[k]]
        0 <= i < n_q && 0 <= k < n implies (crate::domain::cross_tab::compact_codes(
        first,
        active_q,
    )[k] == i <==> is_at(design, q, l2g[i] as int, k)) by {
        lemma_compact_code(first, active_q, compact_q, i, k);
        assert(compact_q.level_of@[i] < active_q.len());
        assert(l2g[i] == (design.terms@[q].offset + compact_q.level_of@[i]) as u32);
    }
    assert forall|j: int, k: int|
        #![trigger l2g[n_q + j], second[k]]
        0 <= j < n_r && 0 <= k < n implies (crate::domain::cross_tab::compact_codes(
        second,
        active_r,
    )[k] == j <==> is_at(design, r, l2g[n_q + j] as int, k)) by {
        lemma_compact_code(second, active_r, compact_r, j, k);
        assert(compact_r.level_of@[j] < active_r.len());
        assert(l2g[n_q + j] == (design.terms@[r].offset + compact_r.level_of@[j]) as u32);
    }
    assert forall|i: int| 0 <= i < n_q implies value(#[trigger] table.diag_q@[i])
        == gramian_diagonal(design, wv, q, l2g[i] as int) by {
        lemma_diagonal_total(ops, value, first, active_q, w, table.diag_q@, i);
        let codes = crate::domain::cross_tab::compact_codes(first, active_q);
        let f = crate::operator::laws::at_level(codes, |k: int| value(w[k]), i);
        let g = |k: int|
            if is_at(design, q, l2g[i] as int, k) {
                wv(k)
            } else {
                0real
            };
        assert forall|k: int| 0 <= k < n implies #[trigger] f(k) == g(k) by {
            assert(first[k] < active_q.len());
            assert(value(w[k]) == wv(k));
        }
        crate::operator::laws::lemma_total_same(n, f, g);
    }
    assert forall|j: int| 0 <= j < n_r implies value(#[trigger] table.diag_r@[j])
        == gramian_diagonal(design, wv, r, l2g[n_q + j] as int) by {
        lemma_diagonal_total(ops, value, second, active_r, w, table.diag_r@, j);
        let codes = crate::domain::cross_tab::compact_codes(second, active_r);
        let f = crate::operator::laws::at_level(codes, |k: int| value(w[k]), j);
        let g = |k: int|
            if is_at(design, r, l2g[n_q + j] as int, k) {
                wv(k)
            } else {
                0real
            };
        assert forall|k: int| 0 <= k < n implies #[trigger] f(k) == g(k) by {
            assert(second[k] < active_r.len());
            assert(value(w[k]) == wv(k));
        }
        crate::operator::laws::lemma_total_same(n, f, g);
    }
    assert forall|i: int, j: int| 0 <= i < n_q && 0 <= j < n_r implies
        crate::elimination::meaning::edge_total(value, edges, i as u32, j as u32)
        == #[trigger] gramian_entry(design, wv, q, l2g[i] as int, r, l2g[n_q + j] as int) by {
        lemma_merge_total(ops, value, raw, edges, i as u32, j as u32);
        let f = crate::elimination::meaning::edge_value(value, raw, i as u32, j as u32);
        let g = |k: int|
            if is_at(design, q, l2g[i] as int, k) && is_at(design, r, l2g[n_q + j] as int, k) {
                wv(k)
            } else {
                0real
            };
        assert forall|k: int| 0 <= k < n implies #[trigger] f(k) == g(k) by {
            assert(first[k] < active_q.len());
            assert(second[k] < active_r.len());
            assert(value(w[k]) == wv(k));
            assert(raw[k].0 == crate::domain::cross_tab::compact_codes(first, active_q)[k]);
            assert(raw[k].1 == crate::domain::cross_tab::compact_codes(second, active_r)[k]);
        }
        crate::operator::laws::lemma_total_same(n, f, g);
    }
    assert forall|i: int, j: int| 0 <= i < n_q && 0 <= j < n_r implies #[trigger] block_entry(
        value,
        table.c,
        i,
        j,
    ) == gramian_entry(design, wv, q, l2g[i] as int, r, l2g[n_q + j] as int) by {
        lemma_block_entry_total(value, edges, n_q as nat, table.c, i, j);
    }
    assert forall|i: int, j: int| 0 <= i < n_q && 0 <= j < n_r implies #[trigger] block_entry(
        value,
        table.ct,
        j,
        i,
    ) == gramian_entry(design, wv, q, l2g[i] as int, r, l2g[n_q + j] as int) by {
        lemma_block_entry_total(value, turned, n_r as nat, table.ct, j, i);
        lemma_turned_total(value, edges, turned, i as u32, j as u32);
    }
}

/// With exact arithmetic, a diagonal entry sums the weights of the rows with its
/// compact code.
proof fn lemma_diagonal_total<T, A: Arithmetic<T>>(
    ops: A,
    value: spec_fn(T) -> real,
    column: Seq<u32>,
    active: Seq<bool>,
    w: Seq<T>,
    diagonal: Seq<T>,
    i: int,
)
    requires
        crate::arithmetic::is_exact(ops, value),
        crate::domain::cross_tab::is_diagonal(ops, column, active, w, diagonal),
        0 <= i < diagonal.len(),
    ensures
        value(diagonal[i]) == crate::operator::laws::total(
            column.len() as int,
            crate::operator::laws::at_level(
                crate::domain::cross_tab::compact_codes(column, active),
                |k: int| value(w[k]),
                i,
            ),
        ),
{
    let codes = crate::domain::cross_tab::compact_codes(column, active);
    let zeros = choose|zeros: Seq<T>|
        {
            &&& #[trigger] crate::kernels::is_zeros(
                ops,
                crate::domain::cross_tab::rank(active, active.len() as int),
                zeros,
            )
            &&& diagonal.len() == zeros.len()
            &&& crate::kernels::is_sequential_scatter(
                ops,
                codes,
                w,
                0,
                zeros.len() as int,
                zeros,
                diagonal,
            )
        };
    crate::operator::laws::law_scatter_adds_the_rows_of_a_level(
        ops,
        value,
        ScatterStrategy::Sequential,
        codes,
        w,
        0,
        zeros.len() as int,
        zeros,
        diagonal,
        i,
    );
    assert(crate::arithmetic::zero_gives(ops, zeros[i]));
}

// ---------------------------------------------------------------------------
// Parts
// ---------------------------------------------------------------------------

/// Cutting rows out of a block and renaming its columns keeps the entries.
proof fn lemma_part_entry<T>(
    value: spec_fn(T) -> real,
    block: CsrBlock<T>,
    n_rows: nat,
    rows: Seq<usize>,
    columns: Seq<usize>,
    part: CsrBlock<T>,
    a: int,
    b: int,
)
    requires
        block.wf(n_rows),
        crate::domain::components::is_block_part(block, rows, columns, part),
        forall|i: int, j: int|
            #![trigger columns[i], columns[j]]
            0 <= i < j < columns.len() ==> columns[i] < columns[j],
        0 <= a < rows.len(),
        rows[a] < n_rows,
        0 <= b < columns.len(),
    ensures
        block_entry(value, part, a, b) == block_entry(
            value,
            block,
            rows[a] as int,
            columns[b] as int,
        ),
{
    let row = rows[a] as int;
    let from = block.row(row);
    let to = part.row(a);
    assert(crate::domain::components::is_renamed_row(from, columns, to));
    assert(part.indptr@[a] <= part.indptr@[a + 1]);
    assert(block.indptr@[row] <= block.indptr@[row + 1]);
    let n = part.indptr@[a + 1] - part.indptr@[a];
    assert(n == block.indptr@[row + 1] - block.indptr@[row]);
    let f = stored_value(value, part, part.indptr@[a] as int, b);
    let g = stored_value(value, block, block.indptr@[row] as int, columns[b] as int);
    assert forall|e: int| 0 <= e < n implies #[trigger] f(e) == g(e) by {
        assert(to[e] == (part.indices@[part.indptr@[a] + e], part.data@[part.indptr@[a] + e]));
        assert(from[e] == (
            block.indices@[block.indptr@[row] + e],
            block.data@[block.indptr@[row] + e],
        ));
        let c = to[e].0 as int;
        assert(columns[c] == from[e].0);
        if c < b {
            assert(columns[c] < columns[b]);
        } else if b < c {
            assert(columns[b] < columns[c]);
        }
    }
    crate::operator::laws::lemma_total_same(n, f, g);
}

/// A component's part of the table restricts `D^T W D` to the component's unknowns.
proof fn lemma_part_restricts<T>(
    value: spec_fn(T) -> real,
    design: Design<'_>,
    w: spec_fn(int) -> real,
    q: int,
    r: int,
    l2g: Seq<u32>,
    table: CrossTab<T>,
    components: Components,
    c: int,
    part: CrossTab<T>,
)
    requires
        restricts_gramian(value, design, w, q, r, l2g, table),
        crate::domain::components::are_components(table, components),
        0 <= c < components.list@.len(),
        crate::domain::components::is_table_part(table, components.list@[c], part),
    ensures
        restricts_gramian(
            value,
            design,
            w,
            q,
            r,
            crate::domain::factor_pairs::spec_component_global_indices(
                components.list@[c],
                l2g,
                table.diag_q@.len() as int,
            ),
            part,
        ),
{
    let component = components.list@[c];
    crate::domain::components::lemma_component_within(table, components, c);
    let labels = choose|labels: Seq<usize>| #[trigger]
        crate::domain::components::are_labelled_components(table, labels, components);
    let n_full = table.diag_q@.len() as int;
    assert(crate::domain::components::is_component(labels, n_full, c, component));
    let unknowns = crate::domain::factor_pairs::spec_component_global_indices(
        component,
        l2g,
        n_full,
    );
    let n_q = part.diag_q@.len() as int;
    let n_r = part.diag_r@.len() as int;
    assert forall|i: int| 0 <= i < n_q implies #[trigger] unknowns[i]
        == l2g[component.q_indices@[i] as int] && component.q_indices@[i] < n_full by {}
    assert forall|j: int| 0 <= j < n_r implies #[trigger] unknowns[n_q + j] == l2g[n_full
        + component.r_indices@[j]] && component.r_indices@[j] < table.diag_r@.len() by {}
    assert forall|i: int| 0 <= i < n_q implies value(#[trigger] part.diag_q@[i])
        == gramian_diagonal(design, w, q, unknowns[i] as int) by {
        assert(unknowns[i] == l2g[component.q_indices@[i] as int]);
        assert(part.diag_q@[i] == table.diag_q@[component.q_indices@[i] as int]);
    }
    assert forall|j: int| 0 <= j < n_r implies value(#[trigger] part.diag_r@[j])
        == gramian_diagonal(design, w, r, unknowns[n_q + j] as int) by {
        assert(unknowns[n_q + j] == l2g[n_full + component.r_indices@[j]]);
        assert(part.diag_r@[j] == table.diag_r@[component.r_indices@[j] as int]);
    }
    assert forall|i: int, j: int| 0 <= i < n_q && 0 <= j < n_r implies #[trigger] block_entry(
        value,
        part.c,
        i,
        j,
    ) == gramian_entry(design, w, q, unknowns[i] as int, r, unknowns[n_q + j] as int) by {
        assert(unknowns[i] == l2g[component.q_indices@[i] as int]);
        assert(unknowns[n_q + j] == l2g[n_full + component.r_indices@[j]]);
        lemma_part_entry(
            value,
            table.c,
            table.diag_q@.len(),
            component.q_indices@,
            component.r_indices@,
            part.c,
            i,
            j,
        );
    }
    assert forall|i: int, j: int| 0 <= i < n_q && 0 <= j < n_r implies #[trigger] block_entry(
        value,
        part.ct,
        j,
        i,
    ) == gramian_entry(design, w, q, unknowns[i] as int, r, unknowns[n_q + j] as int) by {
        assert(unknowns[i] == l2g[component.q_indices@[i] as int]);
        assert(unknowns[n_q + j] == l2g[n_full + component.r_indices@[j]]);
        lemma_part_entry(
            value,
            table.ct,
            table.diag_r@.len(),
            component.r_indices@,
            component.q_indices@,
            part.ct,
            j,
            i,
        );
    }
}

/// An item of a concatenation is an item of one of the lists.
proof fn lemma_concat_item<C>(lists: Seq<Seq<C>>, d: int) -> (place: (int, int))
    requires
        0 <= d < crate::concat::concat_all(lists).len(),
    ensures
        0 <= place.0 < lists.len(),
        0 <= place.1 < lists[place.0].len(),
        crate::concat::concat_all(lists)[d] == lists[place.0][place.1],
    decreases lists.len(),
{
    let front = lists.drop_last();
    let head = crate::concat::concat_all(front);
    if d < head.len() {
        let place = lemma_concat_item(front, d);
        assert(lists[place.0] == front[place.0]);
        place
    } else {
        (lists.len() - 1, d - head.len())
    }
}

/// The local system of every subdomain is the restriction of `D^T W D` of its
/// factor pair to its unknowns: with exact arithmetic, each diagonal entry is the
/// sum of the weights of the observations at its unknown, and entry `(i, j)` that
/// of the observations at both unknowns, in both orientations. Without weights
/// every observation counts one.
pub proof fn law_local_tables_restrict_the_gramian<T, A: Arithmetic<T>>(
    ops: A,
    value: spec_fn(T) -> real,
    design: Design<'_>,
    weights: Option<Seq<T>>,
    domains: Seq<(Subdomain, CrossTab<T>)>,
    d: int,
)
    requires
        design.wf(),
        design.is_plain(),
        crate::arithmetic::is_exact(ops, value),
        crate::domain::local_domains::are_local_domains(ops, design, weights, domains),
        0 <= d < domains.len(),
    ensures
        domains[d].0.factor_pair.0 < domains[d].0.factor_pair.1 < design.terms@.len(),
        restricts_gramian(
            value,
            design,
            |k: int| observation_weight(value, weights, k),
            domains[d].0.factor_pair.0 as int,
            domains[d].0.factor_pair.1 as int,
            domains[d].0.core.indices(),
            domains[d].1,
        ),
{
    let n = design.terms@.len() as int;
    let pairs = crate::domain::factor_pairs::pairs_below(n, n);
    let (all_active, groups) = choose|
        all_active: Seq<Vec<bool>>,
        groups: Seq<Seq<(Subdomain, CrossTab<T>)>>,
    |
        {
            &&& crate::domain::local_domains::marks_all_active(design, all_active)
            &&& #[trigger] crate::domain::local_domains::are_pair_splits(
                ops,
                design,
                weights,
                all_active,
                pairs,
                groups,
            )
            &&& crate::domain::local_domains::is_weighted(
                crate::concat::concat_all(groups),
                domains,
            )
        };
    crate::domain::local_domains::lemma_term_count(design);
    crate::domain::local_domains::lemma_pairs_are_ordered(n as nat);
    let (g, p) = lemma_concat_item(groups, d);
    let parts = groups[g];
    let (q, r) = pairs[g];
    assert(pairs[g].0 < pairs[g].1 < n);
    assert(crate::domain::local_domains::is_pair_split(
        ops,
        design,
        weights,
        all_active,
        q,
        r,
        parts,
    ));
    let (table, l2g) = choose|table: CrossTab<T>, l2g: Seq<u32>|
        {
            &&& #[trigger] crate::domain::local_domains::is_split(table, l2g, (q, r), parts)
            &&& crate::domain::cross_tab::is_tabulation(
                ops,
                design.frame.levels()[q as int],
                design.frame.levels()[r as int],
                all_active[q as int]@,
                all_active[r as int]@,
                weights,
                table,
            )
            &&& crate::domain::cross_tab::is_local_to_global(
                design,
                q as int,
                r as int,
                all_active[q as int]@,
                all_active[r as int]@,
                l2g,
            )
            &&& l2g.len() == crate::domain::components::n_vertices(table)
        };
    assert(all_active[q as int]@.len() == design.terms@[q as int].n_levels);
    assert(all_active[r as int]@.len() == design.terms@[r as int].n_levels);
    lemma_full_table(
        ops,
        value,
        design,
        weights,
        q as int,
        r as int,
        all_active[q as int]@,
        all_active[r as int]@,
        l2g,
        table,
    );
    let components = choose|components: Components| #[trigger]
        crate::domain::local_domains::splits_into(table, l2g, (q, r), components, parts);
    assert(crate::domain::local_domains::is_subdomain_of(
        table,
        l2g,
        (q, r),
        components.list@[p],
        parts[p],
    ));
    lemma_part_restricts(
        value,
        design,
        |k: int| observation_weight(value, weights, k),
        q as int,
        r as int,
        l2g,
        table,
        components,
        p,
        parts[p].1,
    );
    assert(domains[d].1 == parts[p].1);
    assert(domains[d].0.core.indices() == parts[p].0.core.indices());
}

// ---------------------------------------------------------------------------
// Connectedness
// ---------------------------------------------------------------------------

/// Some observation is at the unknown `u` of term `q` and `v` of term `r`.
pub open spec fn is_observed(design: Design<'_>, q: int, u: int, r: int, v: int) -> bool {
    exists|k: int| 0 <= k < design.n_obs && #[trigger] is_at_both(design, q, u, r, v, k)
}

/// Observation `k` is at both unknowns.
pub open spec fn is_at_both(design: Design<'_>, q: int, u: int, r: int, v: int, k: int) -> bool {
    is_at(design, q, u, k) && is_at(design, r, v, k)
}

/// The two unknowns are the levels of one observation in the two terms.
pub open spec fn are_linked(design: Design<'_>, q: int, r: int, u: int, v: int) -> bool {
    is_observed(design, q, u, r, v) || is_observed(design, q, v, r, u)
}

/// Observations lead from each unknown of the chain to the next.
pub open spec fn is_chain(design: Design<'_>, q: int, r: int, chain: Seq<u32>) -> bool {
    &&& chain.len() > 0
    &&& forall|i: int|
        0 <= i < chain.len() - 1 ==> are_linked(
            design,
            q,
            r,
            #[trigger] chain[i] as int,
            chain[i + 1] as int,
        )
}

/// A chain of observations leads from `u` to `v`.
pub open spec fn are_chained(design: Design<'_>, q: int, r: int, u: u32, v: u32) -> bool {
    exists|chain: Seq<u32>| #[trigger]
        is_chain(design, q, r, chain) && chain[0] == u && chain.last() == v
}

/// The list names `u`.
pub open spec fn lists(unknowns: Seq<u32>, u: int) -> bool {
    exists|i: int| 0 <= i < unknowns.len() && #[trigger] unknowns[i] == u
}

/// Compact codes stand for the unknowns of the local-to-global list.
proof fn lemma_codes_are_unknowns(
    design: Design<'_>,
    q: int,
    r: int,
    active_q: Seq<bool>,
    active_r: Seq<bool>,
    l2g: Seq<u32>,
)
    requires
        design.wf(),
        design.is_plain(),
        0 <= q < r < design.terms@.len(),
        active_q.len() == design.terms@[q].n_levels,
        active_r.len() == design.terms@[r].n_levels,
        crate::domain::cross_tab::marks_active(design.frame.levels()[q], active_q),
        crate::domain::cross_tab::marks_active(design.frame.levels()[r], active_r),
        crate::domain::cross_tab::is_local_to_global(design, q, r, active_q, active_r, l2g),
    ensures
        ({
            let n_q = crate::domain::cross_tab::rank(active_q, active_q.len() as int) as int;
            let n_r = crate::domain::cross_tab::rank(active_r, active_r.len() as int) as int;
            &&& l2g.len() == n_q + n_r
            &&& forall|i: int, k: int|
                #![trigger is_at(design, q, l2g[i] as int, k)]
                0 <= i < n_q && 0 <= k < design.n_obs ==> (is_at(design, q, l2g[i] as int, k)
                    <==> crate::domain::cross_tab::compact_codes(
                    design.frame.levels()[q],
                    active_q,
                )[k] == i)
            &&& forall|j: int, k: int|
                #![trigger is_at(design, r, l2g[n_q + j] as int, k)]
                0 <= j < n_r && 0 <= k < design.n_obs ==> (is_at(
                    design,
                    r,
                    l2g[n_q + j] as int,
                    k,
                ) <==> crate::domain::cross_tab::compact_codes(
                    design.frame.levels()[r],
                    active_r,
                )[k] == j)
            &&& forall|k: int|
                0 <= k < design.n_obs ==> 0 <= #[trigger] crate::domain::cross_tab::compact_codes(
                    design.frame.levels()[q],
                    active_q,
                )[k] < n_q
            &&& forall|k: int|
                0 <= k < design.n_obs ==> 0 <= #[trigger] crate::domain::cross_tab::compact_codes(
                    design.frame.levels()[r],
                    active_r,
                )[k] < n_r
        }),
{
    let first = design.frame.levels()[q];
    let second = design.frame.levels()[r];
    let n = design.n_obs as int;
    crate::operator::lemma_term_in_range(design, q);
    crate::operator::lemma_term_in_range(design, r);
    assert(first.len() == n && second.len() == n);
    let (compact_q, compact_r) = choose|a: CompactLevels, b: CompactLevels|
        {
            &&& #[trigger] a.numbers(active_q)
            &&& #[trigger] b.numbers(active_r)
            &&& l2g == crate::domain::cross_tab::global_levels(
                design,
                q,
                r,
                a.level_of@,
                b.level_of@,
            )
        };
    let n_q = compact_q.level_of@.len() as int;
    let n_r = compact_r.level_of@.len() as int;
    assert forall|i: int, k: int|
        #![trigger is_at(design, q, l2g[i] as int, k)]
        0 <= i < n_q && 0 <= k < n implies (is_at(design, q, l2g[i] as int, k)
        <==> crate::domain::cross_tab::compact_codes(first, active_q)[k] == i) by {
        assert(first[k] < design.terms@[q].n_levels);
        lemma_compact_code(first, active_q, compact_q, i, k);
        assert(compact_q.level_of@[i] < active_q.len());
        assert(l2g[i] == (design.terms@[q].offset + compact_q.level_of@[i]) as u32);
    }
    assert forall|j: int, k: int|
        #![trigger is_at(design, r, l2g[n_q + j] as int, k)]
        0 <= j < n_r && 0 <= k < n implies (is_at(design, r, l2g[n_q + j] as int, k)
        <==> crate::domain::cross_tab::compact_codes(second, active_r)[k] == j) by {
        assert(second[k] < design.terms@[r].n_levels);
        lemma_compact_code(second, active_r, compact_r, j, k);
        assert(compact_r.level_of@[j] < active_r.len());
        assert(l2g[n_q + j] == (design.terms@[r].offset + compact_r.level_of@[j]) as u32);
    }
    assert forall|k: int| 0 <= k < n implies 0
        <= #[trigger] crate::domain::cross_tab::compact_codes(first, active_q)[k] < n_q by {
        let level = first[k] as int;
        assert(first[k] < design.terms@[q].n_levels);
        assert(active_q[level]);
        assert(compact_q.index_of@[level] == crate::domain::cross_tab::rank(active_q, level));
    }
    assert forall|k: int| 0 <= k < n implies 0
        <= #[trigger] crate::domain::cross_tab::compact_codes(second, active_r)[k] < n_r by {
        let level = second[k] as int;
        assert(second[k] < design.terms@[r].n_levels);
        assert(active_r[level]);
        assert(compact_r.index_of@[level] == crate::domain::cross_tab::rank(active_r, level));
    }
}

/// The table has an entry exactly where some observation has both codes.
proof fn lemma_entry_is_observed<T, A: Arithmetic<T>>(
    ops: A,
    first: Seq<u32>,
    second: Seq<u32>,
    active_q: Seq<bool>,
    active_r: Seq<bool>,
    weights: Option<Seq<T>>,
    table: CrossTab<T>,
    a: int,
    b: int,
)
    requires
        crate::domain::cross_tab::is_tabulation(
            ops,
            first,
            second,
            active_q,
            active_r,
            weights,
            table,
        ),
        first.len() == second.len(),
        0 <= a < table.diag_q@.len(),
        0 <= b < table.diag_r@.len(),
        a <= u32::MAX,
        b <= u32::MAX,
    ensures
        crate::domain::cross_tab::has_entry(table.c, a, b) <==> crate::domain::cross_tab::has_entry(
            table.ct,
            b,
            a,
        ),
        crate::domain::cross_tab::has_entry(table.c, a, b) <==> exists|k: int|
            0 <= k < first.len() && #[trigger] has_codes(
                first,
                second,
                active_q,
                active_r,
                a,
                b,
                k,
            ),
{
    let (w, edges) = choose|w: Seq<T>, edges: Seq<Edge<T>>|
        {
            &&& #[trigger] crate::domain::cross_tab::are_row_weights(ops, weights, first.len(), w)
            &&& #[trigger] crate::domain::cross_tab::holds_edges(edges, table)
            &&& crate::elimination::is_merge_of(
                ops,
                crate::domain::cross_tab::row_edges(first, second, active_q, active_r, w),
                edges,
            )
            &&& crate::domain::cross_tab::is_diagonal(ops, first, active_q, w, table.diag_q@)
            &&& crate::domain::cross_tab::is_diagonal(ops, second, active_r, w, table.diag_r@)
        };
    let raw = crate::domain::cross_tab::row_edges(first, second, active_q, active_r, w);
    crate::domain::cross_tab::law_table_is_symmetric(edges, table);
    crate::domain::cross_tab::lemma_block_entry(edges, table.diag_q@.len(), table.c, a, b);
    let key = (a as u32, b as u32);
    assert(crate::elimination::has_key(raw, key) <==> crate::elimination::has_key(edges, key));
    if crate::domain::cross_tab::has_entry(table.c, a, b) {
        let e = choose|e: int|
            0 <= e < edges.len() && (#[trigger] edges[e]).0 == a && edges[e].1 == b;
        assert(crate::elimination::edge_key(edges[e]) == key);
        let k = choose|k: int|
            0 <= k < raw.len() && crate::elimination::edge_key(#[trigger] raw[k]) == key;
        assert(has_codes(first, second, active_q, active_r, a, b, k));
    }
    if exists|k: int|
        0 <= k < first.len() && #[trigger] has_codes(first, second, active_q, active_r, a, b, k) {
        let k = choose|k: int|
            0 <= k < first.len() && #[trigger] has_codes(
                first,
                second,
                active_q,
                active_r,
                a,
                b,
                k,
            );
        assert(crate::elimination::edge_key(raw[k]) == key);
        let e = choose|e: int|
            0 <= e < edges.len() && crate::elimination::edge_key(#[trigger] edges[e]) == key;
        assert(edges[e].0 == a && edges[e].1 == b);
    }
}

/// Observation `k` has these compact codes.
spec fn has_codes(
    first: Seq<u32>,
    second: Seq<u32>,
    active_q: Seq<bool>,
    active_r: Seq<bool>,
    a: int,
    b: int,
    k: int,
) -> bool {
    crate::domain::cross_tab::compact_codes(first, active_q)[k] == a
        && crate::domain::cross_tab::compact_codes(second, active_r)[k] == b
}

/// A pair's table with what its vertices stand for.
spec fn is_pair_table<T, A: Arithmetic<T>>(
    ops: A,
    design: Design<'_>,
    weights: Option<Seq<T>>,
    q: int,
    r: int,
    active_q: Seq<bool>,
    active_r: Seq<bool>,
    l2g: Seq<u32>,
    table: CrossTab<T>,
) -> bool {
    &&& 0 <= q < r < design.terms@.len()
    &&& active_q.len() == design.terms@[q].n_levels
    &&& active_r.len() == design.terms@[r].n_levels
    &&& crate::domain::cross_tab::marks_active(design.frame.levels()[q], active_q)
    &&& crate::domain::cross_tab::marks_active(design.frame.levels()[r], active_r)
    &&& crate::domain::cross_tab::is_local_to_global(design, q, r, active_q, active_r, l2g)
    &&& crate::domain::cross_tab::is_tabulation(
        ops,
        design.frame.levels()[q],
        design.frame.levels()[r],
        active_q,
        active_r,
        weights,
        table,
    )
    &&& l2g.len() == crate::domain::components::n_vertices(table) <= u32::MAX
    &&& table.diag_q@.len() == crate::domain::cross_tab::rank(active_q, active_q.len() as int)
    &&& table.diag_r@.len() == crate::domain::cross_tab::rank(active_r, active_r.len() as int)
    &&& design.frame.levels()[q].len() == design.n_obs
    &&& design.frame.levels()[r].len() == design.n_obs
}

/// Adjacent vertices stand for linked unknowns, and the other way round.
proof fn lemma_adjacent_is_linked<T, A: Arithmetic<T>>(
    ops: A,
    design: Design<'_>,
    weights: Option<Seq<T>>,
    q: int,
    r: int,
    active_q: Seq<bool>,
    active_r: Seq<bool>,
    l2g: Seq<u32>,
    table: CrossTab<T>,
    u: int,
    v: int,
)
    requires
        design.wf(),
        design.is_plain(),
        is_pair_table(ops, design, weights, q, r, active_q, active_r, l2g, table),
        crate::domain::components::adjacent(table, u, v),
    ensures
        0 <= u < l2g.len(),
        0 <= v < l2g.len(),
        are_linked(design, q, r, l2g[u] as int, l2g[v] as int),
{
    let n_q = table.diag_q@.len() as int;
    let first = design.frame.levels()[q];
    let second = design.frame.levels()[r];
    lemma_codes_are_unknowns(design, q, r, active_q, active_r, l2g);
    let (a, b) = if u < n_q {
        (u, v - n_q)
    } else {
        (v, u - n_q)
    };
    lemma_entry_is_observed(ops, first, second, active_q, active_r, weights, table, a, b);
    let k = choose|k: int|
        0 <= k < first.len() && #[trigger] has_codes(first, second, active_q, active_r, a, b, k);
    assert(is_at(design, q, l2g[a] as int, k));
    assert(is_at(design, r, l2g[n_q + b] as int, k));
    assert(is_at_both(design, q, l2g[a] as int, r, l2g[n_q + b] as int, k));
    assert(is_observed(design, q, l2g[a] as int, r, l2g[n_q + b] as int));
}

proof fn lemma_connected_is_chained<T, A: Arithmetic<T>>(
    ops: A,
    design: Design<'_>,
    weights: Option<Seq<T>>,
    q: int,
    r: int,
    active_q: Seq<bool>,
    active_r: Seq<bool>,
    l2g: Seq<u32>,
    table: CrossTab<T>,
    u: int,
    v: int,
)
    requires
        design.wf(),
        design.is_plain(),
        is_pair_table(ops, design, weights, q, r, active_q, active_r, l2g, table),
        crate::domain::components::connected(table, u, v),
        0 <= u < l2g.len(),
    ensures
        0 <= v < l2g.len(),
        are_chained(design, q, r, l2g[u], l2g[v]),
{
    let path = choose|path: Seq<int>| #[trigger]
        crate::domain::components::is_path(table, path) && path[0] == u && path.last() == v;
    let chain = Seq::new(path.len(), |i: int| l2g[path[i]]);
    assert forall|i: int| 0 <= i < chain.len() - 1 implies are_linked(
        design,
        q,
        r,
        #[trigger] chain[i] as int,
        chain[i + 1] as int,
    ) && 0 <= path[i + 1] < l2g.len() by {
        assert(crate::domain::components::adjacent(table, path[i], path[i + 1]));
        lemma_adjacent_is_linked(
            ops,
            design,
            weights,
            q,
            r,
            active_q,
            active_r,
            l2g,
            table,
            path[i],
            path[i + 1],
        );
    }
    if path.len() > 1 {
        let i = path.len() - 2;
        assert(chain[i] == l2g[path[i]]);
        assert(path[i + 1] == v);
    }
    assert(is_chain(design, q, r, chain));
    assert(chain[0] == l2g[u] && chain.last() == l2g[v]);
}

/// The vertex that position `i` of a component's unknowns stands for.
spec fn vertex_of(component: BipartiteComponent, n_q: int, i: int) -> int {
    let here = component.q_indices@.len() as int;
    if i < here {
        component.q_indices@[i] as int
    } else {
        n_q + component.r_indices@[i - here]
    }
}

/// A component's unknowns are those of the vertices with its label.
proof fn lemma_component_unknowns<T>(
    table: CrossTab<T>,
    labels: Seq<usize>,
    components: Components,
    c: int,
    l2g: Seq<u32>,
    unknowns: Seq<u32>,
)
    requires
        crate::domain::components::are_labelled_components(table, labels, components),
        0 <= c < components.list@.len(),
        l2g.len() == crate::domain::components::n_vertices(table) <= u32::MAX,
        l2g.no_duplicates(),
        unknowns == crate::domain::factor_pairs::spec_component_global_indices(
            components.list@[c],
            l2g,
            table.diag_q@.len() as int,
        ),
    ensures
        forall|i: int|
            0 <= i < unknowns.len() ==> {
                let p = vertex_of(components.list@[c], table.diag_q@.len() as int, i);
                0 <= p < l2g.len() && #[trigger] unknowns[i] == l2g[p] && labels[p] == c
            },
        forall|p: int|
            0 <= p < l2g.len() ==> (labels[p] == c <==> #[trigger] lists(unknowns, l2g[p] as int)),
{
    let n_q = table.diag_q@.len() as int;
    let component = components.list@[c];
    let here = component.q_indices@.len() as int;
    assert(crate::domain::components::is_component(labels, n_q, c, component));
    assert forall|i: int| 0 <= i < unknowns.len() implies {
        let p = vertex_of(component, n_q, i);
        0 <= p < l2g.len() && #[trigger] unknowns[i] == l2g[p] && labels[p] == c
    } by {
        if i < here {
            assert(component.q_indices@[i] < labels.take(n_q).len());
            assert(labels.take(n_q)[component.q_indices@[i] as int] == c);
        } else {
            assert(component.r_indices@[i - here] < labels.skip(n_q).len());
            assert(labels.skip(n_q)[component.r_indices@[i - here] as int] == c);
        }
    }
    assert forall|p: int| 0 <= p < l2g.len() implies (labels[p] == c <==> #[trigger] lists(
        unknowns,
        l2g[p] as int,
    )) by {
        if labels[p] == c {
            if p < n_q {
                assert(labels.take(n_q)[p] == c);
                assert(component.q_indices@.contains(p as usize));
                let i = choose|i: int|
                    0 <= i < component.q_indices@.len() && component.q_indices@[i] == p as usize;
                assert(unknowns[i] == l2g[p]);
            } else {
                assert(labels.skip(n_q)[p - n_q] == c);
                assert(component.r_indices@.contains((p - n_q) as usize));
                let i = choose|i: int|
                    0 <= i < component.r_indices@.len() && component.r_indices@[i] == (p
                        - n_q) as usize;
                assert(unknowns[here + i] == l2g[p]);
            }
        }
        if lists(unknowns, l2g[p] as int) {
            let i = choose|i: int| 0 <= i < unknowns.len() && #[trigger] unknowns[i] == l2g[p];
            let o = vertex_of(component, n_q, i);
            assert(unknowns[i] == l2g[o] && labels[o] == c);
            assert(o == p);
        }
    }
}

/// A subdomain is one connected component of its factor pair: observations chain
/// any two of its unknowns, and an observation has either both or neither of its
/// two levels in it.
pub proof fn law_subdomains_are_components<T, A: Arithmetic<T>>(
    ops: A,
    design: Design<'_>,
    weights: Option<Seq<T>>,
    domains: Seq<(Subdomain, CrossTab<T>)>,
    d: int,
)
    requires
        design.wf(),
        design.is_plain(),
        crate::domain::local_domains::are_local_domains(ops, design, weights, domains),
        0 <= d < domains.len(),
    ensures
        ({
            let q = domains[d].0.factor_pair.0 as int;
            let r = domains[d].0.factor_pair.1 as int;
            let unknowns = domains[d].0.core.indices();
            &&& forall|i: int, j: int|
                #![trigger unknowns[i], unknowns[j]]
                0 <= i < unknowns.len() && 0 <= j < unknowns.len() ==> are_chained(
                    design,
                    q,
                    r,
                    unknowns[i],
                    unknowns[j],
                )
            &&& forall|k: int|
                #![trigger design.frame.levels()[q][k]]
                #![trigger design.frame.levels()[r][k]]
                0 <= k < design.n_obs ==> (lists(
                    unknowns,
                    design.terms@[q].offset + design.frame.levels()[q][k],
                ) <==> lists(unknowns, design.terms@[r].offset + design.frame.levels()[r][k]))
        }),
{
    let n = design.terms@.len() as int;
    let pairs = crate::domain::factor_pairs::pairs_below(n, n);
    let (all_active, groups) = choose|
        all_active: Seq<Vec<bool>>,
        groups: Seq<Seq<(Subdomain, CrossTab<T>)>>,
    |
        {
            &&& crate::domain::local_domains::marks_all_active(design, all_active)
            &&& #[trigger] crate::domain::local_domains::are_pair_splits(
                ops,
                design,
                weights,
                all_active,
                pairs,
                groups,
            )
            &&& crate::domain::local_domains::is_weighted(
                crate::concat::concat_all(groups),
                domains,
            )
        };
    crate::domain::local_domains::lemma_term_count(design);
    crate::domain::local_domains::lemma_pairs_are_ordered(n as nat);
    let (g, p) = lemma_concat_item(groups, d);
    let parts = groups[g];
    let (q, r) = pairs[g];
    assert(pairs[g].0 < pairs[g].1 < n);
    assert(crate::domain::local_domains::is_pair_split(
        ops,
        design,
        weights,
        all_active,
        q,
        r,
        parts,
    ));
    assert(domains[d].0.core.indices() == parts[p].0.core.indices());
    lemma_part_is_component(ops, design, weights, all_active, q, r, parts, p);
}

proof fn lemma_part_is_component<T, A: Arithmetic<T>>(
    ops: A,
    design: Design<'_>,
    weights: Option<Seq<T>>,
    all_active: Seq<Vec<bool>>,
    q: usize,
    r: usize,
    parts: Seq<(Subdomain, CrossTab<T>)>,
    p: int,
)
    requires
        design.wf(),
        design.is_plain(),
        q < r < design.terms@.len(),
        crate::domain::local_domains::marks_all_active(design, all_active),
        crate::domain::local_domains::is_pair_split(
            ops,
            design,
            weights,
            all_active,
            q,
            r,
            parts,
        ),
        0 <= p < parts.len(),
    ensures
        parts[p].0.factor_pair == (q, r),
        ({
            let unknowns = parts[p].0.core.indices();
            &&& forall|i: int, j: int|
                #![trigger unknowns[i], unknowns[j]]
                0 <= i < unknowns.len() && 0 <= j < unknowns.len() ==> are_chained(
                    design,
                    q as int,
                    r as int,
                    unknowns[i],
                    unknowns[j],
                )
            &&& forall|k: int|
                #![trigger design.frame.levels()[q as int][k]]
                #![trigger design.frame.levels()[r as int][k]]
                0 <= k < design.n_obs ==> (lists(
                    unknowns,
                    design.terms@[q as int].offset + design.frame.levels()[q as int][k],
                ) <==> lists(
                    unknowns,
                    design.terms@[r as int].offset + design.frame.levels()[r as int][k],
                ))
        }),
{
    let active_q = all_active[q as int]@;
    let active_r = all_active[r as int]@;
    let first = design.frame.levels()[q as int];
    let second = design.frame.levels()[r as int];
    let (table, l2g) = choose|table: CrossTab<T>, l2g: Seq<u32>|
        {
            &&& #[trigger] crate::domain::local_domains::is_split(table, l2g, (q, r), parts)
            &&& crate::domain::cross_tab::is_tabulation(
                ops,
                first,
                second,
                active_q,
                active_r,
                weights,
                table,
            )
            &&& crate::domain::cross_tab::is_local_to_global(
                design,
                q as int,
                r as int,
                active_q,
                active_r,
                l2g,
            )
            &&& l2g.len() == crate::domain::components::n_vertices(table)
        };
    crate::domain::local_domains::lemma_local_to_global(
        design,
        all_active,
        q as int,
        r as int,
        l2g,
    );
    assert(all_active[q as int]@.len() == design.terms@[q as int].n_levels);
    assert(all_active[r as int]@.len() == design.terms@[r as int].n_levels);
    lemma_table_sizes(ops, first, second, active_q, active_r, weights, table);
    assert(is_pair_table(
        ops,
        design,
        weights,
        q as int,
        r as int,
        active_q,
        active_r,
        l2g,
        table,
    ));
    let components = choose|components: Components| #[trigger]
        crate::domain::local_domains::splits_into(table, l2g, (q, r), components, parts);
    assert(crate::domain::local_domains::is_subdomain_of(
        table,
        l2g,
        (q, r),
        components.list@[p],
        parts[p],
    ));
    let labels = choose|labels: Seq<usize>| #[trigger]
        crate::domain::components::are_labelled_components(table, labels, components);
    let unknowns = parts[p].0.core.indices();
    let n_q = table.diag_q@.len() as int;
    lemma_component_unknowns(table, labels, components, p, l2g, unknowns);
    assert forall|i: int, j: int|
        #![trigger unknowns[i], unknowns[j]]
        0 <= i < unknowns.len() && 0 <= j < unknowns.len() implies are_chained(
        design,
        q as int,
        r as int,
        unknowns[i],
        unknowns[j],
    ) by {
        let u = vertex_of(components.list@[p], n_q, i);
        let v = vertex_of(components.list@[p], n_q, j);
        assert(unknowns[i] == l2g[u] && labels[u] == p);
        assert(unknowns[j] == l2g[v] && labels[v] == p);
        crate::domain::components::law_component_is_connectedness(
            table,
            labels,
            components.list@.len(),
            u,
            v,
        );
        lemma_connected_is_chained(
            ops,
            design,
            weights,
            q as int,
            r as int,
            active_q,
            active_r,
            l2g,
            table,
            u,
            v,
        );
    }
    assert forall|k: int|
        #![trigger design.frame.levels()[q as int][k]]
        #![trigger design.frame.levels()[r as int][k]]
        0 <= k < design.n_obs implies (lists(
        unknowns,
        design.terms@[q as int].offset + design.frame.levels()[q as int][k],
    ) <==> lists(
        unknowns,
        design.terms@[r as int].offset + design.frame.levels()[r as int][k],
    )) by {
        lemma_codes_are_unknowns(design, q as int, r as int, active_q, active_r, l2g);
        let a = crate::domain::cross_tab::compact_codes(first, active_q)[k] as int;
        let b = crate::domain::cross_tab::compact_codes(second, active_r)[k] as int;
        assert(is_at(design, q as int, l2g[a] as int, k));
        assert(is_at(design, r as int, l2g[n_q + b] as int, k));
        lemma_entry_is_observed(
            ops,
            first,
            second,
            active_q,
            active_r,
            weights,
            table,
            a,
            b,
        );
        assert(has_codes(first, second, active_q, active_r, a, b, k));
        assert(crate::domain::components::adjacent(table, a, n_q + b));
        assert(labels[n_q + b] == labels[a]);
        assert(labels[a] == p <==> lists(unknowns, l2g[a] as int));
        assert(labels[n_q + b] == p <==> lists(unknowns, l2g[n_q + b] as int));
    }
}

proof fn lemma_table_sizes<T, A: Arithmetic<T>>(
    ops: A,
    first: Seq<u32>,
    second: Seq<u32>,
    active_q: Seq<bool>,
    active_r: Seq<bool>,
    weights: Option<Seq<T>>,
    table: CrossTab<T>,
)
    requires
        crate::domain::cross_tab::is_tabulation(
            ops,
            first,
            second,
            active_q,
            active_r,
            weights,
            table,
        ),
    ensures
        table.diag_q@.len() == crate::domain::cross_tab::rank(active_q, active_q.len() as int),
        table.diag_r@.len() == crate::domain::cross_tab::rank(active_r, active_r.len() as int),
{
}

} // verus!
