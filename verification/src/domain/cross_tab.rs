//! Cross-tabulation of factor pairs.
//!
//! Each factor pair `(q, r)` has a bipartite cross-tabulation whose entry
//! `(i, j)` sums the weights of the observations at level `i` of `q` and level
//! `j` of `r`. Levels that no observation has are left out.

use vstd::prelude::*;

use crate::arithmetic::Arithmetic;
use crate::domain::design::Design;
use crate::elimination::{sort_and_dedup, sort_unstable_by_columns, CrossTab, CsrBlock, Edge};
use crate::kernels::{filled, scatter_sequential};

verus! {

// ---------------------------------------------------------------------------
// Active levels
// ---------------------------------------------------------------------------

/// `active[level]` says whether `level` occurs in `column`.
pub open spec fn marks_active(column: Seq<u32>, active: Seq<bool>) -> bool {
    forall|level: int|
        0 <= level < active.len() ==> #[trigger] active[level] == exists|i: int|
            0 <= i < column.len() && #[trigger] column[i] == level
}

/// Which levels of each factor occur.
pub fn find_all_active_levels(design: &Design<'_>) -> (all_active: Vec<Vec<bool>>)
    requires
        design.wf(),
    ensures
        all_active@.len() == design.terms@.len(),
        forall|q: int|
            0 <= q < all_active@.len() ==> (#[trigger] all_active@[q])@.len()
                == design.terms@[q].n_levels && marks_active(
                design.frame.levels()[q],
                all_active@[q]@,
            ),
{
    let n_terms: usize = design.terms.len();
    let mut all_active: Vec<Vec<bool>> = Vec::with_capacity(n_terms);
    let mut q: usize = 0;
    while q < n_terms
        invariant
            q <= n_terms == design.terms@.len(),
            design.wf(),
            all_active@.len() == q,
            forall|s: int|
                0 <= s < q ==> (#[trigger] all_active@[s])@.len() == design.terms@[s].n_levels
                    && marks_active(design.frame.levels()[s], all_active@[s]@),
        decreases n_terms - q,
    {
        let column: &[u32] = design.frame.level_column(q);
        let n_levels: usize = design.terms[q].n_levels;
        proof {
            assert forall|i: int| 0 <= i < column@.len() implies #[trigger] column@[i]
                < n_levels by {
                assert(design.frame.levels()[q as int][i] < n_levels);
            }
        }
        all_active.push(mark_active(column, n_levels));
        q = q + 1;
    }
    all_active
}

/// Which levels of one factor occur.
fn mark_active(column: &[u32], n_levels: usize) -> (active: Vec<bool>)
    requires
        forall|i: int| 0 <= i < column@.len() ==> #[trigger] column@[i] < n_levels,
    ensures
        active@.len() == n_levels,
        marks_active(column@, active@),
{
    let mut active: Vec<bool> = filled(n_levels, false);
    let n: usize = column.len();
    let mut i: usize = 0;
    while i < n
        invariant
            i <= n == column@.len(),
            active@.len() == n_levels,
            forall|i: int| 0 <= i < column@.len() ==> #[trigger] column@[i] < n_levels,
            forall|level: int|
                0 <= level < n_levels ==> #[trigger] active@[level] == exists|j: int|
                    0 <= j < i && #[trigger] column@[j] == level,
        decreases n - i,
    {
        let ghost before = active@;
        let level: usize = column[i] as usize;
        active.set(level, true);
        proof {
            assert forall|l: int| 0 <= l < n_levels implies #[trigger] active@[l] == exists|j: int|
                0 <= j < i + 1 && #[trigger] column@[j] == l by {
                if l == level {
                    assert(column@[i as int] == l);
                } else if before[l] {
                    let j = choose|j: int| 0 <= j < i && #[trigger] column@[j] == l;
                    assert(column@[j] == l);
                }
            }
        }
        i = i + 1;
    }
    active
}

/// Number of active levels below `level`: the compact index of `level`.
pub open spec fn rank(active: Seq<bool>, level: int) -> nat
    decreases level,
{
    if level <= 0 {
        0
    } else {
        rank(active, level - 1) + if active[level - 1] {
            1nat
        } else {
            0nat
        }
    }
}

pub proof fn lemma_rank_monotone(active: Seq<bool>, a: int, b: int)
    requires
        0 <= a <= b,
    ensures
        rank(active, a) <= rank(active, b) <= rank(active, a) + (b - a),
    decreases b - a,
{
    if a < b {
        lemma_rank_monotone(active, a, b - 1);
    }
}

/// Compact numbering of the active levels.
pub struct CompactLevels {
    /// Compact index of each active level.
    pub index_of: Vec<u32>,
    /// Level of each compact index, ascending.
    pub level_of: Vec<u32>,
}

impl CompactLevels {
    /// The numbering counts the active levels upwards.
    pub open spec fn numbers(self, active: Seq<bool>) -> bool {
        &&& self.index_of@.len() == active.len()
        &&& self.level_of@.len() == rank(active, active.len() as int)
        &&& forall|level: int|
            0 <= level < active.len() && active[level] ==> {
                &&& #[trigger] self.index_of@[level] == rank(active, level)
                &&& self.index_of@[level] < self.level_of@.len()
                &&& self.level_of@[self.index_of@[level] as int] == level
            }
        &&& forall|k: int|
            0 <= k < self.level_of@.len() ==> {
                &&& #[trigger] self.level_of@[k] < active.len()
                &&& active[self.level_of@[k] as int]
                &&& rank(active, self.level_of@[k] as int) == k
            }
    }
}

/// Number the active levels.
pub fn compact_levels(active: &Vec<bool>) -> (compact: CompactLevels)
    requires
        active@.len() <= u32::MAX,
    ensures
        compact.numbers(active@),
{
    let n: usize = active.len();
    let mut index_of: Vec<u32> = Vec::with_capacity(n);
    let mut level_of: Vec<u32> = Vec::new();
    let mut level: usize = 0;
    while level < n
        invariant
            level <= n == active@.len(),
            n <= u32::MAX,
            index_of@.len() == level,
            level_of@.len() == rank(active@, level as int),
            level_of@.len() <= level,
            forall|l: int|
                0 <= l < level && active@[l] ==> {
                    &&& #[trigger] index_of@[l] == rank(active@, l)
                    &&& index_of@[l] < level_of@.len()
                    &&& level_of@[index_of@[l] as int] == l
                },
            forall|k: int|
                0 <= k < level_of@.len() ==> {
                    &&& #[trigger] level_of@[k] < level
                    &&& active@[level_of@[k] as int]
                    &&& rank(active@, level_of@[k] as int) == k
                },
        decreases n - level,
    {
        index_of.push(level_of.len() as u32);
        if active[level] {
            level_of.push(level as u32);
        }
        level = level + 1;
    }
    CompactLevels { index_of, level_of }
}

// ---------------------------------------------------------------------------
// Compressed rows
// ---------------------------------------------------------------------------

/// Number of edges whose first column is below `k`.
pub open spec fn edges_below<T>(edges: Seq<Edge<T>>, k: int) -> nat
    decreases edges.len(),
{
    if edges.len() == 0 {
        0
    } else {
        edges_below(edges.drop_last(), k) + if edges.last().0 < k {
            1nat
        } else {
            0nat
        }
    }
}

/// The block's rows hold the edges by their first column, in order.
pub open spec fn is_block_of<T>(edges: Seq<Edge<T>>, n_rows: nat, block: CsrBlock<T>) -> bool {
    &&& block.wf(n_rows)
    &&& block.indices@.len() == edges.len()
    &&& forall|e: int| 0 <= e < edges.len() ==> #[trigger] block.indices@[e] == edges[e].1
    &&& forall|e: int| 0 <= e < edges.len() ==> #[trigger] block.data@[e] == edges[e].2
    &&& forall|k: int| 0 <= k <= n_rows ==> #[trigger] block.indptr@[k] == edges_below(edges, k)
    &&& forall|k: int, e: int|
        #![trigger block.indptr@[k], edges[e]]
        0 <= k < n_rows && 0 <= e < edges.len() ==> (block.indptr@[k] <= e < block.indptr@[k + 1]
            <==> edges[e].0 == k)
}

proof fn lemma_edges_below_bound<T>(edges: Seq<Edge<T>>, k: int)
    ensures
        edges_below(edges, k) <= edges.len(),
    decreases edges.len(),
{
    if edges.len() > 0 {
        lemma_edges_below_bound(edges.drop_last(), k);
    }
}

/// In a list sorted by first column, the edges below `k` come first.
proof fn lemma_edges_below_prefix<T>(edges: Seq<Edge<T>>, k: int, e: int)
    requires
        forall|i: int, j: int|
            #![trigger edges[i], edges[j]]
            0 <= i < j < edges.len() ==> edges[i].0 <= edges[j].0,
        0 <= e < edges.len(),
    ensures
        e < edges_below(edges, k) <==> edges[e].0 < k,
    decreases edges.len(),
{
    let front = edges.drop_last();
    let last = edges.len() - 1;
    lemma_edges_below_bound(front, k);
    assert forall|i: int, j: int|
        #![trigger front[i], front[j]]
        0 <= i < j < front.len() implies front[i].0 <= front[j].0 by {
        assert(edges[i].0 <= edges[j].0);
    }
    if e < last {
        lemma_edges_below_prefix(front, k, e);
        if edges.last().0 < k {
            assert(edges[e].0 <= edges[last].0);
            // all of the front is below k, so the count is the front's length
            lemma_all_below(front, k);
        }
    } else if edges.last().0 < k {
        assert forall|i: int| 0 <= i < front.len() implies (#[trigger] front[i]).0 < k by {
            assert(edges[i].0 <= edges[last].0);
        }
        lemma_all_below(front, k);
    }
}

proof fn lemma_all_below<T>(edges: Seq<Edge<T>>, k: int)
    ensures
        (forall|i: int| 0 <= i < edges.len() ==> (#[trigger] edges[i]).0 < k) ==> edges_below(
            edges,
            k,
        ) == edges.len(),
    decreases edges.len(),
{
    if edges.len() > 0 {
        let front = edges.drop_last();
        lemma_all_below(front, k);
        if forall|i: int| 0 <= i < edges.len() ==> (#[trigger] edges[i]).0 < k {
            assert forall|i: int| 0 <= i < front.len() implies (#[trigger] front[i]).0 < k by {
                assert(edges[i].0 < k);
            }
            assert(edges[edges.len() - 1].0 < k);
        }
    }
}

/// Compress edges that are sorted by their first column.
pub fn csr_from_edges<T: Copy>(edges: &Vec<Edge<T>>, n_rows: usize) -> (block: CsrBlock<T>)
    requires
        forall|i: int, j: int|
            #![trigger edges@[i], edges@[j]]
            0 <= i < j < edges@.len() ==> edges@[i].0 <= edges@[j].0,
        forall|e: int| 0 <= e < edges@.len() ==> (#[trigger] edges@[e]).0 < n_rows,
    ensures
        is_block_of(edges@, n_rows as nat, block),
{
    let n: usize = edges.len();
    let mut indices: Vec<u32> = Vec::with_capacity(n);
    let mut data: Vec<T> = Vec::with_capacity(n);
    let mut e: usize = 0;
    while e < n
        invariant
            e <= n == edges@.len(),
            indices@.len() == e,
            data@.len() == e,
            forall|i: int| 0 <= i < e ==> #[trigger] indices@[i] == edges@[i].1,
            forall|i: int| 0 <= i < e ==> #[trigger] data@[i] == edges@[i].2,
        decreases n - e,
    {
        indices.push(edges[e].1);
        data.push(edges[e].2);
        e = e + 1;
    }
    let mut indptr: Vec<usize> = Vec::new();
    let mut end: usize = 0;
    let mut k: usize = 0;
    proof {
        assert forall|i: int| 0 <= i < edges@.len() implies (i < edges_below(edges@, 0) <==> (
        #[trigger] edges@[i]).0 < 0) by {
            lemma_edges_below_prefix(edges@, 0, i);
        }
        if edges@.len() > 0 {
            lemma_edges_below_prefix(edges@, 0, 0);
        }
        lemma_edges_below_bound(edges@, 0);
        assert(edges_below(edges@, 0) == 0);
    }
    indptr.push(0);
    while k < n_rows
        invariant
            k <= n_rows,
            n == edges@.len(),
            forall|i: int, j: int|
                #![trigger edges@[i], edges@[j]]
                0 <= i < j < edges@.len() ==> edges@[i].0 <= edges@[j].0,
            end <= n,
            end == edges_below(edges@, k as int),
            indptr@.len() == k + 1,
            forall|l: int| 0 <= l <= k ==> #[trigger] indptr@[l] == edges_below(edges@, l),
        decreases n_rows - k,
    {
        while end < n && edges[end].0 as usize == k
            invariant
                k < n_rows,
                n == edges@.len(),
                edges_below(edges@, k as int) <= end <= n,
                forall|i: int|
                    edges_below(edges@, k as int) <= i < end ==> (#[trigger] edges@[i]).0 == k,
            decreases n - end,
        {
            end = end + 1;
        }
        proof {
            lemma_edges_below_bound(edges@, k + 1);
            if end < n {
                lemma_edges_below_prefix(edges@, k as int, end as int);
                lemma_edges_below_prefix(edges@, k + 1, end as int);
            }
            if end > 0 {
                lemma_edges_below_prefix(edges@, k as int, end - 1);
                lemma_edges_below_prefix(edges@, k + 1, end - 1);
                if end - 1 >= edges_below(edges@, k as int) {
                    assert(edges@[end - 1].0 == k);
                }
            }
            assert(end == edges_below(edges@, k + 1));
        }
        indptr.push(end);
        k = k + 1;
    }
    let block = CsrBlock { indptr, indices, data };
    proof {
        assert forall|k: int, e: int|
            #![trigger block.indptr@[k], edges@[e]]
            0 <= k < n_rows && 0 <= e < edges@.len() implies (block.indptr@[k] <= e
            < block.indptr@[k + 1] <==> edges@[e].0 == k) by {
            lemma_edges_below_prefix(edges@, k, e);
            lemma_edges_below_prefix(edges@, k + 1, e);
            assert(block.indptr@[k + 1] == edges_below(edges@, k + 1));
        }
        assert forall|k: int| 0 <= k < n_rows implies #[trigger] block.indptr@[k]
            <= block.indptr@[k + 1] by {
            assert(block.indptr@[k + 1] == edges_below(edges@, k + 1));
            lemma_edges_below_step(edges@, k);
        }
        assert forall|k: int| 0 <= k <= n_rows implies #[trigger] block.indptr@[k]
            <= block.indices@.len() by {
            lemma_edges_below_bound(edges@, k);
        }
    }
    block
}

proof fn lemma_edges_below_step<T>(edges: Seq<Edge<T>>, k: int)
    ensures
        edges_below(edges, k) <= edges_below(edges, k + 1),
    decreases edges.len(),
{
    if edges.len() > 0 {
        lemma_edges_below_step(edges.drop_last(), k);
    }
}

// ---------------------------------------------------------------------------
// Tabulation
// ---------------------------------------------------------------------------

/// Row `k` of the block has an entry in column `column`.
pub open spec fn has_entry<T>(block: CsrBlock<T>, k: int, column: int) -> bool {
    exists|e: int|
        block.indptr@[k] <= e < block.indptr@[k + 1] && #[trigger] block.indices@[e] == column
}

/// The edges with their columns exchanged.
pub open spec fn swapped<T>(edges: Seq<Edge<T>>) -> Seq<Edge<T>> {
    edges.map_values(|edge: Edge<T>| (edge.1, edge.0, edge.2))
}

/// The table's two orientations hold `edges`, the second with columns exchanged.
pub open spec fn holds_edges<T>(edges: Seq<Edge<T>>, table: CrossTab<T>) -> bool {
    &&& table.wf()
    &&& crate::elimination::is_strictly_keyed(edges)
    &&& is_block_of(edges, table.diag_q@.len(), table.c)
    &&& exists|turned: Seq<Edge<T>>| #[trigger]
        is_block_of(turned, table.diag_r@.len(), table.ct)
            && crate::elimination::is_strictly_keyed(turned) && turned.to_multiset() == swapped(
            edges,
        ).to_multiset()
    &&& forall|e: int|
        0 <= e < edges.len() ==> (#[trigger] edges[e]).0 < table.diag_q@.len() && edges[e].1
            < table.diag_r@.len()
}

/// The table holds some edges.
pub open spec fn is_cross_tab<T>(table: CrossTab<T>) -> bool {
    exists|edges: Seq<Edge<T>>| #[trigger] holds_edges(edges, table)
}

/// A table whose two orientations agree on which entries there are.
pub open spec fn is_symmetric<T>(table: CrossTab<T>) -> bool {
    forall|i: int, j: int|
        0 <= i < table.diag_q@.len() && 0 <= j < table.diag_r@.len() ==> (#[trigger] has_entry(
            table.c,
            i,
            j,
        ) <==> has_entry(table.ct, j, i))
}

/// Every entry names a row of the other orientation.
pub open spec fn columns_in_range<T>(table: CrossTab<T>) -> bool {
    &&& forall|e: int|
        0 <= e < table.c.indices@.len() ==> #[trigger] table.c.indices@[e] < table.diag_r@.len()
    &&& forall|e: int|
        0 <= e < table.ct.indices@.len() ==> #[trigger] table.ct.indices@[e] < table.diag_q@.len()
}

pub proof fn lemma_block_entry<T>(edges: Seq<Edge<T>>, n_rows: nat, block: CsrBlock<T>, k: int, j: int)
    requires
        is_block_of(edges, n_rows, block),
        0 <= k < n_rows,
    ensures
        has_entry(block, k, j) <==> exists|e: int|
            0 <= e < edges.len() && (#[trigger] edges[e]).0 == k && edges[e].1 == j,
{
    if has_entry(block, k, j) {
        let e = choose|e: int|
            block.indptr@[k] <= e < block.indptr@[k + 1] && #[trigger] block.indices@[e] == j;
        assert(block.indptr@[k + 1] <= block.indices@.len());
        assert(edges[e].0 == k);
        assert(block.indices@[e] == edges[e].1);
    }
    if exists|e: int| 0 <= e < edges.len() && (#[trigger] edges[e]).0 == k && edges[e].1 == j {
        let e = choose|e: int|
            0 <= e < edges.len() && (#[trigger] edges[e]).0 == k && edges[e].1 == j;
        assert(block.indptr@[k] <= e < block.indptr@[k + 1]);
        assert(block.indices@[e] == j);
    }
}

pub proof fn lemma_same_members<T>(a: Seq<Edge<T>>, b: Seq<Edge<T>>, i: int) -> (j: int)
    requires
        a.to_multiset() == b.to_multiset(),
        0 <= i < a.len(),
    ensures
        0 <= j < b.len(),
        b[j] == a[i],
{
    broadcast use vstd::seq_lib::group_to_multiset_ensures;

    assert(a.contains(a[i]));
    assert(b.to_multiset().count(a[i]) > 0);
    assert(b.contains(a[i]));
    choose|j: int| 0 <= j < b.len() && b[j] == a[i]
}

/// Both orientations of a table have the same entries.
pub proof fn law_table_is_symmetric<T>(edges: Seq<Edge<T>>, table: CrossTab<T>)
    requires
        holds_edges(edges, table),
    ensures
        is_symmetric(table),
        columns_in_range(table),
{
    let turned = choose|turned: Seq<Edge<T>>| #[trigger]
        is_block_of(turned, table.diag_r@.len(), table.ct)
            && crate::elimination::is_strictly_keyed(turned) && turned.to_multiset() == swapped(
            edges,
        ).to_multiset();
    let n_q = table.diag_q@.len();
    let n_r = table.diag_r@.len();
    assert forall|i: int, j: int| 0 <= i < n_q && 0 <= j < n_r implies (#[trigger] has_entry(
        table.c,
        i,
        j,
    ) <==> has_entry(table.ct, j, i)) by {
        lemma_block_entry(edges, n_q, table.c, i, j);
        lemma_block_entry(turned, n_r, table.ct, j, i);
        if has_entry(table.c, i, j) {
            let e = choose|e: int|
                0 <= e < edges.len() && (#[trigger] edges[e]).0 == i && edges[e].1 == j;
            let f = lemma_same_members(swapped(edges), turned, e);
            assert(turned[f].0 == j && turned[f].1 == i);
        }
        if has_entry(table.ct, j, i) {
            let f = choose|f: int|
                0 <= f < turned.len() && (#[trigger] turned[f]).0 == j && turned[f].1 == i;
            let e = lemma_same_members(turned, swapped(edges), f);
            assert(edges[e].0 == i && edges[e].1 == j);
        }
    }
    assert forall|e: int| 0 <= e < table.c.indices@.len() implies #[trigger] table.c.indices@[e]
        < n_r by {
        assert(table.c.indices@[e] == edges[e].1);
    }
    assert forall|f: int| 0 <= f < table.ct.indices@.len() implies #[trigger] table.ct.indices@[f]
        < n_q by {
        assert(table.ct.indices@[f] == turned[f].1);
        let e = lemma_same_members(turned, swapped(edges), f);
        assert(edges[e].0 < n_q);
    }
}

proof fn lemma_edges_below_none<T>(edges: Seq<Edge<T>>)
    ensures
        edges_below(edges, 0) == 0,
    decreases edges.len(),
{
    if edges.len() > 0 {
        lemma_edges_below_none(edges.drop_last());
    }
}

proof fn lemma_edges_below_all<T>(edges: Seq<Edge<T>>, n_rows: int)
    requires
        forall|e: int| 0 <= e < edges.len() ==> (#[trigger] edges[e]).0 < n_rows,
    ensures
        edges_below(edges, n_rows) == edges.len(),
    decreases edges.len(),
{
    if edges.len() > 0 {
        assert(edges[edges.len() - 1].0 < n_rows);
        assert forall|e: int| 0 <= e < edges.drop_last().len() implies (
        #[trigger] edges.drop_last()[e]).0 < n_rows by {
            assert(edges[e].0 < n_rows);
        }
        lemma_edges_below_all(edges.drop_last(), n_rows);
    }
}

/// The rows of both orientations span all entries.
pub proof fn lemma_bounds_span<T>(edges: Seq<Edge<T>>, table: CrossTab<T>)
    requires
        holds_edges(edges, table),
    ensures
        table.c.indptr@[0] == 0,
        table.c.indptr@.last() == table.c.indices@.len(),
        table.ct.indptr@[0] == 0,
        table.ct.indptr@.last() == table.ct.indices@.len(),
{
    let turned = choose|turned: Seq<Edge<T>>| #[trigger]
        is_block_of(turned, table.diag_r@.len(), table.ct)
            && crate::elimination::is_strictly_keyed(turned) && turned.to_multiset() == swapped(
            edges,
        ).to_multiset();
    lemma_edges_below_none(edges);
    lemma_edges_below_none(turned);
    lemma_edges_below_all(edges, table.diag_q@.len() as int);
    assert forall|f: int| 0 <= f < turned.len() implies (#[trigger] turned[f]).0
        < table.diag_r@.len() by {
        let e = lemma_same_members(turned, swapped(edges), f);
        assert(edges[e].1 < table.diag_r@.len());
    }
    lemma_edges_below_all(turned, table.diag_r@.len() as int);
    assert(table.c.indptr@[0] == edges_below(edges, 0));
    assert(table.c.indptr@[table.diag_q@.len() as int] == edges_below(
        edges,
        table.diag_q@.len() as int,
    ));
    assert(table.ct.indptr@[0] == edges_below(turned, 0));
    assert(table.ct.indptr@[table.diag_r@.len() as int] == edges_below(
        turned,
        table.diag_r@.len() as int,
    ));
}

/// Put strictly keyed edges and the two diagonals into a table.
fn table_from_edges<T: Copy>(edges: Vec<Edge<T>>, diag_q: Vec<T>, diag_r: Vec<T>) -> (table:
    CrossTab<T>)
    requires
        crate::elimination::is_strictly_keyed(edges@),
        forall|e: int|
            0 <= e < edges@.len() ==> (#[trigger] edges@[e]).0 < diag_q@.len() && edges@[e].1
                < diag_r@.len(),
    ensures
        holds_edges(edges@, table),
        table.diag_q == diag_q,
        table.diag_r == diag_r,
{
    broadcast use vstd::seq_lib::group_to_multiset_ensures;

    let n: usize = edges.len();
    let mut turned: Vec<Edge<T>> = Vec::with_capacity(n);
    let mut e: usize = 0;
    while e < n
        invariant
            e <= n == edges@.len(),
            turned@ == swapped(edges@).take(e as int),
        decreases n - e,
    {
        turned.push((edges[e].1, edges[e].0, edges[e].2));
        e = e + 1;
        assert(turned@ =~= swapped(edges@).take(e as int));
    }
    assert(swapped(edges@).take(n as int) =~= swapped(edges@));
    sort_unstable_by_columns(&mut turned);
    proof {
        assert(turned@.to_multiset().len() == swapped(edges@).to_multiset().len());
        lemma_turned_is_strict(edges@, turned@);
        assert forall|f: int| 0 <= f < turned@.len() implies (#[trigger] turned@[f]).0
            < diag_r@.len() by {
            let e = lemma_same_members(turned@, swapped(edges@), f);
            assert(edges@[e].1 < diag_r@.len());
        }
    }
    let c = csr_from_edges(&edges, diag_q.len());
    let ct = csr_from_edges(&turned, diag_r.len());
    let table = CrossTab { c, ct, diag_q, diag_r };
    proof {
        assert(is_block_of(turned@, table.diag_r@.len(), table.ct));
    }
    table
}

/// Sorted edges with exchanged columns are strictly keyed if the edges were.
proof fn lemma_turned_is_strict<T>(edges: Seq<Edge<T>>, turned: Seq<Edge<T>>)
    requires
        crate::elimination::is_strictly_keyed(edges),
        turned.to_multiset() == swapped(edges).to_multiset(),
        turned.len() == edges.len(),
        forall|i: int, j: int|
            #![trigger turned[i], turned[j]]
            0 <= i < j < turned.len() ==> !crate::elimination::key_less(
                crate::elimination::edge_key(turned[j]),
                crate::elimination::edge_key(turned[i]),
            ),
    ensures
        crate::elimination::is_strictly_keyed(turned),
{
    lemma_distinct_keys_swapped(edges);
    lemma_distinct_keys_permuted(swapped(edges), turned);
    assert forall|i: int, j: int|
        #![trigger turned[i], turned[j]]
        0 <= i < j < turned.len() implies crate::elimination::key_less(
        crate::elimination::edge_key(turned[i]),
        crate::elimination::edge_key(turned[j]),
    ) by {
        assert(crate::elimination::edge_key(turned[i]) != crate::elimination::edge_key(turned[j]));
    }
}

/// No two edges have the same key.
spec fn keys_distinct<T>(edges: Seq<Edge<T>>) -> bool {
    forall|i: int, j: int|
        #![trigger edges[i], edges[j]]
        0 <= i < j < edges.len() ==> crate::elimination::edge_key(edges[i])
            != crate::elimination::edge_key(edges[j])
}

proof fn lemma_distinct_keys_swapped<T>(edges: Seq<Edge<T>>)
    requires
        crate::elimination::is_strictly_keyed(edges),
    ensures
        keys_distinct(swapped(edges)),
{
    let turned = swapped(edges);
    assert forall|i: int, j: int|
        #![trigger turned[i], turned[j]]
        0 <= i < j < turned.len() implies crate::elimination::edge_key(turned[i])
        != crate::elimination::edge_key(turned[j]) by {
        assert(crate::elimination::key_less(
            crate::elimination::edge_key(edges[i]),
            crate::elimination::edge_key(edges[j]),
        ));
    }
}

/// A rearrangement of edges with distinct keys has distinct keys.
proof fn lemma_distinct_keys_permuted<T>(a: Seq<Edge<T>>, b: Seq<Edge<T>>)
    requires
        keys_distinct(a),
        a.to_multiset() == b.to_multiset(),
    ensures
        keys_distinct(b),
{
    broadcast use vstd::seq_lib::group_to_multiset_ensures;
    broadcast use vstd::multiset::group_multiset_axioms;

    assert forall|i: int, j: int|
        #![trigger b[i], b[j]]
        0 <= i < j < b.len() implies crate::elimination::edge_key(b[i])
        != crate::elimination::edge_key(b[j]) by {
        if crate::elimination::edge_key(b[i]) == crate::elimination::edge_key(b[j]) {
            let p = lemma_same_members(b, a, i);
            let q = lemma_same_members(b, a, j);
            // equal keys at p and q force p == q, so b[i] occurs twice in b and once in a
            if p < q {
                assert(crate::elimination::edge_key(a[p]) != crate::elimination::edge_key(a[q]));
            } else if q < p {
                assert(crate::elimination::edge_key(a[q]) != crate::elimination::edge_key(a[p]));
            }
            let x = b[i];
            assert(b[j] == x && a[p] == x);
            assert(b.contains(x));
            assert(b.remove(j).to_multiset() == b.to_multiset().remove(b[j]));
            assert(b.remove(j)[i] == x);
            assert(b.remove(j).contains(x));
            assert(b.to_multiset().remove(x).count(x) == b.to_multiset().count(x) - 1);
            assert(a.remove(p).to_multiset() == a.to_multiset().remove(a[p]));
            assert(a.to_multiset().remove(x).count(x) == a.to_multiset().count(x) - 1);
            assert(a.remove(p).contains(x));
            let r = choose|r: int| 0 <= r < a.remove(p).len() && a.remove(p)[r] == x;
            if r < p {
                assert(a[r] == x);
                assert(crate::elimination::edge_key(a[r]) != crate::elimination::edge_key(a[p]));
            } else {
                assert(a[r + 1] == x);
                assert(crate::elimination::edge_key(a[p]) != crate::elimination::edge_key(
                    a[r + 1],
                ));
            }
        }
    }
}

/// `w` is one weight per row: the given ones, or one each.
pub open spec fn are_row_weights<T, A: Arithmetic<T>>(
    ops: A,
    weights: Option<Seq<T>>,
    n_obs: nat,
    w: Seq<T>,
) -> bool {
    &&& w.len() == n_obs
    &&& match weights {
        Some(given) => w == given,
        None => forall|i: int| 0 <= i < n_obs ==> crate::arithmetic::one_gives(ops, #[trigger] w[i]),
    }
}

/// One edge per observation, between the compact indices of its two levels.
pub open spec fn row_edges<T>(
    first: Seq<u32>,
    second: Seq<u32>,
    active_q: Seq<bool>,
    active_r: Seq<bool>,
    w: Seq<T>,
) -> Seq<Edge<T>> {
    Seq::new(
        first.len(),
        |i: int|
            (
                rank(active_q, first[i] as int) as u32,
                rank(active_r, second[i] as int) as u32,
                w[i],
            ),
    )
}

/// The compact indices of the rows' levels.
pub open spec fn compact_codes(column: Seq<u32>, active: Seq<bool>) -> Seq<u32> {
    Seq::new(column.len(), |i: int| rank(active, column[i] as int) as u32)
}

/// `diagonal` collects the rows' weights by compact index, in row order from zero.
pub open spec fn is_diagonal<T, A: Arithmetic<T>>(
    ops: A,
    column: Seq<u32>,
    active: Seq<bool>,
    w: Seq<T>,
    diagonal: Seq<T>,
) -> bool {
    exists|zeros: Seq<T>|
        {
            &&& #[trigger] crate::kernels::is_zeros(
                ops,
                rank(active, active.len() as int),
                zeros,
            )
            &&& diagonal.len() == zeros.len()
            &&& crate::kernels::is_sequential_scatter(
                ops,
                compact_codes(column, active),
                w,
                0,
                zeros.len() as int,
                zeros,
                diagonal,
            )
        }
}

/// `table` tabulates the pair: its entries merge one edge per observation.
pub open spec fn is_tabulation<T, A: Arithmetic<T>>(
    ops: A,
    first: Seq<u32>,
    second: Seq<u32>,
    active_q: Seq<bool>,
    active_r: Seq<bool>,
    weights: Option<Seq<T>>,
    table: CrossTab<T>,
) -> bool {
    exists|w: Seq<T>, edges: Seq<Edge<T>>|
        {
            &&& #[trigger] are_row_weights(ops, weights, first.len(), w)
            &&& #[trigger] holds_edges(edges, table)
            &&& crate::elimination::is_merge_of(
                ops,
                row_edges(first, second, active_q, active_r, w),
                edges,
            )
            &&& is_diagonal(ops, first, active_q, w, table.diag_q@)
            &&& is_diagonal(ops, second, active_r, w, table.diag_r@)
        }
}

/// The global unknowns of the active levels, the first factor's before the second's.
pub open spec fn global_levels(
    design: Design<'_>,
    q: int,
    r: int,
    level_of_q: Seq<u32>,
    level_of_r: Seq<u32>,
) -> Seq<u32> {
    Seq::new(
        level_of_q.len(),
        |k: int| (design.terms@[q].offset + level_of_q[k]) as u32,
    ) + Seq::new(level_of_r.len(), |k: int| (design.terms@[r].offset + level_of_r[k]) as u32)
}

/// `l2g` lists the active levels of both factors, ascending, as global unknowns.
pub open spec fn is_local_to_global(
    design: Design<'_>,
    q: int,
    r: int,
    active_q: Seq<bool>,
    active_r: Seq<bool>,
    l2g: Seq<u32>,
) -> bool {
    exists|first: CompactLevels, second: CompactLevels|
        {
            &&& #[trigger] first.numbers(active_q)
            &&& #[trigger] second.numbers(active_r)
            &&& l2g == global_levels(design, q, r, first.level_of@, second.level_of@)
        }
}

/// Weights of the rows, with one standing in for missing weights.
pub(crate) fn row_weights<T: Copy, A: Arithmetic<T>>(weights: Option<&[T]>, n_obs: usize, ops: &A) -> (w: Vec<
    T,
>)
    requires
        weights matches Some(given) ==> given@.len() == n_obs,
    ensures
        are_row_weights(
            *ops,
            match weights {
                None => None,
                Some(given) => Some(given@),
            },
            n_obs as nat,
            w@,
        ),
{
    match weights {
        None => filled(n_obs, ops.one()),
        Some(given) => {
            let mut w: Vec<T> = Vec::with_capacity(n_obs);
            for i in 0..n_obs
                invariant
                    given@.len() == n_obs,
                    w@ == given@.take(i as int),
            {
                w.push(given[i]);
                assert(w@ =~= given@.take(i + 1));
            }
            assert(given@.take(n_obs as int) =~= given@);
            w
        },
    }
}

/// Compact index of each row's level.
fn row_codes(column: &[u32], compact: &CompactLevels, Ghost(active): Ghost<Seq<bool>>) -> (codes:
    Vec<u32>)
    requires
        compact.numbers(active),
        marks_active(column@, active),
        forall|i: int| 0 <= i < column@.len() ==> #[trigger] column@[i] < active.len(),
    ensures
        codes@ == compact_codes(column@, active),
        forall|i: int|
            0 <= i < codes@.len() ==> #[trigger] codes@[i] < rank(active, active.len() as int),
{
    let n: usize = column.len();
    let mut codes: Vec<u32> = Vec::with_capacity(n);
    let mut i: usize = 0;
    while i < n
        invariant
            i <= n == column@.len(),
            compact.numbers(active),
            marks_active(column@, active),
            forall|i: int| 0 <= i < column@.len() ==> #[trigger] column@[i] < active.len(),
            codes@ == compact_codes(column@, active).take(i as int),
            forall|j: int|
                0 <= j < codes@.len() ==> #[trigger] codes@[j] < rank(active, active.len() as int),
        decreases n - i,
    {
        let level: usize = column[i] as usize;
        assert(active[level as int]) by {
            assert(column@[i as int] == level);
        }
        assert(compact.index_of@[level as int] == rank(active, level as int));
        codes.push(compact.index_of[level]);
        i = i + 1;
        assert(codes@ =~= compact_codes(column@, active).take(i as int));
    }
    assert(compact_codes(column@, active).take(n as int) =~= compact_codes(column@, active));
    codes
}

/// Sum the weights by compact index.
fn diagonal_of<T: Copy, A: Arithmetic<T>>(
    codes: &Vec<u32>,
    w: &Vec<T>,
    n_levels: usize,
    ops: &A,
    Ghost(column): Ghost<Seq<u32>>,
    Ghost(active): Ghost<Seq<bool>>,
) -> (diagonal: Vec<T>)
    requires
        codes@ == compact_codes(column, active),
        codes@.len() == w@.len(),
        n_levels == rank(active, active.len() as int),
        forall|i: int| 0 <= i < codes@.len() ==> #[trigger] codes@[i] < n_levels,
    ensures
        is_diagonal(*ops, column, active, w@, diagonal@),
        diagonal@.len() == n_levels,
{
    let mut diagonal: Vec<T> = filled(n_levels, ops.zero());
    let ghost zeros = diagonal@;
    assert(crate::kernels::is_zeros(*ops, n_levels as nat, zeros));
    scatter_sequential(
        diagonal.as_mut_slice(),
        0,
        n_levels,
        codes.as_slice(),
        w.as_slice(),
        ops,
    );
    diagonal
}

/// Number a factor's levels and its global unknowns.
fn push_globals(
    l2g: &mut Vec<u32>,
    compact: &CompactLevels,
    offset: usize,
    n_levels: usize,
    Ghost(active): Ghost<Seq<bool>>,
)
    requires
        compact.numbers(active),
        active.len() == n_levels,
        offset + n_levels <= u32::MAX,
    ensures
        final(l2g)@ == old(l2g)@ + Seq::new(
            compact.level_of@.len(),
            |k: int| (offset + compact.level_of@[k]) as u32,
        ),
{
    let ghost before = l2g@;
    let ghost added = Seq::new(
        compact.level_of@.len(),
        |k: int| (offset + compact.level_of@[k]) as u32,
    );
    let n: usize = compact.level_of.len();
    let mut k: usize = 0;
    while k < n
        invariant
            k <= n == compact.level_of@.len() == added.len(),
            compact.numbers(active),
            active.len() == n_levels,
            offset + n_levels <= u32::MAX,
            forall|k: int|
                0 <= k < added.len() ==> #[trigger] added[k] == (offset + compact.level_of@[k]) as u32,
            l2g@ == before + added.take(k as int),
        decreases n - k,
    {
        assert(compact.level_of@[k as int] < active.len());
        assert(added[k as int] == (offset + compact.level_of@[k as int]) as u32);
        let global: u32 = (offset + compact.level_of[k] as usize) as u32;
        l2g.push(global);
        k = k + 1;
        assert(l2g@ =~= before + added.take(k as int));
    }
    assert(added.take(n as int) =~= added);
}

/// Tabulate one factor pair in a single scan over the observations.
///
/// Also lists the global unknowns of the levels, the first factor's before the
/// second's. `None` if no level occurs.
pub fn build_for_pair_with_active<T: Copy, A: Arithmetic<T>>(
    design: &Design<'_>,
    weights: Option<&[T]>,
    q: usize,
    r: usize,
    all_active: &Vec<Vec<bool>>,
    ops: &A,
) -> (result: Option<(CrossTab<T>, Vec<u32>)>)
    requires
        design.wf(),
        design.is_plain(),
        q < design.terms@.len(),
        r < design.terms@.len(),
        weights matches Some(given) ==> given@.len() == design.n_obs,
        all_active@.len() == design.terms@.len(),
        forall|t: int|
            0 <= t < all_active@.len() ==> (#[trigger] all_active@[t])@.len()
                == design.terms@[t].n_levels && marks_active(
                design.frame.levels()[t],
                all_active@[t]@,
            ),
    ensures
        result matches Some((table, l2g)) && {
            let active_q = all_active@[q as int]@;
            let active_r = all_active@[r as int]@;
            &&& is_tabulation(
                *ops,
                design.frame.levels()[q as int],
                design.frame.levels()[r as int],
                active_q,
                active_r,
                match weights {
                    None => None,
                    Some(given) => Some(given@),
                },
                table,
            )
            &&& is_local_to_global(*design, q as int, r as int, active_q, active_r, l2g@)
            &&& table.diag_q@.len() == rank(active_q, active_q.len() as int)
            &&& table.diag_r@.len() == rank(active_r, active_r.len() as int)
            &&& l2g@.len() == table.diag_q@.len() + table.diag_r@.len()
        },
{
    let ghost active_q = all_active@[q as int]@;
    let ghost active_r = all_active@[r as int]@;
    let first: &[u32] = design.frame.level_column(q);
    let second: &[u32] = design.frame.level_column(r);
    proof {
        crate::operator::lemma_term_in_range(*design, q as int);
        crate::operator::lemma_term_in_range(*design, r as int);
        assert(all_active@[q as int]@.len() == design.terms@[q as int].n_levels);
        assert(all_active@[r as int]@.len() == design.terms@[r as int].n_levels);
        assert forall|i: int| 0 <= i < first@.len() implies #[trigger] first@[i]
            < active_q.len() by {
            assert(design.frame.levels()[q as int][i] < design.terms@[q as int].n_levels);
        }
        assert forall|i: int| 0 <= i < second@.len() implies #[trigger] second@[i]
            < active_r.len() by {
            assert(design.frame.levels()[r as int][i] < design.terms@[r as int].n_levels);
        }
        assert(first@.len() == design.n_obs && second@.len() == design.n_obs);
    }
    let compact_q = compact_levels(&all_active[q]);
    let compact_r = compact_levels(&all_active[r]);
    let n_q: usize = compact_q.level_of.len();
    let n_r: usize = compact_r.level_of.len();
    let codes_q: Vec<u32> = row_codes(first, &compact_q, Ghost(active_q));
    let codes_r: Vec<u32> = row_codes(second, &compact_r, Ghost(active_r));
    if n_q == 0 || n_r == 0 {
        proof {
            assert(codes_q@[0] < rank(active_q, active_q.len() as int));
            assert(codes_r@[0] < rank(active_r, active_r.len() as int));
        }
        return None;
    }
    let w: Vec<T> = row_weights(weights, design.n_obs, ops);
    let n: usize = design.n_obs;
    let mut edges: Vec<Edge<T>> = Vec::with_capacity(n);
    let ghost raw = row_edges(first@, second@, active_q, active_r, w@);
    let mut i: usize = 0;
    while i < n
        invariant
            i <= n == w@.len() == codes_q@.len() == codes_r@.len() == first@.len(),
            codes_q@ == compact_codes(first@, active_q),
            codes_r@ == compact_codes(second@, active_r),
            second@.len() == n,
            raw == row_edges(first@, second@, active_q, active_r, w@),
            edges@ == raw.take(i as int),
        decreases n - i,
    {
        edges.push((codes_q[i], codes_r[i], w[i]));
        i = i + 1;
        assert(edges@ =~= raw.take(i as int));
    }
    assert(raw.take(n as int) =~= raw);
    sort_and_dedup(&mut edges, ops);
    let diag_q: Vec<T> = diagonal_of(
        &codes_q,
        &w,
        n_q,
        ops,
        Ghost(first@),
        Ghost(active_q),
    );
    let diag_r: Vec<T> = diagonal_of(
        &codes_r,
        &w,
        n_r,
        ops,
        Ghost(second@),
        Ghost(active_r),
    );
    proof {
        assert forall|e: int| 0 <= e < edges@.len() implies (#[trigger] edges@[e]).0 < n_q
            && edges@[e].1 < n_r by {
            let key = crate::elimination::edge_key(edges@[e]);
            assert(crate::elimination::has_key(edges@, key));
            assert(crate::elimination::has_key(raw, key));
            let i = choose|i: int|
                0 <= i < raw.len() && crate::elimination::edge_key(#[trigger] raw[i]) == key;
            assert(codes_q@[i] < n_q && codes_r@[i] < n_r);
        }
    }
    let ghost merged = edges@;
    let table = table_from_edges(edges, diag_q, diag_r);
    let mut l2g: Vec<u32> = Vec::with_capacity(n_q);
    push_globals(
        &mut l2g,
        &compact_q,
        design.terms[q].offset,
        design.terms[q].n_levels,
        Ghost(active_q),
    );
    push_globals(
        &mut l2g,
        &compact_r,
        design.terms[r].offset,
        design.terms[r].n_levels,
        Ghost(active_r),
    );
    proof {
        assert(holds_edges(merged, table));
        assert(is_tabulation(
            *ops,
            first@,
            second@,
            active_q,
            active_r,
            match weights {
                None => None,
                Some(given) => Some(given@),
            },
            table,
        ));
        assert(l2g@ =~= global_levels(
            *design,
            q as int,
            r as int,
            compact_q.level_of@,
            compact_r.level_of@,
        ));
        assert(compact_q.numbers(active_q) && compact_r.numbers(active_r));
    }
    Some((table, l2g))
}

} // verus!
