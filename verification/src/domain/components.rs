//! Connected components of a bipartite cross-tab.
//!
//! The vertices are the levels of both factors, the first factor's before the
//! second's; two levels are adjacent if some observation has both.

use vstd::prelude::*;

use crate::domain::factor_pairs::BipartiteComponent;
use crate::elimination::{CrossTab, CsrBlock};
use crate::kernels::filled;

verus! {

/// Number of levels of both factors.
pub open spec fn n_vertices<T>(table: CrossTab<T>) -> int {
    (table.diag_q@.len() + table.diag_r@.len()) as int
}

/// Levels `u` and `v` are adjacent.
pub open spec fn adjacent<T>(table: CrossTab<T>, u: int, v: int) -> bool {
    let n_q = table.diag_q@.len() as int;
    if 0 <= u < n_q && n_q <= v < n_vertices(table) {
        crate::domain::cross_tab::has_entry(table.c, u, v - n_q)
    } else if 0 <= v < n_q && n_q <= u < n_vertices(table) {
        crate::domain::cross_tab::has_entry(table.ct, u - n_q, v)
    } else {
        false
    }
}

/// Consecutive levels of the path are adjacent.
pub open spec fn is_path<T>(table: CrossTab<T>, path: Seq<int>) -> bool {
    &&& path.len() >= 1
    &&& forall|k: int|
        0 <= k < path.len() - 1 ==> adjacent(table, #[trigger] path[k], path[k + 1])
}

/// A path leads from `u` to `v`.
pub open spec fn connected<T>(table: CrossTab<T>, u: int, v: int) -> bool {
    exists|path: Seq<int>| #[trigger]
        is_path(table, path) && path[0] == u && path.last() == v
}

proof fn lemma_connected_self<T>(table: CrossTab<T>, u: int)
    ensures
        connected(table, u, u),
{
    assert(is_path(table, seq![u]));
}

proof fn lemma_connected_step<T>(table: CrossTab<T>, u: int, v: int, w: int)
    requires
        connected(table, u, v),
        adjacent(table, v, w),
    ensures
        connected(table, u, w),
{
    let path = choose|path: Seq<int>| #[trigger]
        is_path(table, path) && path[0] == u && path.last() == v;
    let longer = path.push(w);
    assert forall|k: int| 0 <= k < longer.len() - 1 implies adjacent(
        table,
        #[trigger] longer[k],
        longer[k + 1],
    ) by {
        if k < path.len() - 1 {
            assert(adjacent(table, path[k], path[k + 1]));
        }
    }
    assert(is_path(table, longer));
}

/// Adjacency goes both ways.
proof fn lemma_adjacent_symmetric<T>(table: CrossTab<T>, u: int, v: int)
    requires
        crate::domain::cross_tab::is_symmetric(table),
        adjacent(table, u, v),
    ensures
        adjacent(table, v, u),
{
    let n_q = table.diag_q@.len() as int;
    if u < n_q {
        assert(crate::domain::cross_tab::has_entry(table.c, u, v - n_q));
    } else {
        assert(crate::domain::cross_tab::has_entry(table.c, v, u - n_q) <==> crate::domain::cross_tab::has_entry(table.ct, u - n_q, v));
    }
}

/// A path may be walked backwards.
proof fn lemma_connected_symmetric<T>(table: CrossTab<T>, u: int, v: int)
    requires
        crate::domain::cross_tab::is_symmetric(table),
        connected(table, u, v),
    ensures
        connected(table, v, u),
{
    let path = choose|path: Seq<int>| #[trigger]
        is_path(table, path) && path[0] == u && path.last() == v;
    let back = path.reverse();
    assert forall|k: int| 0 <= k < back.len() - 1 implies adjacent(
        table,
        #[trigger] back[k],
        back[k + 1],
    ) by {
        let j = path.len() - 2 - k;
        assert(adjacent(table, path[j], path[j + 1]));
        lemma_adjacent_symmetric(table, path[j], path[j + 1]);
        assert(back[k] == path[j + 1] && back[k + 1] == path[j]);
    }
    assert(is_path(table, back));
}

proof fn lemma_connected_trans<T>(table: CrossTab<T>, u: int, v: int, w: int)
    requires
        connected(table, u, v),
        connected(table, v, w),
    ensures
        connected(table, u, w),
{
    let a = choose|path: Seq<int>| #[trigger]
        is_path(table, path) && path[0] == u && path.last() == v;
    let b = choose|path: Seq<int>| #[trigger]
        is_path(table, path) && path[0] == v && path.last() == w;
    let both = a + b.skip(1);
    assert forall|k: int| 0 <= k < both.len() - 1 implies adjacent(
        table,
        #[trigger] both[k],
        both[k + 1],
    ) by {
        if k < a.len() - 1 {
            assert(adjacent(table, a[k], a[k + 1]));
        } else {
            let j = k - (a.len() - 1);
            assert(adjacent(table, b[j], b[j + 1]));
            assert(both[k] == b[j]);
        }
    }
    assert(is_path(table, both));
    assert(both.last() == w) by {
        if b.len() > 1 {
            assert(both.last() == b.last());
        }
    }
}

// ---------------------------------------------------------------------------
// Labels
// ---------------------------------------------------------------------------

/// Labelled levels pass their label on to adjacent levels, but for those in `open`.
spec fn is_closed_but<T>(
    table: CrossTab<T>,
    labels: Seq<usize>,
    unlabelled: usize,
    open: Seq<usize>,
) -> bool {
    forall|u: int, v: int|
        0 <= u < labels.len() && labels[u] != unlabelled && !open.contains(u as usize)
            && #[trigger] adjacent(table, u, v) ==> labels[v] == labels[u]
}

/// How many levels are unlabelled.
spec fn count_unlabelled(labels: Seq<usize>, unlabelled: usize) -> nat
    decreases labels.len(),
{
    if labels.len() == 0 {
        0
    } else {
        count_unlabelled(labels.drop_last(), unlabelled) + if labels.last() == unlabelled {
            1nat
        } else {
            0nat
        }
    }
}

proof fn lemma_count_unlabelled(labels: Seq<usize>, unlabelled: usize, i: int, label: usize)
    requires
        0 <= i < labels.len(),
        labels[i] == unlabelled,
        label != unlabelled,
    ensures
        count_unlabelled(labels.update(i, label), unlabelled) + 1 == count_unlabelled(
            labels,
            unlabelled,
        ),
    decreases labels.len(),
{
    let updated = labels.update(i, label);
    if i == labels.len() - 1 {
        assert(updated.drop_last() =~= labels.drop_last());
    } else {
        lemma_count_unlabelled(labels.drop_last(), unlabelled, i, label);
        assert(updated.drop_last() =~= labels.drop_last().update(i, label));
    }
}

/// `after` differs from `before` in that some unlabelled levels, all connected
/// to `start`, now have `label`.
spec fn extends_labels<T>(
    table: CrossTab<T>,
    before: Seq<usize>,
    after: Seq<usize>,
    unlabelled: usize,
    start: int,
    label: usize,
) -> bool {
    &&& after.len() == before.len()
    &&& forall|v: int|
        0 <= v < before.len() ==> #[trigger] after[v] == before[v] || (before[v] == unlabelled
            && after[v] == label && connected(table, start, v))
}

/// Label the unlabelled neighbours of `v` and put them on the stack.
fn visit<T>(
    table: &CrossTab<T>,
    block: &CsrBlock<T>,
    row: usize,
    base: usize,
    v: usize,
    labels: &mut Vec<usize>,
    stack: &mut Vec<usize>,
    unlabelled: usize,
    start: usize,
    label: usize,
    Ghost(entry): Ghost<Seq<usize>>,
)
    requires
        table.wf(),
        old(labels)@.len() == n_vertices(*table) == unlabelled,
        label < unlabelled,
        block.indptr@.len() > row + 1,
        block.indptr@[row as int] <= block.indptr@[row + 1] <= block.indices@.len(),
        forall|e: int|
            block.indptr@[row as int] <= e < block.indptr@[row + 1] ==> base
                + #[trigger] block.indices@[e] < unlabelled && adjacent(
                *table,
                v as int,
                base + block.indices@[e],
            ),
        extends_labels(*table, entry, old(labels)@, unlabelled, start as int, label),
        connected(*table, start as int, v as int),
        forall|k: int|
            0 <= k < old(stack)@.len() ==> (#[trigger] old(stack)@[k]) < unlabelled
                && old(labels)@[old(stack)@[k] as int] == label,
        is_closed_but(*table, old(labels)@, unlabelled, old(stack)@.push(v)),
        old(labels)@[v as int] == label,
        v < unlabelled,
    ensures
        final(labels)@.len() == old(labels)@.len(),
        extends_labels(*table, entry, final(labels)@, unlabelled, start as int, label),
        forall|k: int|
            0 <= k < final(stack)@.len() ==> (#[trigger] final(stack)@[k]) < unlabelled
                && final(labels)@[final(stack)@[k] as int] == label,
        is_closed_but(*table, final(labels)@, unlabelled, final(stack)@.push(v)),
        final(labels)@[v as int] == label,
        forall|u: int|
            0 <= u < old(labels)@.len() && old(labels)@[u] != unlabelled ==> #[trigger] final(labels)@[u] == old(labels)@[u],
        forall|e: int|
            block.indptr@[row as int] <= e < block.indptr@[row + 1] ==> final(labels)@[base
                + #[trigger] block.indices@[e]] != unlabelled,
        count_unlabelled(final(labels)@, unlabelled) + final(stack)@.len() == count_unlabelled(
            old(labels)@,
            unlabelled,
        ) + old(stack)@.len(),
{
    let n_bounds: usize = block.indptr.len();
    assert(row + 1 < n_bounds);
    let first: usize = block.indptr[row];
    let end: usize = block.indptr[row + 1];
    let mut e: usize = first;
    while e < end
        invariant
            first <= e <= end,
            first == block.indptr@[row as int],
            end == block.indptr@[row + 1],
            end <= block.indices@.len(),
            old(labels)@.len() == labels@.len(),
            labels@.len() == n_vertices(*table) == unlabelled,
            label < unlabelled,
            forall|e: int|
                first <= e < end ==> base + #[trigger] block.indices@[e] < unlabelled && adjacent(
                    *table,
                    v as int,
                    base + block.indices@[e],
                ),
            extends_labels(*table, entry, labels@, unlabelled, start as int, label),
            connected(*table, start as int, v as int),
            forall|k: int|
                0 <= k < stack@.len() ==> (#[trigger] stack@[k]) < unlabelled
                    && labels@[stack@[k] as int] == label,
            is_closed_but(*table, labels@, unlabelled, stack@.push(v)),
            labels@[v as int] == label,
            v < unlabelled,
            forall|u: int|
                0 <= u < old(labels)@.len() && old(labels)@[u] != unlabelled ==> #[trigger] labels@[u] == old(labels)@[u],
            forall|f: int|
                first <= f < e ==> labels@[base + #[trigger] block.indices@[f]] != unlabelled,
            count_unlabelled(labels@, unlabelled) + stack@.len() == count_unlabelled(
                old(labels)@,
                unlabelled,
            ) + old(stack)@.len(),
        decreases end - e,
    {
        assert(base + block.indices@[e as int] < unlabelled);
        let w: usize = base + block.indices[e] as usize;
        if labels[w] == unlabelled {
            let ghost labels_before = labels@;
            let ghost stack_before = stack@;
            proof {
                lemma_connected_step(*table, start as int, v as int, w as int);
                lemma_count_unlabelled(labels@, unlabelled, w as int, label);
            }
            labels.set(w, label);
            stack.push(w);
            proof {
                assert forall|u: int|
                    0 <= u < old(labels)@.len() && old(labels)@[u] != unlabelled implies #[trigger] labels@[u]
                    == old(labels)@[u] by {
                    assert(labels_before[u] == old(labels)@[u]);
                }
                assert(stack@.push(v).contains(w)) by {
                    assert(stack@.push(v)[stack@.len() - 1] == w);
                }
                assert forall|u: int, x: int|
                    0 <= u < labels@.len() && labels@[u] != unlabelled && !stack@.push(v).contains(
                        u as usize,
                    ) && #[trigger] adjacent(*table, u, x) implies labels@[x] == labels@[u] by {
                    assert(u != w);
                    if stack_before.push(v).contains(u as usize) {
                        let k = choose|k: int|
                            0 <= k < stack_before.push(v).len() && stack_before.push(v)[k]
                                == u as usize;
                        if k < stack_before.len() {
                            assert(stack@.push(v)[k] == u as usize);
                        } else {
                            assert(stack@.push(v)[stack@.len() as int] == u as usize);
                        }
                    }
                    assert(labels_before[x] == labels_before[u]);
                    assert(x != w);
                }
            }
        }
        e = e + 1;
    }
}

/// Label everything connected to `start`.
fn flood<T>(
    table: &CrossTab<T>,
    labels: &mut Vec<usize>,
    unlabelled: usize,
    start: usize,
    label: usize,
)
    requires
        table.wf(),
        crate::domain::cross_tab::is_symmetric(*table),
        crate::domain::cross_tab::columns_in_range(*table),
        old(labels)@.len() == n_vertices(*table) == unlabelled,
        start < unlabelled,
        label < unlabelled,
        old(labels)@[start as int] == unlabelled,
        forall|v: int|
            0 <= v < old(labels)@.len() ==> #[trigger] old(labels)@[v] == unlabelled || old(
                labels
            )@[v] < label,
        is_closed_but(*table, old(labels)@, unlabelled, Seq::empty()),
    ensures
        final(labels)@.len() == old(labels)@.len(),
        final(labels)@[start as int] == label,
        extends_labels(
            *table,
            old(labels)@,
            final(labels)@,
            unlabelled,
            start as int,
            label,
        ),
        is_closed_but(*table, final(labels)@, unlabelled, Seq::empty()),
{
    let ghost entry = labels@;
    let n_q: usize = table.diag_q.len();
    let mut stack: Vec<usize> = Vec::new();
    proof {
        lemma_connected_self(*table, start as int);
    }
    labels.set(start, label);
    stack.push(start);
    proof {
        assert forall|u: int, x: int|
            0 <= u < labels@.len() && labels@[u] != unlabelled && !stack@.contains(u as usize)
                && #[trigger] adjacent(*table, u, x) implies labels@[x] == labels@[u] by {
            assert(stack@[0] == start);
            assert(u != start);
            assert(!Seq::<usize>::empty().contains(u as usize));
            assert(entry[x] == entry[u]);
            assert(x != start);
        }
    }
    while stack.len() > 0
        invariant
            table.wf(),
            crate::domain::cross_tab::is_symmetric(*table),
            crate::domain::cross_tab::columns_in_range(*table),
            n_q == table.diag_q@.len(),
            labels@.len() == n_vertices(*table) == unlabelled == entry.len(),
            start < unlabelled,
            label < unlabelled,
            labels@[start as int] == label,
            entry[start as int] == unlabelled,
            forall|v: int|
                0 <= v < entry.len() ==> #[trigger] entry[v] == unlabelled || entry[v] < label,
            is_closed_but(*table, entry, unlabelled, Seq::empty()),
            extends_labels(*table, entry, labels@, unlabelled, start as int, label),
            forall|k: int|
                0 <= k < stack@.len() ==> (#[trigger] stack@[k]) < unlabelled
                    && labels@[stack@[k] as int] == label,
            is_closed_but(*table, labels@, unlabelled, stack@),
        decreases count_unlabelled(labels@, unlabelled) + stack@.len(),
    {
        let ghost stack_before = stack@;
        let v: usize = match stack.pop() {
            Some(v) => v,
            None => 0,
        };
        proof {
            assert(v == stack_before[stack_before.len() - 1]);
            assert(stack@.push(v) =~= stack_before);
            assert(entry[v as int] == unlabelled);
            assert(connected(*table, start as int, v as int));
        }
        let ghost seen = labels@;
        if v < n_q {
            proof {
                assert forall|e: int|
                    table.c.indptr@[v as int] <= e < table.c.indptr@[v + 1] implies n_q
                    + #[trigger] table.c.indices@[e] < unlabelled && adjacent(
                    *table,
                    v as int,
                    n_q + table.c.indices@[e],
                ) by {
                    assert(table.c.indptr@[v + 1] <= table.c.indices@.len());
                }
                assert(table.c.indptr@[v as int] <= table.c.indptr@[v + 1]);
                assert(table.c.indptr@[v + 1] <= table.c.indices@.len());
            }
            visit(
                table,
                &table.c,
                v,
                n_q,
                v,
                labels,
                &mut stack,
                unlabelled,
                start,
                label,
                Ghost(entry),
            );
        } else {
            proof {
                assert forall|e: int|
                    table.ct.indptr@[v - n_q] <= e < table.ct.indptr@[v - n_q + 1] implies 0
                    + #[trigger] table.ct.indices@[e] < unlabelled && adjacent(
                    *table,
                    v as int,
                    0 + table.ct.indices@[e],
                ) by {
                    assert(table.ct.indptr@[v - n_q + 1] <= table.ct.indices@.len());
                }
                assert(table.ct.indptr@[v - n_q] <= table.ct.indptr@[v - n_q + 1]);
                assert(table.ct.indptr@[v - n_q + 1] <= table.ct.indices@.len());
            }
            visit(
                table,
                &table.ct,
                v - n_q,
                0,
                v,
                labels,
                &mut stack,
                unlabelled,
                start,
                label,
                Ghost(entry),
            );
        }
        proof {
            assert forall|u: int, x: int|
                0 <= u < labels@.len() && labels@[u] != unlabelled && !stack@.contains(u as usize)
                    && #[trigger] adjacent(*table, u, x) implies labels@[x] == labels@[u] by {
                if u == v {
                    // every neighbour of v is labelled, and was not labelled on entry
                    assert(labels@[x] != unlabelled) by {
                        if v < n_q {
                            let e = choose|e: int|
                                table.c.indptr@[v as int] <= e < table.c.indptr@[v + 1]
                                    && #[trigger] table.c.indices@[e] == x - n_q;
                            assert(labels@[n_q + table.c.indices@[e]] != unlabelled);
                        } else {
                            let e = choose|e: int|
                                table.ct.indptr@[v - n_q] <= e < table.ct.indptr@[v - n_q + 1]
                                    && #[trigger] table.ct.indices@[e] == x;
                            assert(labels@[0 + table.ct.indices@[e]] != unlabelled);
                        }
                    }
                    if entry[x] != unlabelled {
                        lemma_adjacent_symmetric(*table, u, x);
                        assert(!Seq::<usize>::empty().contains(x as usize));
                        assert(entry[u] == entry[x]);
                    }
                } else {
                    if stack@.push(v).contains(u as usize) {
                        let k = choose|k: int|
                            0 <= k < stack@.push(v).len() && stack@.push(v)[k] == u as usize;
                        assert(stack@[k] == u as usize);
                    }
                }
            }
        }
    }
    assert(stack@ =~= Seq::empty());
}

/// Some level has label `c`.
pub open spec fn label_used(labels: Seq<usize>, c: int) -> bool {
    exists|v: int| 0 <= v < labels.len() && #[trigger] labels[v] == c
}

/// `labels` numbers the components: adjacent levels share a label, levels that
/// share a label are connected, every number is used, and components are
/// numbered in the order of their first levels.
pub open spec fn is_labelling<T>(table: CrossTab<T>, labels: Seq<usize>, n_components: nat) -> bool {
    &&& labels.len() == n_vertices(table)
    &&& forall|v: int| 0 <= v < labels.len() ==> #[trigger] labels[v] < n_components
    &&& forall|u: int, v: int|
        0 <= u < labels.len() && #[trigger] adjacent(table, u, v) ==> labels[v] == labels[u]
    &&& forall|u: int, v: int|
        #![trigger labels[u], labels[v]]
        0 <= u < labels.len() && 0 <= v < labels.len() && labels[u] == labels[v] ==> connected(
            table,
            u,
            v,
        )
    &&& forall|c: int| 0 <= c < n_components ==> #[trigger] label_used(labels, c)
    &&& forall|v: int, c: int|
        0 <= v < labels.len() && 0 <= c < labels[v] ==> #[trigger] label_used(labels.take(v), c)
}

/// Two levels are in one component exactly if a path connects them.
pub proof fn law_component_is_connectedness<T>(
    table: CrossTab<T>,
    labels: Seq<usize>,
    n_components: nat,
    u: int,
    v: int,
)
    requires
        is_labelling(table, labels, n_components),
        0 <= u < n_vertices(table),
        0 <= v < n_vertices(table),
    ensures
        labels[u] == labels[v] <==> connected(table, u, v),
{
    if connected(table, u, v) {
        let path = choose|path: Seq<int>| #[trigger]
            is_path(table, path) && path[0] == u && path.last() == v;
        lemma_label_along_path(table, labels, n_components, path, path.len() - 1);
    }
}

proof fn lemma_label_along_path<T>(
    table: CrossTab<T>,
    labels: Seq<usize>,
    n_components: nat,
    path: Seq<int>,
    k: int,
)
    requires
        is_labelling(table, labels, n_components),
        is_path(table, path),
        0 <= path[0] < labels.len(),
        0 <= k < path.len(),
    ensures
        0 <= path[k] < labels.len(),
        labels[path[k]] == labels[path[0]],
    decreases k,
{
    if k > 0 {
        lemma_label_along_path(table, labels, n_components, path, k - 1);
        assert(adjacent(table, path[k - 1], path[k - 1 + 1]));
    }
}

/// A table has one numbering of its components.
pub proof fn law_components_are_unique<T>(
    table: CrossTab<T>,
    a: Seq<usize>,
    n_a: nat,
    b: Seq<usize>,
    n_b: nat,
)
    requires
        is_labelling(table, a, n_a),
        is_labelling(table, b, n_b),
    ensures
        a == b,
        n_a == n_b,
{
    assert forall|v: int| 0 <= v < a.len() implies a[v] == b[v] by {
        lemma_label_is_unique(table, a, n_a, b, n_b, v);
    }
    assert(a =~= b);
    if n_a < n_b {
        assert(label_used(b, n_a as int));
    }
    if n_b < n_a {
        assert(label_used(a, n_b as int));
    }
}

proof fn lemma_label_is_unique<T>(
    table: CrossTab<T>,
    a: Seq<usize>,
    n_a: nat,
    b: Seq<usize>,
    n_b: nat,
    v: int,
)
    requires
        is_labelling(table, a, n_a),
        is_labelling(table, b, n_b),
        0 <= v < a.len(),
    ensures
        a[v] == b[v],
    decreases v,
{
    assert forall|u: int| 0 <= u < v implies a[u] == b[u] && (a[u] == a[v] <==> b[u] == b[v]) by {
        lemma_label_is_unique(table, a, n_a, b, n_b, u);
        law_component_is_connectedness(table, a, n_a, u, v);
        law_component_is_connectedness(table, b, n_b, u, v);
    }
    if a[v] < b[v] {
        assert(label_used(b.take(v), a[v] as int));
        let u = choose|u: int| 0 <= u < b.take(v).len() && #[trigger] b.take(v)[u] == a[v];
        assert(b[u] == a[v] && a[u] == b[u]);
    }
    if b[v] < a[v] {
        assert(label_used(a.take(v), b[v] as int));
        let u = choose|u: int| 0 <= u < a.take(v).len() && #[trigger] a.take(v)[u] == b[v];
        assert(a[u] == b[v] && a[u] == b[u]);
    }
}

/// Number the components.
fn label_components<T>(table: &CrossTab<T>) -> (result: (Vec<usize>, usize))
    requires
        table.wf(),
        crate::domain::cross_tab::is_symmetric(*table),
        crate::domain::cross_tab::columns_in_range(*table),
        n_vertices(*table) <= usize::MAX,
    ensures
        is_labelling(*table, result.0@, result.1 as nat),
{
    let n: usize = table.diag_q.len() + table.diag_r.len();
    let mut labels: Vec<usize> = filled(n, n);
    let mut n_components: usize = 0;
    let mut start: usize = 0;
    let ghost mut roots = Seq::<int>::empty();
    while start < n
        invariant
            start <= n == n_vertices(*table) == labels@.len(),
            table.wf(),
            crate::domain::cross_tab::is_symmetric(*table),
            crate::domain::cross_tab::columns_in_range(*table),
            n_components <= start,
            roots.len() == n_components,
            forall|c: int|
                0 <= c < n_components ==> 0 <= (#[trigger] roots[c]) < start && labels@[roots[c]]
                    == c,
            forall|c: int, d: int|
                #![trigger roots[c], roots[d]]
                0 <= c < d < n_components ==> roots[c] < roots[d],
            forall|v: int| 0 <= v < start ==> #[trigger] labels@[v] != n,
            forall|v: int|
                0 <= v < n && labels@[v] != n ==> #[trigger] labels@[v] < n_components && connected(
                    *table,
                    roots[labels@[v] as int],
                    v,
                ) && roots[labels@[v] as int] <= v,
            is_closed_but(*table, labels@, n, Seq::empty()),
        decreases n - start,
    {
        if labels[start] == n {
            let ghost before = labels@;
            flood(table, &mut labels, n, start, n_components);
            proof {
                let old_roots = roots;
                roots = roots.push(start as int);
                assert forall|v: int| 0 <= v < n && labels@[v] != n implies #[trigger] labels@[v]
                    < n_components + 1 && connected(
                    *table,
                    roots[labels@[v] as int],
                    v,
                ) && roots[labels@[v] as int] <= v by {
                    if before[v] != n {
                        assert(labels@[v] == before[v]);
                        assert(connected(*table, old_roots[before[v] as int], v));
                    }
                }
                assert forall|c: int| 0 <= c < n_components + 1 implies 0 <= (#[trigger] roots[c])
                    < start + 1 && labels@[roots[c]] == c by {
                    if c < n_components {
                        assert(roots[c] == old_roots[c]);
                        assert(before[old_roots[c]] == c);
                    }
                }
                assert forall|v: int| 0 <= v < start + 1 implies #[trigger] labels@[v] != n by {
                    if v < start {
                        assert(before[v] != n);
                    }
                }
            }
            n_components = n_components + 1;
        }
        start = start + 1;
    }
    proof {
        assert forall|u: int, v: int|
            0 <= u < labels@.len() && #[trigger] adjacent(*table, u, v) implies labels@[v]
            == labels@[u] by {
            assert(!Seq::<usize>::empty().contains(u as usize));
            assert(labels@[u] != n);
        }
        assert forall|u: int, v: int|
            #![trigger labels@[u], labels@[v]]
            0 <= u < labels@.len() && 0 <= v < labels@.len() && labels@[u]
                == labels@[v] implies connected(*table, u, v) by {
            let root = roots[labels@[u] as int];
            lemma_connected_symmetric(*table, root, u);
            lemma_connected_trans(*table, u, root, v);
        }
        assert forall|c: int| 0 <= c < n_components implies #[trigger] label_used(
            labels@,
            c,
        ) by {
            assert(labels@[roots[c]] == c);
        }
        assert forall|v: int, c: int|
            0 <= v < labels@.len() && 0 <= c < labels@[v] implies #[trigger] label_used(
            labels@.take(v),
            c,
        ) by {
            assert(roots[c] < roots[labels@[v] as int]);
            assert(labels@.take(v)[roots[c]] == c);
        }
    }
    (labels, n_components)
}

// ---------------------------------------------------------------------------
// Components
// ---------------------------------------------------------------------------

/// `indices` lists, ascending, the positions that have label `c`.
pub open spec fn lists_label(indices: Seq<usize>, labels: Seq<usize>, c: int) -> bool {
    &&& forall|i: int, j: int|
        #![trigger indices[i], indices[j]]
        0 <= i < j < indices.len() ==> indices[i] < indices[j]
    &&& forall|i: int|
        0 <= i < indices.len() ==> (#[trigger] indices[i]) < labels.len() && labels[indices[i] as int]
            == c
    &&& forall|k: int|
        0 <= k < labels.len() && #[trigger] labels[k] == c ==> indices.contains(k as usize)
}

/// `component` holds the levels that have label `c`.
pub open spec fn is_component(
    labels: Seq<usize>,
    n_q: int,
    c: int,
    component: BipartiteComponent,
) -> bool {
    &&& lists_label(component.q_indices@, labels.take(n_q), c)
    &&& lists_label(component.r_indices@, labels.skip(n_q), c)
}

/// Position `k` of `labels` is listed at place `place[k]` of its group.
spec fn is_place(groups: Seq<Vec<usize>>, labels: Seq<usize>, place: Seq<usize>) -> bool {
    &&& place.len() == labels.len()
    &&& forall|k: int|
        0 <= k < labels.len() ==> #[trigger] place[k] < groups[labels[k] as int]@.len()
            && groups[labels[k] as int]@[place[k] as int] == k
}

/// Group the positions of a label sequence by label; also give the place of
/// each position in its group.
fn group_by_label(labels: &[usize], n_groups: usize) -> (result: (Vec<Vec<usize>>, Vec<usize>))
    requires
        forall|k: int| 0 <= k < labels@.len() ==> #[trigger] labels@[k] < n_groups,
    ensures
        result.0@.len() == n_groups,
        forall|c: int| 0 <= c < n_groups ==> lists_label((#[trigger] result.0@[c])@, labels@, c),
        is_place(result.0@, labels@, result.1@),
{
    let mut groups: Vec<Vec<usize>> = Vec::with_capacity(n_groups);
    let mut place: Vec<usize> = Vec::with_capacity(labels.len());
    while groups.len() < n_groups
        invariant
            groups@.len() <= n_groups,
            forall|c: int| 0 <= c < groups@.len() ==> (#[trigger] groups@[c])@ == Seq::<usize>::empty(),
        decreases n_groups - groups@.len(),
    {
        groups.push(Vec::new());
    }
    let n: usize = labels.len();
    let mut k: usize = 0;
    while k < n
        invariant
            k <= n == labels@.len(),
            forall|k: int| 0 <= k < labels@.len() ==> #[trigger] labels@[k] < n_groups,
            groups@.len() == n_groups,
            forall|c: int|
                0 <= c < n_groups ==> lists_label(
                    (#[trigger] groups@[c])@,
                    labels@.take(k as int),
                    c,
                ),
            is_place(groups@, labels@.take(k as int), place@),
        decreases n - k,
    {
        let label: usize = labels[k];
        let ghost before = groups@;
        let ghost seen = labels@.take(k as int);
        place.push(groups[label].len());
        groups[label].push(k);
        proof {
            let now = labels@.take(k + 1);
            assert forall|c: int| 0 <= c < n_groups implies lists_label(
                (#[trigger] groups@[c])@,
                now,
                c,
            ) by {
                assert(lists_label(before[c]@, seen, c));
                if c == label {
                    assert(groups@[c]@ == before[c]@.push(k));
                    assert(groups@[c]@[before[c]@.len() as int] == k);
                } else {
                    assert(groups@[c] == before[c]);
                }
                assert forall|j: int| 0 <= j < now.len() && #[trigger] now[j] == c implies groups@[c]@.contains(
                    j as usize,
                ) by {
                    if j < k {
                        assert(seen[j] == c);
                        let i = choose|i: int| 0 <= i < before[c]@.len() && before[c]@[i] == j as usize;
                        assert(groups@[c]@[i] == j as usize);
                    }
                }
            }
            assert forall|j: int| 0 <= j < now.len() implies #[trigger] place@[j]
                < groups@[now[j] as int]@.len() && groups@[now[j] as int]@[place@[j] as int] == j by {
                if j < k {
                    assert(now[j] == seen[j]);
                    assert(before[seen[j] as int]@[place@[j] as int] == j);
                }
            }
        }
        k = k + 1;
    }
    assert(labels@.take(n as int) =~= labels@);
    (groups, place)
}

/// Connected components of a cross-tab, in the order of their first levels.
pub struct Components {
    /// The components.
    pub list: Vec<BipartiteComponent>,
    /// Place of each level of the first factor within its component.
    pub place_q: Vec<usize>,
    /// Place of each level of the second factor within its component.
    pub place_r: Vec<usize>,
}

/// `components` are the components that `labels` numbers.
pub open spec fn are_labelled_components<T>(
    table: CrossTab<T>,
    labels: Seq<usize>,
    components: Components,
) -> bool {
    let n_q = table.diag_q@.len() as int;
    &&& is_labelling(table, labels, components.list@.len())
    &&& forall|c: int|
        0 <= c < components.list@.len() ==> is_component(
            labels,
            n_q,
            c,
            #[trigger] components.list@[c],
        )
    &&& components.place_q@.len() == n_q
    &&& components.place_r@.len() == table.diag_r@.len()
    &&& forall|i: int|
        0 <= i < n_q ==> #[trigger] components.place_q@[i]
            < components.list@[labels[i] as int].q_indices@.len()
            && components.list@[labels[i] as int].q_indices@[components.place_q@[i] as int] == i
    &&& forall|j: int|
        0 <= j < table.diag_r@.len() ==> #[trigger] components.place_r@[j]
            < components.list@[labels[n_q + j] as int].r_indices@.len()
            && components.list@[labels[n_q + j] as int].r_indices@[components.place_r@[j] as int]
            == j
}

/// `components` are the connected components of the table.
pub open spec fn are_components<T>(table: CrossTab<T>, components: Components) -> bool {
    exists|labels: Seq<usize>| #[trigger] are_labelled_components(table, labels, components)
}

/// Find the connected components of a cross-tab.
pub fn bipartite_connected_components<T>(table: &CrossTab<T>) -> (components: Components)
    requires
        table.wf(),
        crate::domain::cross_tab::is_symmetric(*table),
        crate::domain::cross_tab::columns_in_range(*table),
        n_vertices(*table) <= usize::MAX,
    ensures
        are_components(*table, components),
{
    let (labels, n_components): (Vec<usize>, usize) = label_components(table);
    let n_q: usize = table.diag_q.len();
    let n: usize = labels.len();
    let labels_q: &[usize] = &labels.as_slice()[0..n_q];
    let labels_r: &[usize] = &labels.as_slice()[n_q..n];
    proof {
        assert(labels_q@ =~= labels@.take(n_q as int));
        assert(labels_r@ =~= labels@.skip(n_q as int));
        assert forall|k: int| 0 <= k < labels_r@.len() implies #[trigger] labels_r@[k]
            < n_components by {
            assert(labels@[n_q + k] < n_components);
        }
        assert forall|k: int| 0 <= k < labels_q@.len() implies #[trigger] labels_q@[k]
            < n_components by {
            assert(labels@[k] < n_components);
        }
    }
    let (groups_q, place_q): (Vec<Vec<usize>>, Vec<usize>) = group_by_label(labels_q, n_components);
    let (groups_r, place_r): (Vec<Vec<usize>>, Vec<usize>) = group_by_label(labels_r, n_components);
    let mut list: Vec<BipartiteComponent> = Vec::with_capacity(n_components);
    let mut c: usize = 0;
    while c < n_components
        invariant
            c == list@.len() <= n_components == groups_q@.len() == groups_r@.len(),
            forall|d: int|
                0 <= d < c ==> (#[trigger] list@[d]).q_indices@ == groups_q@[d]@
                    && list@[d].r_indices@ == groups_r@[d]@,
        decreases n_components - c,
    {
        list.push(
            BipartiteComponent { q_indices: copied(&groups_q[c]), r_indices: copied(&groups_r[c]) },
        );
        c = c + 1;
    }
    let components = Components { list, place_q, place_r };
    proof {
        assert forall|c: int| 0 <= c < components.list@.len() implies is_component(
            labels@,
            n_q as int,
            c,
            #[trigger] components.list@[c],
        ) by {
            assert(lists_label(groups_q@[c]@, labels_q@, c));
            assert(lists_label(groups_r@[c]@, labels_r@, c));
        }
        assert forall|i: int| 0 <= i < n_q implies #[trigger] components.place_q@[i]
            < components.list@[labels@[i] as int].q_indices@.len()
            && components.list@[labels@[i] as int].q_indices@[components.place_q@[i] as int]
            == i by {
            assert(labels_q@[i] == labels@[i]);
            assert(labels@[i] < n_components);
        }
        assert forall|j: int| 0 <= j < table.diag_r@.len() implies #[trigger] components.place_r@[j]
            < components.list@[labels@[n_q + j] as int].r_indices@.len()
            && components.list@[labels@[n_q + j] as int].r_indices@[components.place_r@[j] as int]
            == j by {
            assert(labels_r@[j] == labels@[n_q + j]);
            assert(labels@[n_q + j] < n_components);
        }
        assert(are_labelled_components(*table, labels@, components));
    }
    components
}

fn copied(indices: &Vec<usize>) -> (result: Vec<usize>)
    ensures
        result@ == indices@,
{
    let n: usize = indices.len();
    let mut result: Vec<usize> = Vec::with_capacity(n);
    let mut i: usize = 0;
    while i < n
        invariant
            i <= n == indices@.len(),
            result@ == indices@.take(i as int),
        decreases n - i,
    {
        result.push(indices[i]);
        i = i + 1;
        assert(result@ =~= indices@.take(i as int));
    }
    assert(indices@.take(n as int) =~= indices@);
    result
}

// ---------------------------------------------------------------------------
// Extraction
// ---------------------------------------------------------------------------

/// `to` is `from` with each column replaced by its place in `columns`.
pub open spec fn is_renamed_row<T>(
    from: Seq<(u32, T)>,
    columns: Seq<usize>,
    to: Seq<(u32, T)>,
) -> bool {
    &&& to.len() == from.len()
    &&& forall|k: int|
        0 <= k < from.len() ==> (#[trigger] to[k]).0 < columns.len() && columns[to[k].0 as int]
            == from[k].0 && to[k].1 == from[k].1
}

/// `part` has the given rows of `block`, its columns renamed.
pub open spec fn is_block_part<T>(
    block: CsrBlock<T>,
    rows: Seq<usize>,
    columns: Seq<usize>,
    part: CsrBlock<T>,
) -> bool {
    &&& part.wf(rows.len())
    &&& part.indptr@[0] == 0
    &&& part.indptr@[rows.len() as int] == part.indices@.len()
    &&& forall|a: int|
        0 <= a < rows.len() ==> is_renamed_row(
            block.row(rows[a] as int),
            columns,
            #[trigger] part.row(a),
        )
}

/// `part` is the part of the table on the component's levels.
pub open spec fn is_table_part<T>(
    table: CrossTab<T>,
    component: BipartiteComponent,
    part: CrossTab<T>,
) -> bool {
    &&& is_block_part(table.c, component.q_indices@, component.r_indices@, part.c)
    &&& is_block_part(table.ct, component.r_indices@, component.q_indices@, part.ct)
    &&& part.diag_q@ == Seq::new(
        component.q_indices@.len(),
        |a: int| table.diag_q@[component.q_indices@[a] as int],
    )
    &&& part.diag_r@ == Seq::new(
        component.r_indices@.len(),
        |b: int| table.diag_r@[component.r_indices@[b] as int],
    )
}

/// Every column of the rows has a place.
spec fn has_places<T>(
    block: CsrBlock<T>,
    rows: Seq<usize>,
    place: Seq<usize>,
    columns: Seq<usize>,
) -> bool {
    forall|a: int, e: int|
        #![trigger rows[a], block.indices@[e]]
        0 <= a < rows.len() && block.indptr@[rows[a] as int] <= e < block.indptr@[rows[a] + 1]
            ==> block.indices@[e] < place.len() && place[block.indices@[e] as int] < columns.len()
            && columns[place[block.indices@[e] as int] as int] == block.indices@[e]
}

proof fn lemma_bounds_monotone<T>(block: CsrBlock<T>, n_rows: nat, i: int, j: int)
    requires
        block.wf(n_rows),
        0 <= i <= j <= n_rows,
    ensures
        block.indptr@[i] <= block.indptr@[j],
    decreases j - i,
{
    if i < j {
        lemma_bounds_monotone(block, n_rows, i, j - 1);
        assert(block.indptr@[j - 1] <= block.indptr@[j - 1 + 1]);
    }
}

fn extract_block<T: Copy>(
    block: &CsrBlock<T>,
    n_rows: usize,
    rows: &Vec<usize>,
    place: &Vec<usize>,
    columns: &Vec<usize>,
) -> (part: CsrBlock<T>)
    requires
        block.wf(n_rows as nat),
        forall|i: int, j: int|
            #![trigger rows@[i], rows@[j]]
            0 <= i < j < rows@.len() ==> rows@[i] < rows@[j],
        forall|i: int| 0 <= i < rows@.len() ==> #[trigger] rows@[i] < n_rows,
        has_places(*block, rows@, place@, columns@),
        columns@.len() <= u32::MAX,
    ensures
        is_block_part(*block, rows@, columns@, part),
{
    let mut indptr: Vec<usize> = Vec::with_capacity(rows.len());
    let mut indices: Vec<u32> = Vec::new();
    let mut data: Vec<T> = Vec::new();
    indptr.push(0);
    let n: usize = rows.len();
    let mut a: usize = 0;
    while a < n
        invariant
            a <= n == rows@.len(),
            block.wf(n_rows as nat),
            forall|i: int, j: int|
                #![trigger rows@[i], rows@[j]]
                0 <= i < j < rows@.len() ==> rows@[i] < rows@[j],
            forall|i: int| 0 <= i < rows@.len() ==> #[trigger] rows@[i] < n_rows,
            has_places(*block, rows@, place@, columns@),
            columns@.len() <= u32::MAX,
            indptr@.len() == a + 1,
            indptr@[0] == 0,
            indptr@[a as int] == indices@.len(),
            indices@.len() == data@.len(),
            a == 0 ==> indices@.len() == 0,
            a > 0 ==> indices@.len() <= block.indptr@[rows@[a - 1] + 1],
            forall|k: int| 0 <= k < a ==> #[trigger] indptr@[k] <= indptr@[k + 1],
            forall|k: int| 0 <= k <= a ==> #[trigger] indptr@[k] <= indices@.len(),
            forall|k: int|
                0 <= k < a ==> is_renamed_part(
                    *block,
                    #[trigger] rows@[k] as int,
                    columns@,
                    indices@,
                    data@,
                    indptr@[k] as int,
                    indptr@[k + 1] as int,
                ),
        decreases n - a,
    {
        let row: usize = rows[a];
        let n_bounds: usize = block.indptr.len();
        assert(row + 1 < n_bounds);
        let first: usize = block.indptr[row];
        let end: usize = block.indptr[row + 1];
        let ghost before = indices@.len();
        let ghost indices_before = indices@;
        let ghost data_before = data@;
        proof {
            assert(block.indptr@[row as int] <= block.indptr@[row + 1]);
            if a > 0 {
                assert(rows@[a - 1] < rows@[a as int]);
                lemma_bounds_monotone(*block, n_rows as nat, rows@[a - 1] + 1, row as int);
            }
        }
        let mut e: usize = first;
        while e < end
            invariant
                a < n == rows@.len(),
                row == rows@[a as int],
                row < n_rows,
                block.wf(n_rows as nat),
                has_places(*block, rows@, place@, columns@),
                columns@.len() <= u32::MAX,
                first == block.indptr@[row as int],
                end == block.indptr@[row + 1],
                first <= e <= end,
                before <= first,
                indices@.len() == data@.len() == before + (e - first),
                indices@.take(before as int) == indices_before,
                data@.take(before as int) == data_before,
                forall|k: int|
                    0 <= k < e - first ==> (#[trigger] indices@[before + k]) < columns@.len()
                        && columns@[indices@[before + k] as int] == block.indices@[first + k]
                        && data@[before + k] == block.data@[first + k],
            decreases end - e,
        {
            assert(block.indptr@[row + 1] <= block.indices@.len());
            assert(rows@[a as int] == row && block.indices@[e as int] == block.indices@[e as int]);
            let column: usize = block.indices[e] as usize;
            let ghost indices_now = indices@;
            let ghost data_now = data@;
            indices.push(place[column] as u32);
            data.push(block.data[e]);
            e = e + 1;
            proof {
                assert(indices@.take(before as int) =~= indices_now.take(before as int));
                assert(data@.take(before as int) =~= data_now.take(before as int));
            }
        }
        let ghost indptr_before = indptr@;
        indptr.push(indices.len());
        proof {
            assert forall|k: int| 0 <= k < a + 1 implies is_renamed_part(
                *block,
                #[trigger] rows@[k] as int,
                columns@,
                indices@,
                data@,
                indptr@[k] as int,
                indptr@[k + 1] as int,
            ) by {
                if k < a {
                    let start = indptr_before[k] as int;
                    let stop = indptr_before[k + 1] as int;
                    assert(stop <= before);
                    assert(is_renamed_part(
                        *block,
                        rows@[k] as int,
                        columns@,
                        indices_before,
                        data_before,
                        start,
                        stop,
                    ));
                    let from = block.indptr@[rows@[k] as int];
                    assert forall|j: int| 0 <= j < stop - start implies (
                    #[trigger] indices@[start + j]) < columns@.len()
                        && columns@[indices@[start + j] as int] == block.indices@[from + j]
                        && data@[start + j] == block.data@[from + j] by {
                        assert(indices_before[start + j] < columns@.len());
                        assert(indices@.take(before as int)[start + j] == indices@[start + j]);
                        assert(data@.take(before as int)[start + j] == data@[start + j]);
                    }
                } else {
                    assert forall|j: int| 0 <= j < end - first implies (
                    #[trigger] indices@[indptr@[k] + j]) < columns@.len()
                        && columns@[indices@[indptr@[k] + j] as int] == block.indices@[first + j]
                        && data@[indptr@[k] + j] == block.data@[first + j] by {
                        assert(indices@[before + j] < columns@.len());
                    }
                }
            }
        }
        a = a + 1;
    }
    let part = CsrBlock { indptr, indices, data };
    proof {
        assert forall|k: int| 0 <= k < rows@.len() implies is_renamed_row(
            block.row(rows@[k] as int),
            columns@,
            #[trigger] part.row(k),
        ) by {
            let from = block.row(rows@[k] as int);
            let to = part.row(k);
            assert(is_renamed_part(
                *block,
                rows@[k] as int,
                columns@,
                indices@,
                data@,
                indptr@[k] as int,
                indptr@[k + 1] as int,
            ));
            assert forall|j: int| 0 <= j < from.len() implies (#[trigger] to[j]).0 < columns@.len()
                && columns@[to[j].0 as int] == from[j].0 && to[j].1 == from[j].1 by {
                assert(indices@[indptr@[k] + j] < columns@.len());
            }
        }
    }
    part
}

/// Entries `start..end` are row `row` of the block, its columns renamed.
spec fn is_renamed_part<T>(
    block: CsrBlock<T>,
    row: int,
    columns: Seq<usize>,
    indices: Seq<u32>,
    data: Seq<T>,
    start: int,
    end: int,
) -> bool {
    let first = block.indptr@[row];
    &&& end - start == block.indptr@[row + 1] - first
    &&& forall|j: int|
        0 <= j < end - start ==> (#[trigger] indices[start + j]) < columns.len()
            && columns[indices[start + j] as int] == block.indices@[first + j] && data[start + j]
            == block.data@[first + j]
}

proof fn lemma_ascending_length(indices: Seq<usize>, i: int)
    requires
        forall|i: int, j: int|
            #![trigger indices[i], indices[j]]
            0 <= i < j < indices.len() ==> indices[i] < indices[j],
        0 <= i < indices.len(),
    ensures
        i <= indices[i],
    decreases i,
{
    if i > 0 {
        lemma_ascending_length(indices, i - 1);
        assert(indices[i - 1] < indices[i]);
    }
}

fn selected_values<T: Copy>(values: &Vec<T>, indices: &Vec<usize>) -> (result: Vec<T>)
    requires
        forall|i: int| 0 <= i < indices@.len() ==> #[trigger] indices@[i] < values@.len(),
    ensures
        result@ == Seq::new(indices@.len(), |a: int| values@[indices@[a] as int]),
{
    let n: usize = indices.len();
    let mut result: Vec<T> = Vec::with_capacity(n);
    let mut i: usize = 0;
    while i < n
        invariant
            i <= n == indices@.len(),
            forall|i: int| 0 <= i < indices@.len() ==> #[trigger] indices@[i] < values@.len(),
            result@.len() == i,
            forall|a: int| 0 <= a < i ==> #[trigger] result@[a] == values@[indices@[a] as int],
        decreases n - i,
    {
        result.push(values[indices[i]]);
        i = i + 1;
    }
    assert(result@ =~= Seq::new(indices@.len(), |a: int| values@[indices@[a] as int]));
    result
}

/// The component's levels are levels of the table.
pub proof fn lemma_component_within<T>(table: CrossTab<T>, components: Components, c: int)
    requires
        are_components(table, components),
        0 <= c < components.list@.len(),
    ensures
        crate::domain::factor_pairs::is_component_within(
            components.list@[c],
            table.diag_q@.len(),
            table.diag_r@.len(),
        ),
{
    let labels = choose|labels: Seq<usize>| #[trigger]
        are_labelled_components(table, labels, components);
    let n_q = table.diag_q@.len() as int;
    assert(is_component(labels, n_q, c, components.list@[c]));
    assert(labels.take(n_q).len() == n_q);
    assert(labels.skip(n_q).len() == table.diag_r@.len());
}

proof fn lemma_has_places_q<T>(
    table: CrossTab<T>,
    labels: Seq<usize>,
    components: Components,
    c: int,
)
    requires
        table.wf(),
        crate::domain::cross_tab::columns_in_range(table),
        are_labelled_components(table, labels, components),
        0 <= c < components.list@.len(),
    ensures
        has_places(
            table.c,
            components.list@[c].q_indices@,
            components.place_r@,
            components.list@[c].r_indices@,
        ),
{
    let n_q = table.diag_q@.len() as int;
    let rows = components.list@[c].q_indices@;
    let block = table.c;
    assert(is_component(labels, n_q, c, components.list@[c]));
    assert forall|a: int, e: int|
        #![trigger rows[a], block.indices@[e]]
        0 <= a < rows.len() && block.indptr@[rows[a] as int] <= e < block.indptr@[rows[a]
            + 1] implies block.indices@[e] < components.place_r@.len()
        && components.place_r@[block.indices@[e] as int] < components.list@[c].r_indices@.len()
        && components.list@[c].r_indices@[components.place_r@[block.indices@[e] as int] as int]
        == block.indices@[e] by {
        let i = rows[a] as int;
        assert(labels.take(n_q)[i] == c);
        assert(labels[i] == c);
        assert(block.indptr@[i + 1] <= block.indices@.len());
        let j = block.indices@[e] as int;
        assert(crate::domain::cross_tab::has_entry(block, i, j));
        assert(adjacent(table, i, n_q + j));
        assert(labels[n_q + j] == c);
        assert(components.place_r@[j] < components.list@[labels[n_q + j] as int].r_indices@.len());
    }
}

proof fn lemma_has_places_r<T>(
    table: CrossTab<T>,
    labels: Seq<usize>,
    components: Components,
    c: int,
)
    requires
        table.wf(),
        crate::domain::cross_tab::columns_in_range(table),
        are_labelled_components(table, labels, components),
        0 <= c < components.list@.len(),
    ensures
        has_places(
            table.ct,
            components.list@[c].r_indices@,
            components.place_q@,
            components.list@[c].q_indices@,
        ),
{
    let n_q = table.diag_q@.len() as int;
    let rows = components.list@[c].r_indices@;
    let block = table.ct;
    assert(is_component(labels, n_q, c, components.list@[c]));
    assert forall|a: int, e: int|
        #![trigger rows[a], block.indices@[e]]
        0 <= a < rows.len() && block.indptr@[rows[a] as int] <= e < block.indptr@[rows[a]
            + 1] implies block.indices@[e] < components.place_q@.len()
        && components.place_q@[block.indices@[e] as int] < components.list@[c].q_indices@.len()
        && components.list@[c].q_indices@[components.place_q@[block.indices@[e] as int] as int]
        == block.indices@[e] by {
        let j = rows[a] as int;
        assert(labels.skip(n_q)[j] == c);
        assert(labels[n_q + j] == c);
        assert(block.indptr@[j + 1] <= block.indices@.len());
        let i = block.indices@[e] as int;
        assert(crate::domain::cross_tab::has_entry(block, j, i));
        assert(adjacent(table, n_q + j, i));
        assert(labels[i] == c);
        assert(components.place_q@[i] < components.list@[labels[i] as int].q_indices@.len());
    }
}

/// Cut one component out of the table.
pub fn extract_component<T: Copy>(
    table: &CrossTab<T>,
    components: &Components,
    c: usize,
) -> (part: CrossTab<T>)
    requires
        table.wf(),
        crate::domain::cross_tab::columns_in_range(*table),
        n_vertices(*table) <= u32::MAX,
        are_components(*table, *components),
        c < components.list@.len(),
    ensures
        is_table_part(*table, components.list@[c as int], part),
{
    let component: &BipartiteComponent = &components.list[c];
    proof {
        let labels = choose|labels: Seq<usize>| #[trigger]
            are_labelled_components(*table, labels, *components);
        let n_q = table.diag_q@.len() as int;
        lemma_has_places_q(*table, labels, *components, c as int);
        lemma_has_places_r(*table, labels, *components, c as int);
        lemma_component_within(*table, *components, c as int);
        assert(is_component(labels, n_q, c as int, *component));
        if component.q_indices@.len() > 0 {
            lemma_ascending_length(component.q_indices@, component.q_indices@.len() - 1);
        }
        if component.r_indices@.len() > 0 {
            lemma_ascending_length(component.r_indices@, component.r_indices@.len() - 1);
        }
    }
    let n_q: usize = table.diag_q.len();
    let n_r: usize = table.diag_r.len();
    CrossTab {
        c: extract_block(
            &table.c,
            n_q,
            &component.q_indices,
            &components.place_r,
            &component.r_indices,
        ),
        ct: extract_block(
            &table.ct,
            n_r,
            &component.r_indices,
            &components.place_q,
            &component.q_indices,
        ),
        diag_q: selected_values(&table.diag_q, &component.q_indices),
        diag_r: selected_values(&table.diag_r, &component.r_indices),
    }
}

/// A table with one component is that component's part of itself.
pub proof fn law_single_component_is_whole<T>(
    table: CrossTab<T>,
    components: Components,
)
    requires
        table.wf(),
        n_vertices(table) <= usize::MAX,
        crate::domain::cross_tab::columns_in_range(table),
        table.c.indptr@[0] == 0,
        table.c.indptr@.last() == table.c.indices@.len(),
        table.ct.indptr@[0] == 0,
        table.ct.indptr@.last() == table.ct.indices@.len(),
        are_components(table, components),
        components.list@.len() == 1,
    ensures
        is_table_part(table, components.list@[0], table),
{
    let labels = choose|labels: Seq<usize>| #[trigger]
        are_labelled_components(table, labels, components);
    let n_q = table.diag_q@.len() as int;
    let component = components.list@[0];
    assert(is_component(labels, n_q, 0, component));
    assert forall|v: int| 0 <= v < labels.len() implies #[trigger] labels[v] == 0 by {
        assert(labels[v] < 1);
    }
    lemma_lists_everything(component.q_indices@, labels.take(n_q));
    lemma_lists_everything(component.r_indices@, labels.skip(n_q));
    assert(table.diag_q@ =~= Seq::new(
        component.q_indices@.len(),
        |a: int| table.diag_q@[component.q_indices@[a] as int],
    ));
    assert(table.diag_r@ =~= Seq::new(
        component.r_indices@.len(),
        |b: int| table.diag_r@[component.r_indices@[b] as int],
    ));
    lemma_block_is_own_part(table.c, component.q_indices@, component.r_indices@);
    lemma_block_is_own_part(table.ct, component.r_indices@, component.q_indices@);
}

proof fn lemma_lists_everything(indices: Seq<usize>, labels: Seq<usize>)
    requires
        lists_label(indices, labels, 0),
        forall|k: int| 0 <= k < labels.len() ==> #[trigger] labels[k] == 0,
        labels.len() <= usize::MAX,
    ensures
        indices.len() == labels.len(),
        forall|i: int| 0 <= i < indices.len() ==> #[trigger] indices[i] == i,
{
    assert forall|i: int| 0 <= i < indices.len() implies #[trigger] indices[i] == i by {
        lemma_no_gap(indices, labels, i);
    }
    let m = indices.len() as int;
    if m < labels.len() {
        assert(labels[m] == 0);
        let i = choose|i: int| 0 <= i < indices.len() && indices[i] == m as usize;
        assert(indices[i] == i);
    }
    if m > labels.len() {
        assert(indices[m - 1] < labels.len());
    }
}

proof fn lemma_no_gap(indices: Seq<usize>, labels: Seq<usize>, i: int)
    requires
        lists_label(indices, labels, 0),
        forall|k: int| 0 <= k < labels.len() ==> #[trigger] labels[k] == 0,
        labels.len() <= usize::MAX,
        0 <= i < indices.len(),
    ensures
        indices[i] == i,
    decreases i,
{
    lemma_ascending_length(indices, i);
    if i < indices[i] {
        assert(indices[i] < labels.len());
        assert(labels[i] == 0);
        let j = choose|j: int| 0 <= j < indices.len() && indices[j] == i as usize;
        if j < i {
            lemma_no_gap(indices, labels, j);
        } else if j > i {
            assert(indices[i] < indices[j]);
        }
    }
}

proof fn lemma_block_is_own_part<T>(block: CsrBlock<T>, rows: Seq<usize>, columns: Seq<usize>)
    requires
        block.wf(rows.len()),
        block.indptr@[0] == 0,
        block.indptr@.last() == block.indices@.len(),
        forall|i: int| 0 <= i < rows.len() ==> #[trigger] rows[i] == i,
        forall|i: int| 0 <= i < columns.len() ==> #[trigger] columns[i] == i,
        forall|e: int| 0 <= e < block.indices@.len() ==> #[trigger] block.indices@[e] < columns.len(),
    ensures
        is_block_part(block, rows, columns, block),
{
    assert forall|a: int| 0 <= a < rows.len() implies is_renamed_row(
        block.row(rows[a] as int),
        columns,
        #[trigger] block.row(a),
    ) by {
        let row = block.row(a);
        assert(rows[a] == a);
        assert(block.indptr@[a] <= block.indptr@[a + 1] <= block.indices@.len());
        assert forall|k: int| 0 <= k < row.len() implies (#[trigger] row[k]).0 < columns.len()
            && columns[row[k].0 as int] == row[k].0 by {
            assert(block.indices@[block.indptr@[a] + k] < columns.len());
        }
    }
}

} // verus!
