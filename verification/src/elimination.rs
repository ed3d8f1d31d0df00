//! Block-elimination metadata and star iteration for Schur complement assembly.
//!
//! For the bipartite system `[D_q, -C; -C^T, D_r]`, eliminating the larger
//! diagonal block (exact since it is diagonal) yields a reduced Laplacian-style
//! system on the smaller block. Each eliminated vertex contributes a clique on
//! its neighbours; a sampler replaces that clique by few edges.

pub mod meaning;

use vstd::prelude::*;

use crate::arithmetic::Arithmetic;
use crate::config::ApproxSchurConfig;
use crate::error::BuildError;
use crate::parallel::fold_reduce;

verus! {

/// Undirected fill edge: `(lo_col, hi_col, weight)`.
pub type Edge<T> = (u32, u32, T);

/// The columns an edge connects.
pub open spec fn edge_key<T>(edge: Edge<T>) -> (u32, u32) {
    (edge.0, edge.1)
}

/// Lexicographic order of column pairs.
pub open spec fn key_less(a: (u32, u32), b: (u32, u32)) -> bool {
    a.0 < b.0 || (a.0 == b.0 && a.1 < b.1)
}

/// Some edge connects `key`.
pub open spec fn has_key<T>(edges: Seq<Edge<T>>, key: (u32, u32)) -> bool {
    exists|i: int| 0 <= i < edges.len() && edge_key(#[trigger] edges[i]) == key
}

/// Keys strictly ascend, so none occurs twice.
pub open spec fn is_strictly_keyed<T>(edges: Seq<Edge<T>>) -> bool {
    forall|i: int, j: int|
        #![trigger edges[i], edges[j]]
        0 <= i < j < edges.len() ==> key_less(edge_key(edges[i]), edge_key(edges[j]))
}

/// The weights of the edges that connect `key`, in order.
pub open spec fn weights_of<T>(edges: Seq<Edge<T>>, key: (u32, u32)) -> Seq<T>
    decreases edges.len(),
{
    if edges.len() == 0 {
        Seq::empty()
    } else if edge_key(edges.last()) == key {
        weights_of(edges.drop_last(), key).push(edges.last().2)
    } else {
        weights_of(edges.drop_last(), key)
    }
}

/// `merged` has one edge per key of `edges`, in key order; its weight is a sum
/// of the weights of that key's edges.
pub open spec fn is_merge_of<T, A: Arithmetic<T>>(
    ops: A,
    edges: Seq<Edge<T>>,
    merged: Seq<Edge<T>>,
) -> bool {
    &&& is_strictly_keyed(merged)
    &&& forall|key: (u32, u32)| #[trigger] has_key(edges, key) <==> has_key(merged, key)
    &&& forall|i: int|
        0 <= i < merged.len() ==> is_merged_edge(ops, edges, #[trigger] merged[i])
}

/// The edge's weight is a sum of the weights that `edges` has for its key; a
/// single weight is kept as it is.
pub open spec fn is_merged_edge<T, A: Arithmetic<T>>(
    ops: A,
    edges: Seq<Edge<T>>,
    edge: Edge<T>,
) -> bool {
    let weights = weights_of(edges, edge_key(edge));
    &&& crate::arithmetic::is_sum_of(ops, weights.to_multiset(), edge.2)
    &&& weights.len() == 1 ==> edge.2 == weights[0]
}

// ---------------------------------------------------------------------------
// Weights by key
// ---------------------------------------------------------------------------

pub proof fn lemma_no_weights<T>(edges: Seq<Edge<T>>, key: (u32, u32))
    requires
        !has_key(edges, key),
    ensures
        weights_of(edges, key) == Seq::<T>::empty(),
    decreases edges.len(),
{
    if edges.len() > 0 {
        assert(edge_key(edges[edges.len() - 1]) != key);
        let front = edges.drop_last();
        if has_key(front, key) {
            let i = choose|i: int| 0 <= i < front.len() && edge_key(#[trigger] front[i]) == key;
            assert(edge_key(edges[i]) == key);
        }
        lemma_no_weights(front, key);
    }
}

/// A key that occurs has a weight.
proof fn lemma_some_weight<T>(edges: Seq<Edge<T>>, key: (u32, u32))
    requires
        has_key(edges, key),
    ensures
        weights_of(edges, key).len() >= 1,
    decreases edges.len(),
{
    let i = choose|i: int| 0 <= i < edges.len() && edge_key(#[trigger] edges[i]) == key;
    if i < edges.len() - 1 {
        assert(edge_key(edges.drop_last()[i]) == key);
        lemma_some_weight(edges.drop_last(), key);
    }
}

/// In a strictly keyed list every key has its one weight.
pub proof fn lemma_single_weight<T>(edges: Seq<Edge<T>>, i: int)
    requires
        is_strictly_keyed(edges),
        0 <= i < edges.len(),
    ensures
        weights_of(edges, edge_key(edges[i])) == seq![edges[i].2],
    decreases edges.len(),
{
    let key = edge_key(edges[i]);
    let front = edges.drop_last();
    let last = edges.len() - 1;
    assert(is_strictly_keyed(front)) by {
        assert forall|k: int, l: int|
            #![trigger front[k], front[l]]
            0 <= k < l < front.len() implies key_less(edge_key(front[k]), edge_key(front[l])) by {
            assert(key_less(edge_key(edges[k]), edge_key(edges[l])));
        }
    }
    if i < last {
        assert(key_less(edge_key(edges[i]), edge_key(edges[last])));
        lemma_single_weight(front, i);
        assert(front[i] == edges[i]);
    } else {
        if has_key(front, key) {
            let k = choose|k: int| 0 <= k < front.len() && edge_key(#[trigger] front[k]) == key;
            assert(key_less(edge_key(edges[k]), edge_key(edges[last])));
        }
        lemma_no_weights(front, key);
        assert(weights_of(edges, key) =~= seq![edges[i].2]);
    }
}

/// Two strictly keyed lists with the same keys have them at the same places.
proof fn lemma_same_keys<T>(a: Seq<Edge<T>>, b: Seq<Edge<T>>, i: int)
    requires
        is_strictly_keyed(a),
        is_strictly_keyed(b),
        forall|key: (u32, u32)| #[trigger] has_key(a, key) <==> has_key(b, key),
        0 <= i < a.len(),
    ensures
        i < b.len(),
        edge_key(a[i]) == edge_key(b[i]),
    decreases i,
{
    if i > 0 {
        lemma_same_keys(a, b, i - 1);
    }
    assert(has_key(a, edge_key(a[i])));
    assert(has_key(b, edge_key(a[i])));
    let j = choose|j: int| 0 <= j < b.len() && edge_key(#[trigger] b[j]) == edge_key(a[i]);
    if j < i {
        lemma_same_keys(a, b, j);
        assert(key_less(edge_key(a[j]), edge_key(a[i])));
    } else if i < j {
        assert(key_less(edge_key(b[i]), edge_key(b[j])));
        assert(has_key(b, edge_key(b[i])));
        assert(has_key(a, edge_key(b[i])));
        let l = choose|l: int| 0 <= l < a.len() && edge_key(#[trigger] a[l]) == edge_key(b[i]);
        if l < i {
            lemma_same_keys(a, b, l);
            assert(key_less(edge_key(b[l]), edge_key(b[i])));
        } else if i < l {
            assert(key_less(edge_key(a[i]), edge_key(a[l])));
        }
    }
}

/// Strictly keyed lists with the same keys are as long as each other.
proof fn lemma_same_length<T>(a: Seq<Edge<T>>, b: Seq<Edge<T>>)
    requires
        is_strictly_keyed(a),
        is_strictly_keyed(b),
        forall|key: (u32, u32)| #[trigger] has_key(a, key) <==> has_key(b, key),
    ensures
        a.len() == b.len(),
{
    if a.len() > 0 {
        lemma_same_keys(a, b, a.len() - 1);
    }
    if b.len() > 0 {
        lemma_same_keys(b, a, b.len() - 1);
    }
}

/// Sorting and merging once more changes nothing.
pub proof fn law_merge_is_idempotent<T, A: Arithmetic<T>>(
    ops: A,
    edges: Seq<Edge<T>>,
    once: Seq<Edge<T>>,
    twice: Seq<Edge<T>>,
)
    requires
        is_merge_of(ops, edges, once),
        is_merge_of(ops, once, twice),
    ensures
        twice == once,
{
    lemma_same_length(once, twice);
    assert forall|i: int| 0 <= i < once.len() implies once[i] == twice[i] by {
        lemma_same_keys(once, twice, i);
        lemma_single_weight(once, i);
        assert(is_merged_edge(ops, once, twice[i]));
    }
    assert(twice =~= once);
}

/// The sum of the two weights does not depend on their order.
pub open spec fn commute<T, A: Arithmetic<T>>(ops: A, a: T, b: T) -> bool {
    forall|r: T, s: T|
        #![trigger crate::arithmetic::plus_gives(ops, a, b, r), crate::arithmetic::plus_gives(ops, b, a, s)]
        crate::arithmetic::plus_gives(ops, a, b, r) && crate::arithmetic::plus_gives(ops, b, a, s)
            ==> r == s
}

/// The edge of a strictly keyed list is determined by its key.
proof fn lemma_one_edge_per_key<T>(edges: Seq<Edge<T>>, i: int, j: int)
    requires
        is_strictly_keyed(edges),
        0 <= i < edges.len(),
        0 <= j < edges.len(),
        edge_key(edges[i]) == edge_key(edges[j]),
    ensures
        i == j,
{
    if i < j {
        assert(key_less(edge_key(edges[i]), edge_key(edges[j])));
    }
    if j < i {
        assert(key_less(edge_key(edges[j]), edge_key(edges[i])));
    }
}

/// Two weights under one key, added in both orders.
spec fn are_both_sums<T, A: Arithmetic<T>>(
    ops: A,
    a: Seq<Edge<T>>,
    b: Seq<Edge<T>>,
    x: Edge<T>,
    y: Edge<T>,
    k: int,
    l: int,
) -> bool {
    &&& 0 <= k < a.len()
    &&& 0 <= l < b.len()
    &&& edge_key(a[k]) == edge_key(b[l])
    &&& crate::arithmetic::plus_gives(ops, a[k].2, b[l].2, x.2)
    &&& crate::arithmetic::plus_gives(ops, b[l].2, a[k].2, y.2)
}

/// Merging in either order gives the same keys, and the same edges but for
/// sums, which add the same two weights in either order.
proof fn lemma_merges_correspond<T, A: Arithmetic<T>>(
    ops: A,
    a: Seq<Edge<T>>,
    b: Seq<Edge<T>>,
    ab: Seq<Edge<T>>,
    ba: Seq<Edge<T>>,
)
    requires
        is_strictly_keyed(a),
        is_strictly_keyed(b),
        is_merge_of_two(ops, a, b, ab),
        is_merge_of_two(ops, b, a, ba),
    ensures
        ab.len() == ba.len(),
        forall|i: int|
            0 <= i < ab.len() ==> edge_key(#[trigger] ab[i]) == edge_key(ba[i]) && (ab[i] == ba[i]
                || exists|k: int, l: int| are_both_sums(ops, a, b, ab[i], ba[i], k, l)),
{
    assert forall|key: (u32, u32)| #[trigger] has_key(ab, key) <==> has_key(ba, key) by {
        assert(has_key(ba, key) <==> has_key(b, key) || has_key(a, key));
    }
    lemma_same_length(ab, ba);
    assert forall|i: int| 0 <= i < ab.len() implies edge_key(#[trigger] ab[i]) == edge_key(ba[i])
        && (ab[i] == ba[i] || exists|k: int, l: int|
        are_both_sums(ops, a, b, ab[i], ba[i], k, l)) by {
        lemma_same_keys(ab, ba, i);
        let x = ab[i];
        let y = ba[i];
        let key = edge_key(x);
        assert(comes_from(ops, a, b, x));
        assert(comes_from(ops, b, a, y));
        if !has_key(b, key) {
            let k = choose|k: int| 0 <= k < a.len() && #[trigger] a[k] == x;
            let l = choose|l: int| 0 <= l < a.len() && #[trigger] a[l] == y;
            lemma_not_from(ops, a, b, x);
            lemma_not_from(ops, a, b, y);
            lemma_one_edge_per_key(a, k, l);
        } else if !has_key(a, key) {
            lemma_not_from(ops, b, a, x);
            lemma_not_from(ops, b, a, y);
            let k = choose|k: int| 0 <= k < b.len() && #[trigger] b[k] == x;
            let l = choose|l: int| 0 <= l < b.len() && #[trigger] b[l] == y;
            lemma_one_edge_per_key(b, k, l);
        } else {
            let (k, l) = choose|k: int, l: int|
                #![trigger a[k], b[l]]
                0 <= k < a.len() && 0 <= l < b.len() && edge_key(a[k]) == key && edge_key(b[l])
                    == key && crate::arithmetic::plus_gives(ops, a[k].2, b[l].2, x.2);
            let (m, n) = choose|m: int, n: int|
                #![trigger b[m], a[n]]
                0 <= m < b.len() && 0 <= n < a.len() && edge_key(b[m]) == key && edge_key(a[n])
                    == key && crate::arithmetic::plus_gives(ops, b[m].2, a[n].2, y.2);
            lemma_one_edge_per_key(a, k, n);
            lemma_one_edge_per_key(b, l, m);
            assert(are_both_sums(ops, a, b, x, y, k, l));
        }
    }
}

/// Where the weights to be added commute, so does merging two lists.
pub proof fn law_merge_of_two_is_commutative<T, A: Arithmetic<T>>(
    ops: A,
    a: Seq<Edge<T>>,
    b: Seq<Edge<T>>,
    ab: Seq<Edge<T>>,
    ba: Seq<Edge<T>>,
)
    requires
        is_strictly_keyed(a),
        is_strictly_keyed(b),
        forall|k: int, l: int|
            #![trigger a[k], b[l]]
            0 <= k < a.len() && 0 <= l < b.len() && edge_key(a[k]) == edge_key(b[l]) ==> commute(
                ops,
                a[k].2,
                b[l].2,
            ),
        is_merge_of_two(ops, a, b, ab),
        is_merge_of_two(ops, b, a, ba),
    ensures
        ab == ba,
{
    lemma_merges_correspond(ops, a, b, ab, ba);
    assert forall|i: int| 0 <= i < ab.len() implies ab[i] == ba[i] by {
        assert(edge_key(ab[i]) == edge_key(ba[i]));
        if ab[i] != ba[i] {
            let (k, l) = choose|k: int, l: int| are_both_sums(ops, a, b, ab[i], ba[i], k, l);
            assert(commute(ops, a[k].2, b[l].2));
        }
    }
    assert(ab =~= ba);
}

/// With exact arithmetic, merging two lists in either order gives the same keys
/// with weights of the same value, whatever the weights.
pub proof fn law_merge_of_two_is_symmetric_in_value<T, A: Arithmetic<T>>(
    ops: A,
    value: spec_fn(T) -> real,
    a: Seq<Edge<T>>,
    b: Seq<Edge<T>>,
    ab: Seq<Edge<T>>,
    ba: Seq<Edge<T>>,
)
    requires
        crate::arithmetic::is_exact(ops, value),
        is_strictly_keyed(a),
        is_strictly_keyed(b),
        is_merge_of_two(ops, a, b, ab),
        is_merge_of_two(ops, b, a, ba),
    ensures
        ab.len() == ba.len(),
        forall|i: int|
            0 <= i < ab.len() ==> edge_key(#[trigger] ab[i]) == edge_key(ba[i]) && value(ab[i].2)
                == value(ba[i].2),
{
    lemma_merges_correspond(ops, a, b, ab, ba);
    assert forall|i: int| 0 <= i < ab.len() implies edge_key(#[trigger] ab[i]) == edge_key(ba[i])
        && value(ab[i].2) == value(ba[i].2) by {
        if ab[i] != ba[i] {
            let (k, l) = choose|k: int, l: int| are_both_sums(ops, a, b, ab[i], ba[i], k, l);
            assert(are_both_sums(ops, a, b, ab[i], ba[i], k, l));
        }
    }
}

/// An edge whose key `b` lacks is an edge of `a`, whichever way the two were merged.
proof fn lemma_not_from<T, A: Arithmetic<T>>(
    ops: A,
    a: Seq<Edge<T>>,
    b: Seq<Edge<T>>,
    edge: Edge<T>,
)
    requires
        !has_key(b, edge_key(edge)),
        comes_from(ops, a, b, edge) || comes_from(ops, b, a, edge),
    ensures
        exists|k: int| 0 <= k < a.len() && #[trigger] a[k] == edge,
{
    if exists|j: int| 0 <= j < b.len() && #[trigger] b[j] == edge {
        let j = choose|j: int| 0 <= j < b.len() && #[trigger] b[j] == edge;
        assert(has_key(b, edge_key(edge)));
    }
}

/// Merging with nothing changes nothing, on either side.
pub proof fn law_merge_with_nothing<T, A: Arithmetic<T>>(
    ops: A,
    a: Seq<Edge<T>>,
    merged: Seq<Edge<T>>,
)
    requires
        is_strictly_keyed(a),
        is_merge_of_two(ops, a, Seq::empty(), merged) || is_merge_of_two(
            ops,
            Seq::empty(),
            a,
            merged,
        ),
    ensures
        merged == a,
{
    let nothing = Seq::<Edge<T>>::empty();
    assert forall|key: (u32, u32)| #[trigger] has_key(merged, key) <==> has_key(a, key) by {
        assert(!has_key(nothing, key));
    }
    lemma_same_length(merged, a);
    assert forall|i: int| 0 <= i < merged.len() implies merged[i] == a[i] by {
        lemma_same_keys(merged, a, i);
        assert(!has_key(nothing, edge_key(merged[i])));
        assert(comes_from(ops, a, nothing, merged[i]) || comes_from(ops, nothing, a, merged[i]));
        lemma_not_from(ops, a, nothing, merged[i]);
        let k = choose|k: int| 0 <= k < a.len() && #[trigger] a[k] == merged[i];
        lemma_one_edge_per_key(a, k, i);
    }
    assert(merged =~= a);
}

pub proof fn lemma_weights_of_concat<T>(a: Seq<Edge<T>>, b: Seq<Edge<T>>, key: (u32, u32))
    ensures
        weights_of(a + b, key) == weights_of(a, key) + weights_of(b, key),
    decreases b.len(),
{
    if b.len() == 0 {
        assert(a + b =~= a);
        assert(weights_of(a, key) + weights_of(b, key) =~= weights_of(a, key));
    } else {
        lemma_weights_of_concat(a, b.drop_last(), key);
        assert((a + b).drop_last() =~= a + b.drop_last());
        assert((a + b).last() == b.last());
        assert(weights_of(a + b, key) =~= weights_of(a, key) + weights_of(b, key));
    }
}

proof fn lemma_has_key_concat<T>(a: Seq<Edge<T>>, b: Seq<Edge<T>>, key: (u32, u32))
    ensures
        has_key(a + b, key) <==> has_key(a, key) || has_key(b, key),
{
    if has_key(a, key) {
        let i = choose|i: int| 0 <= i < a.len() && edge_key(#[trigger] a[i]) == key;
        assert(edge_key((a + b)[i]) == key);
    }
    if has_key(b, key) {
        let i = choose|i: int| 0 <= i < b.len() && edge_key(#[trigger] b[i]) == key;
        assert(edge_key((a + b)[a.len() + i]) == key);
    }
    if has_key(a + b, key) {
        let i = choose|i: int| 0 <= i < (a + b).len() && edge_key(#[trigger] (a + b)[i]) == key;
        if i < a.len() {
            assert(edge_key(a[i]) == key);
        } else {
            assert(edge_key(b[i - a.len()]) == key);
        }
    }
}

/// Taking one edge out takes its weight out.
proof fn lemma_weights_of_remove<T>(edges: Seq<Edge<T>>, i: int, key: (u32, u32))
    requires
        0 <= i < edges.len(),
    ensures
        weights_of(edges, key).to_multiset() == if edge_key(edges[i]) == key {
            weights_of(edges.remove(i), key).to_multiset().insert(edges[i].2)
        } else {
            weights_of(edges.remove(i), key).to_multiset()
        },
    decreases edges.len(),
{
    broadcast use vstd::seq_lib::group_to_multiset_ensures;

    let rest = edges.remove(i);
    if i == edges.len() - 1 {
        assert(rest =~= edges.drop_last());
    } else {
        lemma_weights_of_remove(edges.drop_last(), i, key);
        assert(rest.drop_last() =~= edges.drop_last().remove(i));
        assert(rest.last() == edges.last());
        let a = weights_of(edges.drop_last(), key);
        let b = weights_of(edges.drop_last().remove(i), key);
        if edge_key(edges.last()) == key {
            assert(a.push(edges.last().2).to_multiset() =~= a.to_multiset().insert(
                edges.last().2,
            ));
            assert(b.push(edges.last().2).to_multiset() =~= b.to_multiset().insert(
                edges.last().2,
            ));
            if edge_key(edges[i]) == key {
                assert(b.to_multiset().insert(edges[i].2).insert(edges.last().2)
                    =~= b.to_multiset().insert(edges.last().2).insert(edges[i].2));
            }
        }
    }
}

/// Rearranging the edges rearranges each key's weights.
proof fn lemma_weights_of_permutation<T>(a: Seq<Edge<T>>, b: Seq<Edge<T>>, key: (u32, u32))
    requires
        a.to_multiset() == b.to_multiset(),
    ensures
        weights_of(a, key).to_multiset() == weights_of(b, key).to_multiset(),
    decreases a.len(),
{
    broadcast use vstd::seq_lib::group_to_multiset_ensures;

    assert(a.to_multiset().len() == a.len());
    assert(b.to_multiset().len() == b.len());
    if a.len() > 0 {
        let last = a.last();
        let i = a.len() - 1;
        assert(a[i] == last);
        assert(a.contains(last));
        assert(b.to_multiset().count(last) > 0);
        assert(b.contains(last));
        let j = choose|j: int| 0 <= j < b.len() && b[j] == last;
        assert(a.remove(i).to_multiset() == a.to_multiset().remove(a[i]));
        assert(b.remove(j).to_multiset() == b.to_multiset().remove(b[j]));
        lemma_weights_of_remove(a, i, key);
        lemma_weights_of_remove(b, j, key);
        lemma_weights_of_permutation(a.remove(i), b.remove(j), key);
    } else {
        assert(b.len() == 0);
        assert(weights_of(a, key) =~= weights_of(b, key));
    }
}

proof fn lemma_has_key_permutation<T>(a: Seq<Edge<T>>, b: Seq<Edge<T>>, key: (u32, u32))
    requires
        a.to_multiset() == b.to_multiset(),
        has_key(a, key),
    ensures
        has_key(b, key),
{
    broadcast use vstd::seq_lib::group_to_multiset_ensures;

    let i = choose|i: int| 0 <= i < a.len() && edge_key(#[trigger] a[i]) == key;
    assert(a.contains(a[i]));
    assert(b.to_multiset().count(a[i]) > 0);
    assert(b.contains(a[i]));
    let j = choose|j: int| 0 <= j < b.len() && b[j] == a[i];
    assert(edge_key(b[j]) == key);
}

/// Merging does not depend on the order in which the edges come.
proof fn lemma_merge_of_permutation<T, A: Arithmetic<T>>(
    ops: A,
    a: Seq<Edge<T>>,
    b: Seq<Edge<T>>,
    merged: Seq<Edge<T>>,
)
    requires
        a.to_multiset() == b.to_multiset(),
        is_merge_of(ops, a, merged),
    ensures
        is_merge_of(ops, b, merged),
{
    assert forall|key: (u32, u32)| #[trigger] has_key(b, key) <==> has_key(merged, key) by {
        if has_key(b, key) {
            lemma_has_key_permutation(b, a, key);
        }
        if has_key(merged, key) {
            assert(has_key(a, key));
            lemma_has_key_permutation(a, b, key);
        }
    }
    assert forall|i: int| 0 <= i < merged.len() implies is_merged_edge(
        ops,
        b,
        #[trigger] merged[i],
    ) by {
        broadcast use vstd::seq_lib::group_to_multiset_ensures;

        assert(is_merged_edge(ops, a, merged[i]));
        lemma_weights_of_permutation(a, b, edge_key(merged[i]));
        let wa = weights_of(a, edge_key(merged[i]));
        let wb = weights_of(b, edge_key(merged[i]));
        assert(wa.to_multiset().len() == wb.to_multiset().len());
        if wb.len() == 1 {
            assert(wb.contains(wb[0]));
            assert(wa.to_multiset().count(wb[0]) > 0);
            assert(wa.contains(wb[0]));
        }
    }
}

// ---------------------------------------------------------------------------
// Sorting and merging
// ---------------------------------------------------------------------------

/// The columns an edge connects.
fn key_of<T: Copy>(edge: &Edge<T>) -> (key: (u32, u32))
    ensures
        key == edge_key(*edge),
{
    (edge.0, edge.1)
}

/// [`slice::sort_unstable_by_key`], sorting edges by the columns they connect.
///
/// The sort only rearranges; the order among edges with the same columns is
/// left open.
#[verifier::external_body]
pub(crate) fn sort_unstable_by_columns<T: Copy>(edges: &mut Vec<Edge<T>>)
    ensures
        final(edges)@.to_multiset() == old(edges)@.to_multiset(),
        forall|i: int, j: int|
            #![trigger final(edges)@[i], final(edges)@[j]]
            0 <= i < j < final(edges)@.len() ==> !key_less(
                edge_key(final(edges)@[j]),
                edge_key(final(edges)@[i]),
            ),
{
    edges.sort_unstable_by_key(|edge| key_of(edge));
}

/// Sort edges by `(lo, hi)` and merge duplicates by summing weights.
pub fn sort_and_dedup<T: Copy, A: Arithmetic<T>>(edges: &mut Vec<Edge<T>>, ops: &A)
    ensures
        is_merge_of(*ops, old(edges)@, final(edges)@),
        final(edges)@.len() <= old(edges)@.len(),
{
    broadcast use vstd::seq_lib::group_to_multiset_ensures;

    let ghost before = edges@;
    sort_unstable_by_columns(edges);
    let ghost sorted = edges@;
    assert(sorted.to_multiset().len() == before.to_multiset().len());
    if edges.len() == 0 {
        proof {
            assert(is_merge_of(*ops, sorted, edges@));
            lemma_merge_of_permutation(*ops, sorted, before, edges@);
        }
        return ;
    }
    proof {
        lemma_merge_first(*ops, sorted);
    }
    let n: usize = edges.len();
    let mut write: usize = 0;
    for read in 1..n
        invariant
            n == sorted.len() == edges@.len(),
            write < read <= n,
            forall|i: int, j: int|
                #![trigger sorted[i], sorted[j]]
                0 <= i < j < sorted.len() ==> !key_less(edge_key(sorted[j]), edge_key(sorted[i])),
            forall|k: int| read <= k < n ==> #[trigger] edges@[k] == sorted[k],
            is_merge_of(*ops, sorted.take(read as int), edges@.take(write + 1)),
            edge_key(edges@[write as int]) == edge_key(sorted[read - 1]),
    {
        let ghost merged = edges@.take(write + 1);
        let last: Edge<T> = edges[write];
        let next: Edge<T> = edges[read];
        if last.0 == next.0 && last.1 == next.1 {
            let weight: T = ops.plus(last.2, next.2);
            edges.set(write, (last.0, last.1, weight));
            proof {
                lemma_merge_step_same(*ops, sorted, read as int, merged, weight);
                assert(edges@.take(write + 1) =~= merged.update(
                    write as int,
                    (last.0, last.1, weight),
                ));
            }
        } else {
            write = write + 1;
            edges.set(write, next);
            proof {
                lemma_merge_step_new(*ops, sorted, read as int, merged);
                assert(edges@.take(write + 1) =~= merged.push(next));
            }
        }
    }
    edges.truncate(write + 1);
    proof {
        assert(sorted.take(n as int) =~= sorted);
        lemma_merge_of_permutation(*ops, sorted, before, edges@);
    }
}

/// The first edge alone is merged.
proof fn lemma_merge_first<T, A: Arithmetic<T>>(ops: A, sorted: Seq<Edge<T>>)
    requires
        sorted.len() > 0,
    ensures
        is_merge_of(ops, sorted.take(1), sorted.take(1)),
{
    broadcast use vstd::seq_lib::group_to_multiset_ensures;

    let one = sorted.take(1);
    let key = edge_key(one[0]);
    assert(one.drop_last() =~= Seq::empty());
    assert(weights_of(one.drop_last(), key) =~= Seq::empty());
    assert(weights_of(one, key) =~= Seq::empty().push(one[0].2));
    assert(Seq::<T>::empty().to_multiset() =~= vstd::multiset::Multiset::empty());
    assert(weights_of(one, key).to_multiset() =~= vstd::multiset::Multiset::singleton(one[0].2));
    crate::arithmetic::lemma_sum_of_one(ops, one[0].2);
    assert(is_merged_edge(ops, one, one[0]));
}

proof fn lemma_has_key_take<T>(sorted: Seq<Edge<T>>, read: int, key: (u32, u32))
    requires
        0 <= read < sorted.len(),
    ensures
        has_key(sorted.take(read + 1), key) <==> has_key(sorted.take(read), key) || edge_key(
            sorted[read],
        ) == key,
{
    let before = sorted.take(read);
    let after = sorted.take(read + 1);
    assert(after =~= before.push(sorted[read]));
    if has_key(before, key) {
        let i = choose|i: int| 0 <= i < before.len() && edge_key(#[trigger] before[i]) == key;
        assert(edge_key(after[i]) == key);
    }
    if edge_key(sorted[read]) == key {
        assert(edge_key(after[read]) == key);
    }
    if has_key(after, key) {
        let i = choose|i: int| 0 <= i < after.len() && edge_key(#[trigger] after[i]) == key;
        if i < read {
            assert(edge_key(before[i]) == key);
        }
    }
}

/// Folding an edge into the last merged edge.
proof fn lemma_merge_step_same<T, A: Arithmetic<T>>(
    ops: A,
    sorted: Seq<Edge<T>>,
    read: int,
    merged: Seq<Edge<T>>,
    weight: T,
)
    requires
        0 < read < sorted.len(),
        merged.len() > 0,
        is_merge_of(ops, sorted.take(read), merged),
        edge_key(merged.last()) == edge_key(sorted[read]),
        crate::arithmetic::plus_gives(ops, merged.last().2, sorted[read].2, weight),
    ensures
        is_merge_of(
            ops,
            sorted.take(read + 1),
            merged.update(merged.len() - 1, (merged.last().0, merged.last().1, weight)),
        ),
{
    let before = sorted.take(read);
    let after = sorted.take(read + 1);
    assert(after.drop_last() =~= before);
    let last = merged.len() - 1;
    let edge = (merged.last().0, merged.last().1, weight);
    let updated = merged.update(last, edge);
    let key = edge_key(edge);
    assert forall|i: int| 0 <= i < updated.len() implies edge_key(#[trigger] updated[i])
        == edge_key(merged[i]) by {}
    assert forall|i: int, j: int|
        #![trigger updated[i], updated[j]]
        0 <= i < j < updated.len() implies key_less(edge_key(updated[i]), edge_key(updated[j])) by {
        assert(key_less(edge_key(merged[i]), edge_key(merged[j])));
    }
    assert forall|k: (u32, u32)| #[trigger] has_key(after, k) <==> has_key(updated, k) by {
        lemma_has_key_take(sorted, read, k);
        assert(has_key(before, k) <==> has_key(merged, k));
        if has_key(merged, k) {
            let i = choose|i: int| 0 <= i < merged.len() && edge_key(#[trigger] merged[i]) == k;
            assert(edge_key(updated[i]) == k);
        }
        if has_key(updated, k) {
            let i = choose|i: int| 0 <= i < updated.len() && edge_key(#[trigger] updated[i]) == k;
            assert(edge_key(merged[i]) == k);
        }
        if edge_key(sorted[read]) == k {
            assert(edge_key(updated[last]) == k);
        }
    }
    assert forall|i: int| 0 <= i < updated.len() implies is_merged_edge(
        ops,
        after,
        #[trigger] updated[i],
    ) by {
        assert(is_merged_edge(ops, before, merged[i]));
        if i == last {
            assert(edge_key(merged[last]) == key);
            assert(has_key(merged, key));
            assert(has_key(before, key));
            lemma_some_weight(before, key);
            crate::arithmetic::lemma_sum_plus_item(
                ops,
                weights_of(before, key),
                merged[last].2,
                sorted[read].2,
                weight,
            );
        } else {
            assert(key_less(edge_key(merged[i]), edge_key(merged[last])));
        }
    }
}

/// Appending an edge whose key is new.
proof fn lemma_merge_step_new<T, A: Arithmetic<T>>(
    ops: A,
    sorted: Seq<Edge<T>>,
    read: int,
    merged: Seq<Edge<T>>,
)
    requires
        0 < read < sorted.len(),
        merged.len() > 0,
        is_merge_of(ops, sorted.take(read), merged),
        edge_key(merged.last()) == edge_key(sorted[read - 1]),
        edge_key(merged.last()) != edge_key(sorted[read]),
        forall|i: int, j: int|
            #![trigger sorted[i], sorted[j]]
            0 <= i < j < sorted.len() ==> !key_less(edge_key(sorted[j]), edge_key(sorted[i])),
    ensures
        is_merge_of(ops, sorted.take(read + 1), merged.push(sorted[read])),
{
    broadcast use vstd::seq_lib::group_to_multiset_ensures;

    let before = sorted.take(read);
    let after = sorted.take(read + 1);
    assert(after.drop_last() =~= before);
    let edge = sorted[read];
    let key = edge_key(edge);
    let longer = merged.push(edge);
    assert(key_less(edge_key(sorted[read - 1]), key));
    assert(merged.last() == merged[merged.len() - 1]);
    assert forall|i: int, j: int|
        #![trigger longer[i], longer[j]]
        0 <= i < j < longer.len() implies key_less(edge_key(longer[i]), edge_key(longer[j])) by {
        if j < merged.len() {
            assert(key_less(edge_key(merged[i]), edge_key(merged[j])));
        } else if i < merged.len() - 1 {
            assert(key_less(edge_key(merged[i]), edge_key(merged[merged.len() - 1])));
        }
    }
    assert forall|k: (u32, u32)| #[trigger] has_key(after, k) <==> has_key(longer, k) by {
        lemma_has_key_take(sorted, read, k);
        assert(has_key(before, k) <==> has_key(merged, k));
        if has_key(merged, k) {
            let i = choose|i: int| 0 <= i < merged.len() && edge_key(#[trigger] merged[i]) == k;
            assert(edge_key(longer[i]) == k);
        }
        if edge_key(sorted[read]) == k {
            assert(edge_key(longer[merged.len() as int]) == k);
        }
        if has_key(longer, k) {
            let i = choose|i: int| 0 <= i < longer.len() && edge_key(#[trigger] longer[i]) == k;
            if i < merged.len() {
                assert(edge_key(merged[i]) == k);
            }
        }
    }
    assert(!has_key(before, key)) by {
        if has_key(before, key) {
            let i = choose|i: int| 0 <= i < before.len() && edge_key(#[trigger] before[i]) == key;
            assert(sorted[i] == before[i]);
            if i < read - 1 {
                assert(!key_less(edge_key(sorted[read - 1]), edge_key(sorted[i])));
            }
        }
    }
    lemma_no_weights(before, key);
    assert forall|i: int| 0 <= i < longer.len() implies is_merged_edge(
        ops,
        after,
        #[trigger] longer[i],
    ) by {
        if i < merged.len() {
            assert(is_merged_edge(ops, before, merged[i]));
            if i < merged.len() - 1 {
                assert(key_less(edge_key(merged[i]), edge_key(merged[merged.len() - 1])));
            }
        } else {
            assert(weights_of(after, key) =~= Seq::empty().push(edge.2));
            assert(Seq::<T>::empty().to_multiset() =~= vstd::multiset::Multiset::empty());
            assert(weights_of(after, key).to_multiset() =~= vstd::multiset::Multiset::singleton(
                edge.2,
            ));
            crate::arithmetic::lemma_sum_of_one(ops, edge.2);
        }
    }
}

/// `edge` is what merging two strictly keyed lists makes of its key.
pub open spec fn comes_from<T, A: Arithmetic<T>>(
    ops: A,
    a: Seq<Edge<T>>,
    b: Seq<Edge<T>>,
    edge: Edge<T>,
) -> bool {
    ||| (exists|i: int| 0 <= i < a.len() && #[trigger] a[i] == edge) && !has_key(b, edge_key(edge))
    ||| (exists|j: int| 0 <= j < b.len() && #[trigger] b[j] == edge) && !has_key(a, edge_key(edge))
    ||| exists|i: int, j: int|
        #![trigger a[i], b[j]]
        0 <= i < a.len() && 0 <= j < b.len() && edge_key(a[i]) == edge_key(edge) && edge_key(b[j])
            == edge_key(edge) && crate::arithmetic::plus_gives(ops, a[i].2, b[j].2, edge.2)
}

/// `merged` has the keys of both lists in order; where both have a key, their
/// weights are added, the left one first.
pub open spec fn is_merge_of_two<T, A: Arithmetic<T>>(
    ops: A,
    a: Seq<Edge<T>>,
    b: Seq<Edge<T>>,
    merged: Seq<Edge<T>>,
) -> bool {
    &&& is_strictly_keyed(merged)
    &&& forall|key: (u32, u32)| #[trigger]
        has_key(merged, key) <==> has_key(a, key) || has_key(b, key)
    &&& forall|i: int| 0 <= i < merged.len() ==> comes_from(ops, a, b, #[trigger] merged[i])
}

proof fn lemma_has_key_push<T>(edges: Seq<Edge<T>>, edge: Edge<T>, key: (u32, u32))
    ensures
        has_key(edges.push(edge), key) <==> has_key(edges, key) || edge_key(edge) == key,
{
    let longer = edges.push(edge);
    if has_key(edges, key) {
        let i = choose|i: int| 0 <= i < edges.len() && edge_key(#[trigger] edges[i]) == key;
        assert(edge_key(longer[i]) == key);
    }
    if edge_key(edge) == key {
        assert(edge_key(longer[edges.len() as int]) == key);
    }
    if has_key(longer, key) {
        let i = choose|i: int| 0 <= i < longer.len() && edge_key(#[trigger] longer[i]) == key;
        if i < edges.len() {
            assert(edge_key(edges[i]) == key);
        }
    }
}

/// No edge of a strictly keyed list has `key` if those before `split` are
/// below it and those from `split` on are above it.
proof fn lemma_key_skipped<T>(edges: Seq<Edge<T>>, split: int, key: (u32, u32))
    requires
        is_strictly_keyed(edges),
        0 <= split <= edges.len(),
        forall|l: int| 0 <= l < split ==> key_less(edge_key(#[trigger] edges[l]), key),
        split < edges.len() ==> key_less(key, edge_key(edges[split])),
    ensures
        !has_key(edges, key),
{
    if has_key(edges, key) {
        let i = choose|i: int| 0 <= i < edges.len() && edge_key(#[trigger] edges[i]) == key;
        if i > split {
            assert(key_less(edge_key(edges[split]), edge_key(edges[i])));
        }
    }
}

/// The first `ia` and `ib` edges have been merged.
spec fn is_partly_merged<T, A: Arithmetic<T>>(
    ops: A,
    a: Seq<Edge<T>>,
    b: Seq<Edge<T>>,
    ia: int,
    ib: int,
    merged: Seq<Edge<T>>,
) -> bool {
    &&& 0 <= ia <= a.len()
    &&& 0 <= ib <= b.len()
    &&& is_strictly_keyed(a)
    &&& is_strictly_keyed(b)
    &&& is_strictly_keyed(merged)
    &&& forall|key: (u32, u32)| #[trigger]
        has_key(merged, key) <==> has_key(a.take(ia), key) || has_key(b.take(ib), key)
    &&& forall|i: int| 0 <= i < merged.len() ==> comes_from(ops, a, b, #[trigger] merged[i])
    &&& forall|i: int|
        #![trigger merged[i]]
        0 <= i < merged.len() && ia < a.len() ==> key_less(edge_key(merged[i]), edge_key(a[ia]))
    &&& forall|i: int|
        #![trigger merged[i]]
        0 <= i < merged.len() && ib < b.len() ==> key_less(edge_key(merged[i]), edge_key(b[ib]))
}

proof fn lemma_taken_below<T, A: Arithmetic<T>>(
    ops: A,
    a: Seq<Edge<T>>,
    b: Seq<Edge<T>>,
    ia: int,
    ib: int,
    merged: Seq<Edge<T>>,
)
    requires
        is_partly_merged(ops, a, b, ia, ib, merged),
    ensures
        ia < a.len() ==> forall|l: int|
            0 <= l < ib ==> key_less(edge_key(#[trigger] b[l]), edge_key(a[ia])),
        ib < b.len() ==> forall|l: int|
            0 <= l < ia ==> key_less(edge_key(#[trigger] a[l]), edge_key(b[ib])),
{
    if ia < a.len() {
        assert forall|l: int| 0 <= l < ib implies key_less(
            edge_key(#[trigger] b[l]),
            edge_key(a[ia]),
        ) by {
            assert(edge_key(b.take(ib)[l]) == edge_key(b[l]));
            assert(has_key(b.take(ib), edge_key(b[l])));
            assert(has_key(merged, edge_key(b[l])));
            let i = choose|i: int|
                0 <= i < merged.len() && edge_key(#[trigger] merged[i]) == edge_key(b[l]);
            assert(key_less(edge_key(merged[i]), edge_key(a[ia])));
        }
    }
    if ib < b.len() {
        assert forall|l: int| 0 <= l < ia implies key_less(
            edge_key(#[trigger] a[l]),
            edge_key(b[ib]),
        ) by {
            assert(edge_key(a.take(ia)[l]) == edge_key(a[l]));
            assert(has_key(a.take(ia), edge_key(a[l])));
            assert(has_key(merged, edge_key(a[l])));
            let i = choose|i: int|
                0 <= i < merged.len() && edge_key(#[trigger] merged[i]) == edge_key(a[l]);
            assert(key_less(edge_key(merged[i]), edge_key(b[ib])));
        }
    }
}

/// Taking one edge from the left list, from the right list, or from both.
proof fn lemma_merge_advance<T, A: Arithmetic<T>>(
    ops: A,
    a: Seq<Edge<T>>,
    b: Seq<Edge<T>>,
    ia: int,
    ib: int,
    merged: Seq<Edge<T>>,
    edge: Edge<T>,
    take_a: bool,
    take_b: bool,
)
    requires
        is_partly_merged(ops, a, b, ia, ib, merged),
        take_a || take_b,
        take_a ==> ia < a.len() && edge_key(edge) == edge_key(a[ia]),
        take_b ==> ib < b.len() && edge_key(edge) == edge_key(b[ib]),
        !take_a && ia < a.len() ==> key_less(edge_key(edge), edge_key(a[ia])),
        !take_b && ib < b.len() ==> key_less(edge_key(edge), edge_key(b[ib])),
        take_a && !take_b ==> edge == a[ia],
        take_b && !take_a ==> edge == b[ib],
        take_a && take_b ==> crate::arithmetic::plus_gives(ops, a[ia].2, b[ib].2, edge.2),
    ensures
        is_partly_merged(
            ops,
            a,
            b,
            if take_a {
                ia + 1
            } else {
                ia
            },
            if take_b {
                ib + 1
            } else {
                ib
            },
            merged.push(edge),
        ),
{
    let key = edge_key(edge);
    let na = if take_a {
        ia + 1
    } else {
        ia
    };
    let nb = if take_b {
        ib + 1
    } else {
        ib
    };
    let longer = merged.push(edge);
    lemma_taken_below(ops, a, b, ia, ib, merged);
    if take_a {
        assert(a.take(ia + 1) =~= a.take(ia).push(a[ia]));
    }
    if take_b {
        assert(b.take(ib + 1) =~= b.take(ib).push(b[ib]));
    }
    assert forall|k: (u32, u32)| #[trigger] has_key(longer, k) <==> has_key(a.take(na), k)
        || has_key(b.take(nb), k) by {
        lemma_has_key_push(merged, edge, k);
        if take_a {
            lemma_has_key_push(a.take(ia), a[ia], k);
        }
        if take_b {
            lemma_has_key_push(b.take(ib), b[ib], k);
        }
        assert(has_key(merged, k) <==> has_key(a.take(ia), k) || has_key(b.take(ib), k));
    }
    if take_a && !take_b {
        lemma_key_skipped(b, ib, key);
        assert(a[ia] == edge);
    }
    if take_b && !take_a {
        lemma_key_skipped(a, ia, key);
        assert(b[ib] == edge);
    }
    assert(comes_from(ops, a, b, edge));
    assert forall|i: int| 0 <= i < longer.len() implies comes_from(
        ops,
        a,
        b,
        #[trigger] longer[i],
    ) by {
        if i < merged.len() {
            assert(comes_from(ops, a, b, merged[i]));
        }
    }
    assert forall|i: int, j: int|
        #![trigger longer[i], longer[j]]
        0 <= i < j < longer.len() implies key_less(edge_key(longer[i]), edge_key(longer[j])) by {
        if j < merged.len() {
            assert(key_less(edge_key(merged[i]), edge_key(merged[j])));
        } else {
            assert(longer[i] == merged[i]);
        }
    }
    assert forall|i: int|
        #![trigger longer[i]]
        0 <= i < longer.len() && na < a.len() implies key_less(
        edge_key(longer[i]),
        edge_key(a[na]),
    ) by {
        if take_a {
            assert(key_less(edge_key(a[ia]), edge_key(a[na])));
        }
        if i < merged.len() {
            assert(longer[i] == merged[i]);
        }
    }
    assert forall|i: int|
        #![trigger longer[i]]
        0 <= i < longer.len() && nb < b.len() implies key_less(
        edge_key(longer[i]),
        edge_key(b[nb]),
    ) by {
        if take_b {
            assert(key_less(edge_key(b[ib]), edge_key(b[nb])));
        }
        if i < merged.len() {
            assert(longer[i] == merged[i]);
        }
    }
}

/// Merge two sorted, deduplicated edge lists, summing weights for duplicates.
pub fn merge_dedup<T: Copy, A: Arithmetic<T>>(a: Vec<Edge<T>>, b: Vec<Edge<T>>, ops: &A) -> (merged:
    Vec<Edge<T>>)
    requires
        is_strictly_keyed(a@),
        is_strictly_keyed(b@),
    ensures
        is_merge_of_two(*ops, a@, b@, merged@),
{
    if a.len() == 0 {
        proof {
            assert forall|i: int| 0 <= i < b@.len() implies comes_from(
                *ops,
                a@,
                b@,
                #[trigger] b@[i],
            ) by {}
        }
        return b;
    }
    if b.len() == 0 {
        proof {
            assert forall|i: int| 0 <= i < a@.len() implies comes_from(
                *ops,
                a@,
                b@,
                #[trigger] a@[i],
            ) by {}
        }
        return a;
    }
    let mut result: Vec<Edge<T>> = Vec::with_capacity(a.len().saturating_add(b.len()));
    let mut ia: usize = 0;
    let mut ib: usize = 0;
    while ia < a.len() && ib < b.len()
        invariant
            is_partly_merged(*ops, a@, b@, ia as int, ib as int, result@),
        decreases a@.len() - ia + b@.len() - ib,
    {
        let ea: Edge<T> = a[ia];
        let eb: Edge<T> = b[ib];
        if ea.0 < eb.0 || (ea.0 == eb.0 && ea.1 < eb.1) {
            proof {
                lemma_merge_advance(
                    *ops,
                    a@,
                    b@,
                    ia as int,
                    ib as int,
                    result@,
                    ea,
                    true,
                    false,
                );
            }
            result.push(ea);
            ia = ia + 1;
        } else if eb.0 < ea.0 || (eb.0 == ea.0 && eb.1 < ea.1) {
            proof {
                lemma_merge_advance(
                    *ops,
                    a@,
                    b@,
                    ia as int,
                    ib as int,
                    result@,
                    eb,
                    false,
                    true,
                );
            }
            result.push(eb);
            ib = ib + 1;
        } else {
            let weight: T = ops.plus(ea.2, eb.2);
            let edge: Edge<T> = (ea.0, ea.1, weight);
            proof {
                lemma_merge_advance(
                    *ops,
                    a@,
                    b@,
                    ia as int,
                    ib as int,
                    result@,
                    edge,
                    true,
                    true,
                );
            }
            result.push(edge);
            ia = ia + 1;
            ib = ib + 1;
        }
    }
    while ia < a.len()
        invariant
            is_partly_merged(*ops, a@, b@, ia as int, ib as int, result@),
            ia < a@.len() ==> ib == b@.len(),
        decreases a@.len() - ia,
    {
        let ea: Edge<T> = a[ia];
        proof {
            lemma_merge_advance(*ops, a@, b@, ia as int, ib as int, result@, ea, true, false);
        }
        result.push(ea);
        ia = ia + 1;
    }
    while ib < b.len()
        invariant
            is_partly_merged(*ops, a@, b@, ia as int, ib as int, result@),
            ia == a@.len(),
        decreases b@.len() - ib,
    {
        let eb: Edge<T> = b[ib];
        proof {
            lemma_merge_advance(*ops, a@, b@, ia as int, ib as int, result@, eb, false, true);
        }
        result.push(eb);
        ib = ib + 1;
    }
    proof {
        assert(a@.take(a@.len() as int) =~= a@);
        assert(b@.take(b@.len() as int) =~= b@);
    }
    result
}

/// Merging two merged lists merges all their edges.
pub proof fn law_merge_is_compositional<T, A: Arithmetic<T>>(
    ops: A,
    x: Seq<Edge<T>>,
    y: Seq<Edge<T>>,
    a: Seq<Edge<T>>,
    b: Seq<Edge<T>>,
    merged: Seq<Edge<T>>,
)
    requires
        is_merge_of(ops, x, a),
        is_merge_of(ops, y, b),
        is_merge_of_two(ops, a, b, merged),
    ensures
        is_merge_of(ops, x + y, merged),
{
    assert forall|key: (u32, u32)| #[trigger] has_key(x + y, key) <==> has_key(merged, key) by {
        lemma_has_key_concat(x, y, key);
        assert(has_key(x, key) <==> has_key(a, key));
        assert(has_key(y, key) <==> has_key(b, key));
    }
    assert forall|i: int| 0 <= i < merged.len() implies is_merged_edge(
        ops,
        x + y,
        #[trigger] merged[i],
    ) by {
        let edge = merged[i];
        let key = edge_key(edge);
        assert(comes_from(ops, a, b, edge));
        lemma_weights_of_concat(x, y, key);
        let wx = weights_of(x, key);
        let wy = weights_of(y, key);
        vstd::seq_lib::lemma_multiset_commutative(wx, wy);
        assert(has_key(x, key) <==> has_key(a, key));
        assert(has_key(y, key) <==> has_key(b, key));
        if (exists|i: int| 0 <= i < a.len() && #[trigger] a[i] == edge) && !has_key(b, key) {
            let i = choose|i: int| 0 <= i < a.len() && #[trigger] a[i] == edge;
            assert(is_merged_edge(ops, x, a[i]));
            lemma_no_weights(y, key);
            assert(wx + wy =~= wx);
        } else if (exists|j: int| 0 <= j < b.len() && #[trigger] b[j] == edge) && !has_key(a, key) {
            let j = choose|j: int| 0 <= j < b.len() && #[trigger] b[j] == edge;
            assert(is_merged_edge(ops, y, b[j]));
            lemma_no_weights(x, key);
            assert(wx + wy =~= wy);
        } else {
            let (i, j) = choose|i: int, j: int|
                #![trigger a[i], b[j]]
                0 <= i < a.len() && 0 <= j < b.len() && edge_key(a[i]) == key && edge_key(b[j])
                    == key && crate::arithmetic::plus_gives(ops, a[i].2, b[j].2, edge.2);
            assert(is_merged_edge(ops, x, a[i]));
            assert(is_merged_edge(ops, y, b[j]));
            assert(has_key(a, key) && has_key(b, key));
            lemma_some_weight(x, key);
            lemma_some_weight(y, key);
            crate::arithmetic::lemma_sum_of_sums(
                ops,
                wx.to_multiset(),
                wy.to_multiset(),
                a[i].2,
                b[j].2,
                edge.2,
            );
        }
    }
}

/// With exact arithmetic, a merged edge weighs as much as all edges with its key.
pub proof fn law_merge_keeps_weight<T, A: Arithmetic<T>>(
    ops: A,
    value: spec_fn(T) -> real,
    edges: Seq<Edge<T>>,
    merged: Seq<Edge<T>>,
    i: int,
)
    requires
        crate::arithmetic::is_exact(ops, value),
        is_merge_of(ops, edges, merged),
        0 <= i < merged.len(),
    ensures
        value(merged[i].2) == crate::arithmetic::value_sum(
            value,
            weights_of(edges, edge_key(merged[i])),
        ),
{
    assert(is_merged_edge(ops, edges, merged[i]));
    let weights = weights_of(edges, edge_key(merged[i]));
    crate::arithmetic::law_sum_is_exact(ops, value, weights.to_multiset(), merged[i].2);
    crate::arithmetic::law_value_sum_ignores_order(value, weights);
}

// ---------------------------------------------------------------------------
// Block selection
// ---------------------------------------------------------------------------

/// Rectangular compressed-row block.
#[derive(Clone, Debug)]
pub struct CsrBlock<T> {
    /// Row `k` holds entries `indptr[k]..indptr[k + 1]`.
    pub indptr: Vec<usize>,
    /// Column of each entry.
    pub indices: Vec<u32>,
    /// Value of each entry.
    pub data: Vec<T>,
}

impl<T> CsrBlock<T> {
    /// The block has `n_rows` rows whose entries lie one after another.
    pub open spec fn wf(self, n_rows: nat) -> bool {
        &&& self.indptr@.len() == n_rows + 1
        &&& self.indices@.len() == self.data@.len()
        &&& forall|k: int|
            0 <= k < n_rows ==> #[trigger] self.indptr@[k] <= self.indptr@[k + 1]
        &&& forall|k: int| 0 <= k <= n_rows ==> #[trigger] self.indptr@[k] <= self.indices@.len()
    }

    /// The entries of row `k`, as column and value.
    pub open spec fn row(self, k: int) -> Seq<(u32, T)> {
        Seq::new(
            (self.indptr@[k + 1] - self.indptr@[k]) as nat,
            |e: int|
                (self.indices@[self.indptr@[k] + e], self.data@[self.indptr@[k] + e]),
        )
    }
}

/// Cross-tabulation of a factor pair: both orientations and both diagonals.
#[derive(Clone, Debug)]
pub struct CrossTab<T> {
    /// One row per level of the first factor.
    pub c: CsrBlock<T>,
    /// One row per level of the second factor.
    pub ct: CsrBlock<T>,
    /// Diagonal of the first factor's block.
    pub diag_q: Vec<T>,
    /// Diagonal of the second factor's block.
    pub diag_r: Vec<T>,
}

impl<T> CrossTab<T> {
    /// Each orientation has one row per diagonal entry.
    pub open spec fn wf(self) -> bool {
        self.c.wf(self.diag_q@.len()) && self.ct.wf(self.diag_r@.len())
    }

    /// Number of levels of the first factor.
    pub fn n_q(&self) -> (n: usize)
        ensures
            n == self.diag_q@.len(),
    {
        self.diag_q.len()
    }

    /// Number of levels of the second factor.
    pub fn n_r(&self) -> (n: usize)
        ensures
            n == self.diag_r@.len(),
    {
        self.diag_r.len()
    }
}

/// The reciprocals of a diagonal, or its first entry that is not positive.
pub open spec fn reciprocals_outcome<T, A: Arithmetic<T>>(
    ops: A,
    diagonal: Seq<T>,
    result: Result<Seq<T>, int>,
) -> bool {
    match result {
        Ok(inverse) => {
            &&& inverse.len() == diagonal.len()
            &&& forall|i: int|
                0 <= i < diagonal.len() ==> call_ensures(
                    A::is_positive,
                    (&ops, diagonal[i]),
                    true,
                ) && crate::arithmetic::reciprocal_gives(ops, diagonal[i], #[trigger] inverse[i])
        },
        Err(index) => {
            &&& 0 <= index < diagonal.len()
            &&& call_ensures(A::is_positive, (&ops, diagonal[index]), false)
            &&& forall|i: int|
                0 <= i < index ==> call_ensures(
                    A::is_positive,
                    (&ops, #[trigger] diagonal[i]),
                    true,
                )
        },
    }
}

/// Invert a diagonal, stopping at the first entry that is not positive.
fn reciprocals<T: Copy, A: Arithmetic<T>>(diagonal: &[T], ops: &A) -> (result: Result<
    Vec<T>,
    usize,
>)
    ensures
        reciprocals_outcome(
            *ops,
            diagonal@,
            match result {
                Ok(inverse) => Ok(inverse@),
                Err(index) => Err(index as int),
            },
        ),
{
    let mut inverse: Vec<T> = Vec::with_capacity(diagonal.len());
    for i in 0..diagonal.len()
        invariant
            inverse@.len() == i,
            forall|j: int|
                0 <= j < i ==> call_ensures(A::is_positive, (ops, #[trigger] diagonal@[j]), true),
            forall|j: int|
                0 <= j < i ==> crate::arithmetic::reciprocal_gives(
                    *ops,
                    diagonal@[j],
                    #[trigger] inverse@[j],
                ),
    {
        let d: T = diagonal[i];
        if !ops.is_positive(d) {
            return Err(i);
        }
        let one: T = ops.one();
        assert(crate::arithmetic::one_gives(*ops, one));
        inverse.push(ops.divide(one, d));
    }
    Ok(inverse)
}

/// Metadata from the block-elimination step needed by a local solver.
#[derive(Clone, Debug)]
pub struct EliminationInfo<T> {
    /// Reciprocals of the eliminated diagonal block.
    pub inv_diag_elim: Vec<T>,
    /// Whether the first factor's block was eliminated.
    pub eliminate_q: bool,
}

/// One eliminated vertex's neighbours in the keep-block.
#[derive(Clone, Copy, Debug)]
pub struct Star<'a, T> {
    /// Eliminated vertex index (used for deterministic seeding).
    pub index: usize,
    /// Neighbour columns in the keep-block.
    pub col_indices: &'a [u32],
    /// Edge weights to each neighbour.
    pub weights: &'a [T],
}

impl<'a, T> Star<'a, T> {
    /// The neighbours, as column and weight.
    pub open spec fn entries(self) -> Seq<(u32, T)> {
        Seq::new(self.col_indices@.len(), |j: int| (self.col_indices@[j], self.weights@[j]))
    }

    /// One weight per neighbour.
    pub open spec fn wf(self) -> bool {
        self.col_indices@.len() == self.weights@.len()
    }

    /// Number of neighbours.
    pub fn degree(&self) -> (n: usize)
        ensures
            n == self.col_indices@.len(),
    {
        self.col_indices.len()
    }
}

/// Block-selection decision and star iteration for Schur elimination.
#[derive(Clone, Debug)]
pub struct Elimination<'a, T> {
    /// Whether the first factor's block is eliminated.
    pub eliminate_q: bool,
    /// Size of the block that is kept.
    pub n_keep: usize,
    /// Size of the block that is eliminated.
    pub n_elim: usize,
    /// Reciprocals of the eliminated diagonal block.
    pub inv_diag_elim: Vec<T>,
    /// Diagonal of the block that is kept.
    pub diag_keep: &'a [T],
    /// One row per kept vertex.
    pub keep_to_elim: &'a CsrBlock<T>,
    /// One row per eliminated vertex.
    pub elim_to_keep: &'a CsrBlock<T>,
}

/// What selecting a block of the table for elimination gives.
///
/// The larger block is eliminated, the first factor's among equals; its diagonal
/// must be positive.
pub open spec fn elimination_outcome<'a, T: Copy, A: Arithmetic<T>>(
    ops: A,
    cross_tab: CrossTab<T>,
    result: Result<Elimination<'a, T>, BuildError>,
) -> bool {
    let eliminate_q = cross_tab.diag_q@.len() >= cross_tab.diag_r@.len();
    let diagonal = if eliminate_q {
        cross_tab.diag_q@
    } else {
        cross_tab.diag_r@
    };
    match result {
        Ok(elimination) => {
            &&& elimination.wf()
            &&& elimination.eliminate_q == eliminate_q
            &&& reciprocals_outcome(
                ops,
                diagonal,
                Ok(elimination.inv_diag_elim@),
            )
            &&& elimination.diag_keep@ == if eliminate_q {
                cross_tab.diag_r@
            } else {
                cross_tab.diag_q@
            }
            &&& *elimination.elim_to_keep == if eliminate_q {
                cross_tab.c
            } else {
                cross_tab.ct
            }
            &&& *elimination.keep_to_elim == if eliminate_q {
                cross_tab.ct
            } else {
                cross_tab.c
            }
        },
        Err(e) => {
            &&& e matches BuildError::SingularDiagonal { block, index }
            &&& reciprocals_outcome(ops, diagonal, Err(index as int))
            &&& block == if eliminate_q {
                "q (elim)"
            } else {
                "r (elim)"
            }
        },
    }
}

impl<'a, T: Copy> Elimination<'a, T> {
    /// The parts fit together.
    pub open spec fn wf(self) -> bool {
        &&& self.inv_diag_elim@.len() == self.n_elim
        &&& self.diag_keep@.len() == self.n_keep
        &&& self.elim_to_keep.wf(self.n_elim as nat)
        &&& self.keep_to_elim.wf(self.n_keep as nat)
        &&& self.n_keep <= self.n_elim
    }

    /// Select which block to eliminate and precompute inverse-diagonals.
    ///
    /// The larger block is eliminated, the first factor's among equals.
    pub fn new<A: Arithmetic<T>>(cross_tab: &'a CrossTab<T>, ops: &A) -> (result: Result<
        Elimination<'a, T>,
        BuildError,
    >)
        requires
            cross_tab.wf(),
        ensures
            elimination_outcome(*ops, *cross_tab, result),
    {
        let n_q: usize = cross_tab.n_q();
        let n_r: usize = cross_tab.n_r();
        let eliminate_q: bool = n_q >= n_r;
        let (n_keep, n_elim): (usize, usize) = if eliminate_q {
            (n_r, n_q)
        } else {
            (n_q, n_r)
        };
        let diag_elim: &[T] = if eliminate_q {
            cross_tab.diag_q.as_slice()
        } else {
            cross_tab.diag_r.as_slice()
        };
        let inv_diag_elim: Vec<T> = match reciprocals(diag_elim, ops) {
            Ok(inverse) => inverse,
            Err(index) => {
                let block: &'static str = if eliminate_q {
                    "q (elim)"
                } else {
                    "r (elim)"
                };
                return Err(BuildError::SingularDiagonal { block, index });
            },
        };
        let diag_keep: &[T] = if eliminate_q {
            cross_tab.diag_r.as_slice()
        } else {
            cross_tab.diag_q.as_slice()
        };
        let (keep_to_elim, elim_to_keep): (&CsrBlock<T>, &CsrBlock<T>) = if eliminate_q {
            (&cross_tab.ct, &cross_tab.c)
        } else {
            (&cross_tab.c, &cross_tab.ct)
        };
        Ok(
            Elimination {
                eliminate_q,
                n_keep,
                n_elim,
                inv_diag_elim,
                diag_keep,
                keep_to_elim,
                elim_to_keep,
            },
        )
    }

    /// View of eliminated vertex `k` and its neighbours.
    pub fn star(&self, k: usize) -> (star: Star<'_, T>)
        requires
            self.wf(),
            k < self.n_elim,
        ensures
            star.wf(),
            star.index == k,
            star.entries() == self.elim_to_keep.row(k as int),
    {
        assert(self.elim_to_keep.indptr@[k as int] <= self.elim_to_keep.indptr@[k + 1]);
        let start: usize = self.elim_to_keep.indptr[k];
        let end: usize = self.elim_to_keep.indptr[k + 1];
        let star = Star {
            index: k,
            col_indices: &self.elim_to_keep.indices[start..end],
            weights: &self.elim_to_keep.data[start..end],
        };
        assert(star.entries() =~= self.elim_to_keep.row(k as int));
        star
    }

    /// Package elimination metadata for the local solver.
    pub fn into_info(self) -> (info: EliminationInfo<T>)
        ensures
            info.inv_diag_elim == self.inv_diag_elim,
            info.eliminate_q == self.eliminate_q,
    {
        EliminationInfo { inv_diag_elim: self.inv_diag_elim, eliminate_q: self.eliminate_q }
    }
}

// ---------------------------------------------------------------------------
// Sampling
// ---------------------------------------------------------------------------

/// Source of sampled fill edges for the clique of a star.
pub trait CliqueSampler<T> {
    /// One sample per neighbour.
    fn sample(&self, entries: Vec<(u32, T)>, seed: u64) -> Vec<Edge<T>>;

    /// `split` samples per neighbour.
    fn sample_multi(&self, entries: Vec<(u32, T)>, split: u32, seed: u64) -> Vec<Edge<T>>;
}

/// Emits sampled clique-tree fill edges for every star.
#[derive(Clone, Copy, Debug)]
pub struct SampledCliqueEmitter {
    /// Base seed; each star adds its index.
    pub seed: u64,
    /// Edge split factor.
    pub split: u32,
}

/// `drawn` is an answer of the sampler for the star at `index`.
pub open spec fn is_draw<T, C: CliqueSampler<T>>(
    sampler: C,
    emitter: SampledCliqueEmitter,
    index: usize,
    given: Vec<(u32, T)>,
    drawn: Vec<Edge<T>>,
) -> bool {
    let seed = emitter.seed.wrapping_add(index as u64);
    if emitter.split <= 1 {
        call_ensures(C::sample, (&sampler, given, seed), drawn)
    } else {
        call_ensures(C::sample_multi, (&sampler, given, emitter.split, seed), drawn)
    }
}

/// `edges` is an answer of the sampler for the star at `index` with these entries.
pub open spec fn samples_to<T, C: CliqueSampler<T>>(
    sampler: C,
    emitter: SampledCliqueEmitter,
    index: usize,
    entries: Seq<(u32, T)>,
    edges: Seq<Edge<T>>,
) -> bool {
    exists|given: Vec<(u32, T)>, drawn: Vec<Edge<T>>|
        given@ == entries && drawn@ == edges && #[trigger] is_draw(
            sampler,
            emitter,
            index,
            given,
            drawn,
        )
}

impl SampledCliqueEmitter {
    /// An emitter with the configured seed and split factor.
    pub fn new(config: &ApproxSchurConfig) -> (emitter: Self)
        ensures
            emitter.seed == config.seed,
            emitter.split == config.split,
    {
        SampledCliqueEmitter { seed: config.seed, split: config.split }
    }

    /// Append the sampled fill edges of one star.
    pub fn emit<T: Copy, C: CliqueSampler<T>>(
        &self,
        star: &Star<'_, T>,
        sampler: &C,
        edges: &mut Vec<Edge<T>>,
    )
        requires
            star.wf(),
        ensures
            exists|drawn: Seq<Edge<T>>|
                #[trigger] samples_to(*sampler, *self, star.index, star.entries(), drawn)
                    && final(edges)@ == old(edges)@ + drawn,
    {
        let ghost before = edges@;
        let mut given: Vec<(u32, T)> = Vec::with_capacity(star.col_indices.len());
        for j in 0..star.col_indices.len()
            invariant
                star.wf(),
                given@ == star.entries().take(j as int),
        {
            given.push((star.col_indices[j], star.weights[j]));
            assert(given@ =~= star.entries().take(j + 1));
        }
        assert(star.entries().take(star.col_indices@.len() as int) =~= star.entries());
        let seed: u64 = self.seed.wrapping_add(star.index as u64);
        let ghost entries = given;
        let mut drawn: Vec<Edge<T>> = if self.split <= 1 {
            sampler.sample(given, seed)
        } else {
            sampler.sample_multi(given, self.split, seed)
        };
        proof {
            assert(is_draw(*sampler, *self, star.index, entries, drawn));
            assert(samples_to(*sampler, *self, star.index, star.entries(), drawn@));
        }
        edges.append(&mut drawn);
    }
}

/// What the stars `lo..hi` contribute: nothing for fewer than two neighbours,
/// an answer of the sampler otherwise.
pub open spec fn is_sampling<T, C: CliqueSampler<T>>(
    block: CsrBlock<T>,
    emitter: SampledCliqueEmitter,
    sampler: C,
    lo: int,
    hi: int,
    sampled: Seq<Seq<Edge<T>>>,
) -> bool {
    &&& sampled.len() == hi - lo
    &&& forall|k: int|
        #![trigger sampled[k - lo]]
        lo <= k < hi ==> if block.row(k).len() > 1 {
            samples_to(sampler, emitter, k as usize, block.row(k), sampled[k - lo])
        } else {
            sampled[k - lo] == Seq::<Edge<T>>::empty()
        }
}

/// `edges` collects a sampling of the stars `lo..hi`.
pub open spec fn is_collected<T, C: CliqueSampler<T>>(
    block: CsrBlock<T>,
    emitter: SampledCliqueEmitter,
    sampler: C,
    lo: int,
    hi: int,
    edges: Seq<Edge<T>>,
) -> bool {
    exists|sampled: Seq<Seq<Edge<T>>>| #[trigger]
        is_sampling(block, emitter, sampler, lo, hi, sampled) && edges == crate::concat::concat_all(sampled)
}

/// `edges` merges a sampling of the stars `lo..hi`.
pub open spec fn is_merged_sampling<T, A: Arithmetic<T>, C: CliqueSampler<T>>(
    ops: A,
    block: CsrBlock<T>,
    emitter: SampledCliqueEmitter,
    sampler: C,
    lo: int,
    hi: int,
    edges: Seq<Edge<T>>,
) -> bool {
    exists|sampled: Seq<Seq<Edge<T>>>| #[trigger]
        is_sampling(block, emitter, sampler, lo, hi, sampled) && is_merge_of(
            ops,
            crate::concat::concat_all(sampled),
            edges,
        )
}

/// `after` collects star `k` on top of whatever run of stars up to `k` `before` collects.
pub open spec fn collects_star<T, C: CliqueSampler<T>>(
    block: CsrBlock<T>,
    emitter: SampledCliqueEmitter,
    sampler: C,
    k: int,
    before: Seq<Edge<T>>,
    after: Seq<Edge<T>>,
) -> bool {
    forall|lo: int|
        lo <= k && #[trigger] is_collected(block, emitter, sampler, lo, k, before) ==> is_collected(
            block,
            emitter,
            sampler,
            lo,
            k + 1,
            after,
        )
}

proof fn lemma_collect_nothing<T, C: CliqueSampler<T>>(
    block: CsrBlock<T>,
    emitter: SampledCliqueEmitter,
    sampler: C,
    lo: int,
)
    ensures
        is_collected(block, emitter, sampler, lo, lo, Seq::empty()),
{
    let none = Seq::<Seq<Edge<T>>>::empty();
    assert(is_sampling(block, emitter, sampler, lo, lo, none));
    assert(crate::concat::concat_all(none) =~= Seq::empty());
}

proof fn lemma_collect_one<T, C: CliqueSampler<T>>(
    block: CsrBlock<T>,
    emitter: SampledCliqueEmitter,
    sampler: C,
    lo: int,
    hi: int,
    edges: Seq<Edge<T>>,
    drawn: Seq<Edge<T>>,
)
    requires
        lo <= hi,
        is_collected(block, emitter, sampler, lo, hi, edges),
        if block.row(hi).len() > 1 {
            samples_to(sampler, emitter, hi as usize, block.row(hi), drawn)
        } else {
            drawn == Seq::<Edge<T>>::empty()
        },
    ensures
        is_collected(block, emitter, sampler, lo, hi + 1, edges + drawn),
{
    let sampled = choose|sampled: Seq<Seq<Edge<T>>>| #[trigger]
        is_sampling(block, emitter, sampler, lo, hi, sampled) && edges == crate::concat::concat_all(sampled);
    let longer = sampled.push(drawn);
    assert forall|k: int|
        #![trigger longer[k - lo]]
        lo <= k < hi + 1 implies if block.row(k).len() > 1 {
        samples_to(sampler, emitter, k as usize, block.row(k), longer[k - lo])
    } else {
        longer[k - lo] == Seq::<Edge<T>>::empty()
    } by {
        if k < hi {
            assert(longer[k - lo] == sampled[k - lo]);
        }
    }
    assert(is_sampling(block, emitter, sampler, lo, hi + 1, longer));
    assert(longer.drop_last() =~= sampled);
}

/// A merged list and no edges at all make a merged list.
proof fn lemma_merge_with_nothing<T, A: Arithmetic<T>>(
    ops: A,
    edges: Seq<Edge<T>>,
    merged: Seq<Edge<T>>,
    result: Seq<Edge<T>>,
)
    requires
        is_merge_of(ops, edges, merged),
        is_merge_of_two(ops, Seq::empty(), merged, result),
    ensures
        is_merge_of(ops, edges, result),
{
    let none = Seq::<Edge<T>>::empty();
    assert forall|key: (u32, u32)| !#[trigger] has_key(none, key) by {}
    assert(is_merge_of(ops, none, none));
    law_merge_is_compositional(ops, none, edges, none, merged, result);
    assert(none + edges =~= edges);
}

proof fn lemma_merge_samplings<T, A: Arithmetic<T>, C: CliqueSampler<T>>(
    ops: A,
    block: CsrBlock<T>,
    emitter: SampledCliqueEmitter,
    sampler: C,
    lo: int,
    mid: int,
    hi: int,
    a: Seq<Edge<T>>,
    b: Seq<Edge<T>>,
    merged: Seq<Edge<T>>,
)
    requires
        lo <= mid <= hi,
        is_merged_sampling(ops, block, emitter, sampler, lo, mid, a),
        is_merged_sampling(ops, block, emitter, sampler, mid, hi, b),
        is_merge_of_two(ops, a, b, merged),
    ensures
        is_merged_sampling(ops, block, emitter, sampler, lo, hi, merged),
{
    let x = choose|sampled: Seq<Seq<Edge<T>>>| #[trigger]
        is_sampling(block, emitter, sampler, lo, mid, sampled) && is_merge_of(
            ops,
            crate::concat::concat_all(sampled),
            a,
        );
    let y = choose|sampled: Seq<Seq<Edge<T>>>| #[trigger]
        is_sampling(block, emitter, sampler, mid, hi, sampled) && is_merge_of(
            ops,
            crate::concat::concat_all(sampled),
            b,
        );
    let both = x + y;
    crate::concat::lemma_concat_all(x, y);
    assert forall|k: int|
        #![trigger both[k - lo]]
        lo <= k < hi implies if block.row(k).len() > 1 {
        samples_to(sampler, emitter, k as usize, block.row(k), both[k - lo])
    } else {
        both[k - lo] == Seq::<Edge<T>>::empty()
    } by {
        if k < mid {
            assert(both[k - lo] == x[k - lo]);
        } else {
            assert(both[k - lo] == y[k - mid]);
        }
    }
    assert(is_sampling(block, emitter, sampler, lo, hi, both));
    law_merge_is_compositional(ops, crate::concat::concat_all(x), crate::concat::concat_all(y), a, b, merged);
}

impl<'a, T: Copy> Elimination<'a, T> {
    /// Append the fill edges of eliminated vertex `k` to `edges`.
    fn emit_star<C: CliqueSampler<T>>(
        &self,
        emitter: &SampledCliqueEmitter,
        sampler: &C,
        edges: Vec<Edge<T>>,
        k: usize,
    ) -> (longer: Vec<Edge<T>>)
        requires
            self.wf(),
            k < self.n_elim,
        ensures
            collects_star(
                *self.elim_to_keep,
                *emitter,
                *sampler,
                k as int,
                edges@,
                longer@,
            ),
    {
        let ghost before = edges@;
        let mut edges = edges;
        let star = self.star(k);
        let ghost mut drawn = Seq::<Edge<T>>::empty();
        assert(star.entries().len() == star.col_indices@.len());
        if star.degree() > 1 {
            emitter.emit(&star, sampler, &mut edges);
            proof {
                drawn = choose|drawn: Seq<Edge<T>>|
                    #[trigger] samples_to(*sampler, *emitter, star.index, star.entries(), drawn)
                        && edges@ == before + drawn;
            }
        } else {
            assert(edges@ =~= before + drawn);
        }
        proof {
            assert forall|lo: int|
                lo <= k && #[trigger] is_collected(
                    *self.elim_to_keep,
                    *emitter,
                    *sampler,
                    lo,
                    k as int,
                    before,
                ) implies is_collected(
                *self.elim_to_keep,
                *emitter,
                *sampler,
                lo,
                k + 1,
                edges@,
            ) by {
                lemma_collect_one(
                    *self.elim_to_keep,
                    *emitter,
                    *sampler,
                    lo,
                    k as int,
                    before,
                    drawn,
                );
            }
        }
        edges
    }
}

/// Merge one run's edges.
fn merge_run<T: Copy, A: Arithmetic<T>>(edges: Vec<Edge<T>>, ops: &A) -> (merged: Vec<Edge<T>>)
    ensures
        is_merge_of(*ops, edges@, merged@),
{
    let mut edges = edges;
    sort_and_dedup(&mut edges, ops);
    edges
}

impl<'a, T: Copy + Send + Sync> Elimination<'a, T> {
    /// Sample the fill edges of all stars and merge them, in parallel.
    ///
    /// Each star is sampled with its own seed, so the drawn edges do not depend
    /// on how the stars are distributed over threads; the order in which equal
    /// edges are added up does.
    pub fn par_emit<A: Arithmetic<T> + Sync, C: CliqueSampler<T> + Sync>(
        &self,
        emitter: &SampledCliqueEmitter,
        sampler: &C,
        ops: &A,
    ) -> (edges: Vec<Edge<T>>)
        requires
            self.wf(),
        ensures
            is_merged_sampling(
                *ops,
                *self.elim_to_keep,
                *emitter,
                *sampler,
                0,
                self.n_elim as int,
                edges@,
            ),
    {
        let ghost block = *self.elim_to_keep;
        let ghost fold_ok = |lo: int, hi: int, edges: Vec<Edge<T>>|
            is_collected(block, *emitter, *sampler, lo, hi, edges@);
        let ghost reduce_ok = |lo: int, hi: int, edges: Vec<Edge<T>>|
            is_merged_sampling(*ops, block, *emitter, *sampler, lo, hi, edges@);
        let init = || -> (edges: Vec<Edge<T>>)
            ensures
                edges@.len() == 0,
            { Vec::new() };
        let step = |edges: Vec<Edge<T>>, k: usize| -> (longer: Vec<Edge<T>>)
            requires
                k < self.n_elim,
            ensures
                collects_star(
                    *self.elim_to_keep,
                    *emitter,
                    *sampler,
                    k as int,
                    edges@,
                    longer@,
                ),
            { self.emit_star(emitter, sampler, edges, k) };
        let finish = |edges: Vec<Edge<T>>| -> (merged: Vec<Edge<T>>)
            ensures
                is_merge_of(*ops, edges@, merged@),
            { merge_run(edges, ops) };
        let identity = || -> (edges: Vec<Edge<T>>)
            ensures
                edges@.len() == 0,
            { Vec::new() };
        let combine = |a: Vec<Edge<T>>, b: Vec<Edge<T>>| -> (merged: Vec<Edge<T>>)
            requires
                is_strictly_keyed(a@),
                is_strictly_keyed(b@),
            ensures
                is_merge_of_two(*ops, a@, b@, merged@),
            { merge_dedup(a, b, ops) };
        let fns = (init, step, finish, identity, combine);
        proof {
            assert forall|lo: int, u: Vec<Edge<T>>|
                0 <= lo <= self.n_elim && call_ensures(fns.0, (), u) implies #[trigger] fold_ok(
                lo,
                lo,
                u,
            ) by {
                assert(u@ =~= Seq::empty());
                lemma_collect_nothing(block, *emitter, *sampler, lo);
            }
            assert forall|lo: int, hi: int, u: Vec<Edge<T>>, m: Vec<Edge<T>>, z: Vec<Edge<T>>, r: Vec<Edge<T>>|
                #![trigger fold_ok(lo, hi, u), call_ensures(fns.2, (u,), m), call_ensures(fns.4, (z, m), r)]
                0 <= lo <= hi <= self.n_elim && fold_ok(lo, hi, u) && call_ensures(fns.2, (u,), m)
                    && call_ensures(fns.3, (), z) && call_ensures(
                    fns.4,
                    (z, m),
                    r,
                ) implies reduce_ok(lo, hi, r) by {
                assert(z@ =~= Seq::empty());
                let sampled = choose|sampled: Seq<Seq<Edge<T>>>| #[trigger]
                    is_sampling(block, *emitter, *sampler, lo, hi, sampled) && u@ == crate::concat::concat_all(
                        sampled,
                    );
                lemma_merge_with_nothing(*ops, u@, m@, r@);
            }
            assert forall|lo: int, mid: int, hi: int, a: Vec<Edge<T>>, b: Vec<Edge<T>>, r: Vec<Edge<T>>|
                #![trigger reduce_ok(lo, mid, a), reduce_ok(mid, hi, b), call_ensures(fns.4, (a, b), r)]
                0 <= lo <= mid <= hi <= self.n_elim && reduce_ok(lo, mid, a) && reduce_ok(
                    mid,
                    hi,
                    b,
                ) && call_ensures(fns.4, (a, b), r) implies reduce_ok(lo, hi, r) by {
                lemma_merge_samplings(
                    *ops,
                    block,
                    *emitter,
                    *sampler,
                    lo,
                    mid,
                    hi,
                    a@,
                    b@,
                    r@,
                );
            }
            assert forall|lo: int, i: usize, u: Vec<Edge<T>>, v: Vec<Edge<T>>|
                #![trigger fold_ok(lo, i as int, u), call_ensures(fns.1, (u, i), v)]
                0 <= lo <= i < self.n_elim && fold_ok(lo, i as int, u) && call_ensures(
                    fns.1,
                    (u, i),
                    v,
                ) implies fold_ok(lo, i + 1, v) by {
                assert(is_collected(*self.elim_to_keep, *emitter, *sampler, lo, i as int, u@));
                assert(is_collected(*self.elim_to_keep, *emitter, *sampler, lo, i + 1, v@));
            }
            assert forall|lo: int, hi: int, u: Vec<Edge<T>>, m: Vec<Edge<T>>, z: Vec<Edge<T>>|
                #![trigger fold_ok(lo, hi, u), call_ensures(fns.2, (u,), m), call_ensures(fns.3, (), z)]
                0 <= lo <= hi <= self.n_elim && fold_ok(lo, hi, u) && call_ensures(fns.2, (u,), m)
                    && call_ensures(fns.3, (), z) implies call_requires(fns.4, (z, m)) by {
                assert(is_merge_of(*ops, u@, m@));
            }
            assert forall|lo: int, mid: int, hi: int, a: Vec<Edge<T>>, b: Vec<Edge<T>>|
                #![trigger reduce_ok(lo, mid, a), reduce_ok(mid, hi, b)]
                0 <= lo <= mid <= hi <= self.n_elim && reduce_ok(lo, mid, a) && reduce_ok(
                    mid,
                    hi,
                    b,
                ) implies call_requires(fns.4, (a, b)) by {
                assert(is_strictly_keyed(a@));
                assert(is_strictly_keyed(b@));
            }
            assert(crate::parallel::is_kept(fns, self.n_elim, fold_ok, reduce_ok));
        }
        let edges = fold_reduce(self.n_elim, 1, fns, Ghost(fold_ok), Ghost(reduce_ok));
        assert(reduce_ok(0, self.n_elim as int, edges));
        edges
    }
}

/// A strictly keyed list is its own merge.
pub proof fn lemma_merged_with_itself<T, A: Arithmetic<T>>(ops: A, edges: Seq<Edge<T>>)
    requires
        is_strictly_keyed(edges),
    ensures
        is_merge_of(ops, edges, edges),
{
    broadcast use vstd::seq_lib::group_to_multiset_ensures;

    assert forall|i: int| 0 <= i < edges.len() implies is_merged_edge(
        ops,
        edges,
        #[trigger] edges[i],
    ) by {
        lemma_single_weight(edges, i);
        let one = seq![edges[i].2];
        let empty = Seq::<T>::empty();
        assert(one =~= empty.push(edges[i].2));
        assert(empty.to_multiset() =~= vstd::multiset::Multiset::<T>::empty()) by {
            assert(empty.to_multiset().len() == 0);
        }
        assert(one.to_multiset() =~= vstd::multiset::Multiset::<T>::singleton(edges[i].2));
        assert(crate::arithmetic::adds_up(ops, one.to_multiset(), edges[i].2, 0));
    }
}

} // verus!
