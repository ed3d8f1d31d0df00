//! What block elimination and star sampling are for.

use vstd::prelude::*;

use crate::arithmetic::Arithmetic;
use crate::elimination::{
    CliqueSampler, CrossTab, CsrBlock, Edge, Elimination, SampledCliqueEmitter, Star,
};
use crate::error::BuildError;

verus! {

// ---------------------------------------------------------------------------
// Sampling
// ---------------------------------------------------------------------------

/// `drawn` is an answer of the sampler for the entries: one sample per entry, or
/// `split` of them.
pub open spec fn answers<T, C: CliqueSampler<T>>(
    sampler: C,
    split: u32,
    seed: u64,
    given: Vec<(u32, T)>,
    drawn: Vec<Edge<T>>,
) -> bool {
    if split <= 1 {
        call_ensures(C::sample, (&sampler, given, seed), drawn)
    } else {
        call_ensures(C::sample_multi, (&sampler, given, split, seed), drawn)
    }
}

/// `given` lists every stored entry of row `k`, with its column and weight.
pub open spec fn lists_row<T>(block: CsrBlock<T>, k: int, given: Seq<(u32, T)>) -> bool {
    &&& given.len() == block.indptr@[k + 1] - block.indptr@[k]
    &&& forall|j: int|
        0 <= j < given.len() ==> (#[trigger] given[j]).0 == block.indices@[block.indptr@[k] + j]
            && given[j].1 == block.data@[block.indptr@[k] + j]
}

/// `drawn` is what star `k` contributes: nothing with fewer than two neighbours,
/// otherwise an answer of the sampler for all of them, under the star's own seed.
pub open spec fn is_star_draw<T, C: CliqueSampler<T>>(
    block: CsrBlock<T>,
    emitter: SampledCliqueEmitter,
    sampler: C,
    k: int,
    drawn: Seq<Edge<T>>,
) -> bool {
    if block.indptr@[k + 1] - block.indptr@[k] < 2 {
        drawn.len() == 0
    } else {
        exists|given: Vec<(u32, T)>, out: Vec<Edge<T>>| #[trigger]
            answers(
                sampler,
                emitter.split,
                ((emitter.seed + k) % 0x1_0000_0000_0000_0000) as u64,
                given,
                out,
            ) && out@ == drawn && lists_row(block, k, given@)
    }
}

/// One draw per star.
pub open spec fn are_star_draws<T, C: CliqueSampler<T>>(
    block: CsrBlock<T>,
    emitter: SampledCliqueEmitter,
    sampler: C,
    n_stars: int,
    draws: Seq<Seq<Edge<T>>>,
) -> bool {
    &&& draws.len() == n_stars
    &&& forall|k: int|
        0 <= k < n_stars ==> is_star_draw(block, emitter, sampler, k, #[trigger] draws[k])
}

/// The sum of the values of the edges that connect `a` and `b`.
pub open spec fn edge_total<T>(
    value: spec_fn(T) -> real,
    edges: Seq<Edge<T>>,
    a: u32,
    b: u32,
) -> real {
    crate::operator::laws::total(edges.len() as int, edge_value(value, edges, a, b))
}

/// The value of an edge that connects `a` and `b`, zero for any other.
pub open spec fn edge_value<T>(
    value: spec_fn(T) -> real,
    edges: Seq<Edge<T>>,
    a: u32,
    b: u32,
) -> spec_fn(int) -> real {
    |e: int|
        if edges[e].0 == a && edges[e].1 == b {
            value(edges[e].2)
        } else {
            0real
        }
}

/// Some draw has an edge between `a` and `b`.
pub open spec fn some_draw_has<T>(draws: Seq<Seq<Edge<T>>>, a: u32, b: u32) -> bool {
    exists|k: int, e: int|
        #![trigger draws[k][e]]
        0 <= k < draws.len() && 0 <= e < draws[k].len() && draws[k][e].0 == a && draws[k][e].1 == b
}

/// Every star of an elimination is sampled whole: the fill edges merge one draw
/// per eliminated vertex, and a star of two or more neighbours hands the sampler
/// every stored entry of its row. The fill edges connect exactly the pairs that
/// some draw connects, each pair once and in ascending order; with exact
/// arithmetic their weights are the sums of all the weights drawn.
pub proof fn law_stars_are_sampled_whole<'a, T: Copy, A: Arithmetic<T>, C: CliqueSampler<T>>(
    ops: A,
    elimination: Elimination<'a, T>,
    emitter: SampledCliqueEmitter,
    sampler: C,
    edges: Seq<Edge<T>>,
)
    requires
        elimination.wf(),
        crate::elimination::is_merged_sampling(
            ops,
            *elimination.elim_to_keep,
            emitter,
            sampler,
            0,
            elimination.n_elim as int,
            edges,
        ),
    ensures
        exists|draws: Seq<Seq<Edge<T>>>|
            #[trigger] are_star_draws(
                *elimination.elim_to_keep,
                emitter,
                sampler,
                elimination.n_elim as int,
                draws,
            ) && merges_draws(ops, draws, edges),
{
    let block = *elimination.elim_to_keep;
    let n = elimination.n_elim as int;
    let draws = choose|sampled: Seq<Seq<Edge<T>>>| #[trigger]
        crate::elimination::is_sampling(block, emitter, sampler, 0, n, sampled)
            && crate::elimination::is_merge_of(ops, crate::concat::concat_all(sampled), edges);
    assert forall|k: int| 0 <= k < n implies is_star_draw(
        block,
        emitter,
        sampler,
        k,
        #[trigger] draws[k],
    ) by {
        assert(draws[k - 0] == draws[k]);
        assert(block.indptr@[k] <= block.indptr@[k + 1]);
        let row = block.row(k);
        if row.len() > 1 {
            assert(crate::elimination::samples_to(sampler, emitter, k as usize, row, draws[k]));
            law_sampler_sees_every_neighbour(sampler, emitter, k as usize, row, draws[k]);
            let (given, out) = choose|given: Vec<(u32, T)>, out: Vec<Edge<T>>| #[trigger]
                answers(
                    sampler,
                    emitter.split,
                    ((emitter.seed + k) % 0x1_0000_0000_0000_0000) as u64,
                    given,
                    out,
                ) && out@ == draws[k] && given@.len() == row.len() && forall|j: int|
                    0 <= j < row.len() ==> (#[trigger] given@[j]).0 == row[j].0 && given@[j].1
                        == row[j].1;
            assert forall|j: int| 0 <= j < given@.len() implies (#[trigger] given@[j]).0
                == block.indices@[block.indptr@[k] + j] && given@[j].1
                == block.data@[block.indptr@[k] + j] by {
                assert(row[j] == (
                    block.indices@[block.indptr@[k] + j],
                    block.data@[block.indptr@[k] + j],
                ));
            }
            assert(lists_row(block, k, given@));
        }
    }
    assert(are_star_draws(block, emitter, sampler, n, draws));
    let all = crate::concat::concat_all(draws);
    assert forall|a: u32, b: u32| #[trigger] has_pair(edges, a, b) <==> some_draw_has(draws, a, b) by {
        lemma_pairs_of_draws(draws, a, b);
        assert(crate::elimination::has_key(all, (a, b)) <==> crate::elimination::has_key(
            edges,
            (a, b),
        ));
        lemma_has_pair(edges, a, b);
    }
    assert forall|i: int, j: int|
        #![trigger edges[i], edges[j]]
        0 <= i < j < edges.len() implies edges[i].0 < edges[j].0 || (edges[i].0 == edges[j].0
        && edges[i].1 < edges[j].1) by {}
    assert forall|value: spec_fn(T) -> real, i: int|
        #![trigger value(edges[i].2)]
        crate::arithmetic::is_exact(ops, value) && 0 <= i < edges.len() implies value(edges[i].2)
        == drawn_total(value, draws, edges[i].0, edges[i].1) by {
        crate::elimination::law_merge_keeps_weight(ops, value, all, edges, i);
        lemma_drawn_total(value, draws, edges[i].0, edges[i].1);
    }
}

/// Some edge connects `a` and `b`.
pub open spec fn has_pair<T>(edges: Seq<Edge<T>>, a: u32, b: u32) -> bool {
    exists|i: int| 0 <= i < edges.len() && (#[trigger] edges[i]).0 == a && edges[i].1 == b
}

/// The sum of all weights drawn between `a` and `b`.
pub open spec fn drawn_total<T>(
    value: spec_fn(T) -> real,
    draws: Seq<Seq<Edge<T>>>,
    a: u32,
    b: u32,
) -> real {
    crate::operator::laws::total(
        draws.len() as int,
        |k: int| edge_total(value, draws[k], a, b),
    )
}

/// `edges` has one edge per pair that the draws connect, in ascending order; with
/// exact arithmetic its weight is the sum of all weights drawn for the pair.
pub open spec fn merges_draws<T, A: Arithmetic<T>>(
    ops: A,
    draws: Seq<Seq<Edge<T>>>,
    edges: Seq<Edge<T>>,
) -> bool {
    &&& forall|a: u32, b: u32| #[trigger] has_pair(edges, a, b) <==> some_draw_has(draws, a, b)
    &&& forall|i: int, j: int|
        #![trigger edges[i], edges[j]]
        0 <= i < j < edges.len() ==> edges[i].0 < edges[j].0 || (edges[i].0 == edges[j].0
            && edges[i].1 < edges[j].1)
    &&& forall|value: spec_fn(T) -> real, i: int|
        #![trigger value(edges[i].2)]
        crate::arithmetic::is_exact(ops, value) && 0 <= i < edges.len() ==> value(edges[i].2)
            == drawn_total(value, draws, edges[i].0, edges[i].1)
}

/// The sampler is given every neighbour of a star, in order, with its weight,
/// under the emitter's seed plus the star's index.
pub proof fn law_sampler_sees_every_neighbour<T, C: CliqueSampler<T>>(
    sampler: C,
    emitter: SampledCliqueEmitter,
    index: usize,
    entries: Seq<(u32, T)>,
    drawn: Seq<Edge<T>>,
)
    requires
        crate::elimination::samples_to(sampler, emitter, index, entries, drawn),
    ensures
        exists|given: Vec<(u32, T)>, out: Vec<Edge<T>>|
            #[trigger] answers(
                sampler,
                emitter.split,
                ((emitter.seed + index) % 0x1_0000_0000_0000_0000) as u64,
                given,
                out,
            ) && out@ == drawn && given@.len() == entries.len() && forall|j: int|
                0 <= j < entries.len() ==> (#[trigger] given@[j]).0 == entries[j].0 && given@[j].1
                    == entries[j].1,
{
    let (given, out) = choose|given: Vec<(u32, T)>, out: Vec<Edge<T>>|
        given@ == entries && out@ == drawn && #[trigger] crate::elimination::is_draw(
            sampler,
            emitter,
            index,
            given,
            out,
        );
    let seed = emitter.seed.wrapping_add(index as u64);
    assert(seed == ((emitter.seed + index) % 0x1_0000_0000_0000_0000) as u64);
    assert(answers(sampler, emitter.split, seed, given, out));
}

/// A star's entries are its columns paired with its weights.
pub proof fn law_star_entries<'a, T>(star: Star<'a, T>, j: int)
    requires
        star.wf(),
        0 <= j < star.col_indices@.len(),
    ensures
        star.entries().len() == star.col_indices@.len(),
        star.entries()[j].0 == star.col_indices@[j],
        star.entries()[j].1 == star.weights@[j],
{
}

proof fn lemma_has_pair<T>(edges: Seq<Edge<T>>, a: u32, b: u32)
    ensures
        has_pair(edges, a, b) <==> crate::elimination::has_key(edges, (a, b)),
{
    if has_pair(edges, a, b) {
        let i = choose|i: int|
            0 <= i < edges.len() && (#[trigger] edges[i]).0 == a && edges[i].1 == b;
        assert(crate::elimination::edge_key(edges[i]) == (a, b));
    }
    if crate::elimination::has_key(edges, (a, b)) {
        let i = choose|i: int|
            0 <= i < edges.len() && crate::elimination::edge_key(#[trigger] edges[i]) == (a, b);
        assert(edges[i].0 == a);
    }
}

proof fn lemma_pairs_of_draws<T>(draws: Seq<Seq<Edge<T>>>, a: u32, b: u32)
    ensures
        crate::elimination::has_key(crate::concat::concat_all(draws), (a, b)) <==> some_draw_has(
            draws,
            a,
            b,
        ),
    decreases draws.len(),
{
    let all = crate::concat::concat_all(draws);
    if draws.len() > 0 {
        let front = draws.drop_last();
        let last = draws.len() - 1;
        let head = crate::concat::concat_all(front);
        lemma_pairs_of_draws(front, a, b);
        if crate::elimination::has_key(all, (a, b)) {
            let i = choose|i: int|
                0 <= i < all.len() && crate::elimination::edge_key(#[trigger] all[i]) == (a, b);
            if i < head.len() {
                assert(crate::elimination::edge_key(head[i]) == (a, b));
                let (k, e) = choose|k: int, e: int|
                    #![trigger front[k][e]]
                    0 <= k < front.len() && 0 <= e < front[k].len() && front[k][e].0 == a
                        && front[k][e].1 == b;
                assert(draws[k][e].0 == a);
            } else {
                assert(draws[last][i - head.len()].0 == a);
            }
        }
        if some_draw_has(draws, a, b) {
            let (k, e) = choose|k: int, e: int|
                #![trigger draws[k][e]]
                0 <= k < draws.len() && 0 <= e < draws[k].len() && draws[k][e].0 == a
                    && draws[k][e].1 == b;
            if k < last {
                assert(front[k][e].0 == a);
                let i = choose|i: int|
                    0 <= i < head.len() && crate::elimination::edge_key(#[trigger] head[i]) == (
                        a,
                        b,
                    );
                assert(crate::elimination::edge_key(all[i]) == (a, b));
            } else {
                assert(crate::elimination::edge_key(all[head.len() + e]) == (a, b));
            }
        }
    }
}

pub proof fn lemma_edge_total<T>(value: spec_fn(T) -> real, edges: Seq<Edge<T>>, a: u32, b: u32)
    ensures
        crate::arithmetic::value_sum(value, crate::elimination::weights_of(edges, (a, b)))
            == edge_total(value, edges, a, b),
    decreases edges.len(),
{
    if edges.len() > 0 {
        let front = edges.drop_last();
        lemma_edge_total(value, front, a, b);
        let f = edge_value(value, edges, a, b);
        let g = edge_value(value, front, a, b);
        crate::operator::laws::lemma_total_same(front.len() as int, f, g);
        let weights = crate::elimination::weights_of(front, (a, b));
        let last = edges.len() - 1;
        assert(crate::operator::laws::total(edges.len() as int, f)
            == crate::operator::laws::total(last, f) + f(last));
        assert(edges.last() == edges[last]);
        if crate::elimination::edge_key(edges.last()) == (a, b) {
            let longer = weights.push(edges.last().2);
            assert(longer.drop_last() =~= weights);
            assert(crate::elimination::weights_of(edges, (a, b)) == longer);
            assert(f(last) == value(edges.last().2));
        } else {
            assert(f(last) == 0real);
        }
    }
}

proof fn lemma_value_sum_concat<T>(value: spec_fn(T) -> real, a: Seq<T>, b: Seq<T>)
    ensures
        crate::arithmetic::value_sum(value, a + b) == crate::arithmetic::value_sum(value, a)
            + crate::arithmetic::value_sum(value, b),
    decreases b.len(),
{
    if b.len() == 0 {
        assert(a + b =~= a);
    } else {
        lemma_value_sum_concat(value, a, b.drop_last());
        assert((a + b).drop_last() =~= a + b.drop_last());
    }
}

proof fn lemma_drawn_total<T>(value: spec_fn(T) -> real, draws: Seq<Seq<Edge<T>>>, a: u32, b: u32)
    ensures
        crate::arithmetic::value_sum(
            value,
            crate::elimination::weights_of(crate::concat::concat_all(draws), (a, b)),
        ) == drawn_total(value, draws, a, b),
    decreases draws.len(),
{
    if draws.len() > 0 {
        let front = draws.drop_last();
        let last = draws.len() - 1;
        lemma_drawn_total(value, front, a, b);
        let head = crate::concat::concat_all(front);
        crate::elimination::lemma_weights_of_concat(head, draws[last], (a, b));
        lemma_value_sum_concat(
            value,
            crate::elimination::weights_of(head, (a, b)),
            crate::elimination::weights_of(draws[last], (a, b)),
        );
        lemma_edge_total(value, draws[last], a, b);
        crate::operator::laws::lemma_total_same(
            last,
            |k: int| edge_total(value, draws[k], a, b),
            |k: int| edge_total(value, front[k], a, b),
        );
    }
}

/// `path` leads from `a` to `b` along the edges, in either direction.
pub open spec fn is_path<T>(edges: Seq<Edge<T>>, path: Seq<u32>, a: u32, b: u32) -> bool {
    &&& path.len() > 0
    &&& path[0] == a
    &&& path.last() == b
    &&& forall|i: int|
        0 < i < path.len() ==> has_pair(edges, path[i - 1], #[trigger] path[i]) || has_pair(
            edges,
            path[i],
            path[i - 1],
        )
}

/// The edges connect `a` and `b`.
pub open spec fn connect<T>(edges: Seq<Edge<T>>, a: u32, b: u32) -> bool {
    exists|path: Seq<u32>| is_path(edges, path, a, b)
}

/// Sampling keeps neighbours together: if the sampler answers every list with
/// edges that connect all its columns, then the merged fill edges connect any
/// two neighbours of any eliminated vertex.
pub proof fn law_sampling_keeps_stars_connected<
    'a,
    T: Copy,
    A: Arithmetic<T>,
    C: CliqueSampler<T>,
>(
    ops: A,
    elimination: Elimination<'a, T>,
    emitter: SampledCliqueEmitter,
    sampler: C,
    edges: Seq<Edge<T>>,
    k: int,
    i: int,
    j: int,
)
    requires
        elimination.wf(),
        crate::elimination::is_merged_sampling(
            ops,
            *elimination.elim_to_keep,
            emitter,
            sampler,
            0,
            elimination.n_elim as int,
            edges,
        ),
        forall|split: u32, seed: u64, given: Vec<(u32, T)>, out: Vec<Edge<T>>, a: int, b: int|
            #![trigger answers(sampler, split, seed, given, out), given@[a], given@[b]]
            answers(sampler, split, seed, given, out) && 0 <= a < given@.len() && 0 <= b
                < given@.len() ==> connect(out@, given@[a].0, given@[b].0),
        0 <= k < elimination.n_elim,
        elimination.elim_to_keep.indptr@[k] <= i < j < elimination.elim_to_keep.indptr@[k + 1],
    ensures
        connect(
            edges,
            elimination.elim_to_keep.indices@[i],
            elimination.elim_to_keep.indices@[j],
        ),
{
    let block = *elimination.elim_to_keep;
    law_stars_are_sampled_whole(ops, elimination, emitter, sampler, edges);
    let draws = choose|draws: Seq<Seq<Edge<T>>>|
        #[trigger] are_star_draws(block, emitter, sampler, elimination.n_elim as int, draws)
            && merges_draws(ops, draws, edges);
    assert(is_star_draw(block, emitter, sampler, k, draws[k]));
    let (given, out) = choose|given: Vec<(u32, T)>, out: Vec<Edge<T>>| #[trigger]
        answers(
            sampler,
            emitter.split,
            ((emitter.seed + k) % 0x1_0000_0000_0000_0000) as u64,
            given,
            out,
        ) && out@ == draws[k] && lists_row(block, k, given@);
    let first = block.indptr@[k];
    assert(given@[i - first].0 == block.indices@[i]);
    assert(given@[j - first].0 == block.indices@[j]);
    let a = block.indices@[i];
    let b = block.indices@[j];
    let path = choose|path: Seq<u32>| is_path(out@, path, a, b);
    assert forall|p: u32, q: u32| has_pair(out@, p, q) implies #[trigger] has_pair(edges, p, q) by {
        let e = choose|e: int|
            0 <= e < out@.len() && (#[trigger] out@[e]).0 == p && out@[e].1 == q;
        assert(draws[k][e].0 == p && draws[k][e].1 == q);
        assert(some_draw_has(draws, p, q));
    }
    assert(is_path(edges, path, a, b));
}

// ---------------------------------------------------------------------------
// Block selection
// ---------------------------------------------------------------------------

/// The diagonal of the larger block, the first factor's among equals.
pub open spec fn larger_diagonal<T>(table: CrossTab<T>) -> Seq<T> {
    if table.diag_q@.len() >= table.diag_r@.len() {
        table.diag_q@
    } else {
        table.diag_r@
    }
}

/// Elimination keeps the smaller block: the larger one is eliminated, the first
/// factor's among equals, and with exact arithmetic its reciprocals times its
/// diagonal are one. The rows of the eliminated vertices are the table's rows of
/// that block, and the kept ones' are the other orientation's.
pub proof fn law_elimination_keeps_the_smaller_block<'a, T: Copy, A: Arithmetic<T>>(
    ops: A,
    value: spec_fn(T) -> real,
    table: CrossTab<T>,
    elimination: Elimination<'a, T>,
)
    requires
        table.wf(),
        crate::arithmetic::is_exact_field(ops, value),
        crate::elimination::elimination_outcome(ops, table, Ok(elimination)),
    ensures
        elimination.n_keep <= elimination.n_elim,
        elimination.n_keep + elimination.n_elim == table.diag_q@.len() + table.diag_r@.len(),
        elimination.eliminate_q <==> table.diag_q@.len() >= table.diag_r@.len(),
        elimination.inv_diag_elim@.len() == elimination.n_elim,
        elimination.diag_keep@.len() == elimination.n_keep,
        elimination.eliminate_q ==> elimination.elim_to_keep.indptr@ == table.c.indptr@
            && elimination.elim_to_keep.indices@ == table.c.indices@
            && elimination.elim_to_keep.data@ == table.c.data@
            && elimination.keep_to_elim.indptr@ == table.ct.indptr@
            && elimination.keep_to_elim.indices@ == table.ct.indices@
            && elimination.keep_to_elim.data@ == table.ct.data@ && elimination.diag_keep@
            == table.diag_r@,
        !elimination.eliminate_q ==> elimination.elim_to_keep.indptr@ == table.ct.indptr@
            && elimination.elim_to_keep.indices@ == table.ct.indices@
            && elimination.elim_to_keep.data@ == table.ct.data@
            && elimination.keep_to_elim.indptr@ == table.c.indptr@
            && elimination.keep_to_elim.indices@ == table.c.indices@
            && elimination.keep_to_elim.data@ == table.c.data@ && elimination.diag_keep@
            == table.diag_q@,
        forall|k: int|
            0 <= k < elimination.n_elim ==> value(#[trigger] elimination.inv_diag_elim@[k])
                * value(larger_diagonal(table)[k]) == 1real,
{
    lemma_elimination_parts(ops, table, elimination);
    assert forall|k: int| 0 <= k < elimination.n_elim implies value(
        #[trigger] elimination.inv_diag_elim@[k],
    ) * value(larger_diagonal(table)[k]) == 1real by {
        lemma_inverse_at(ops, value, table, elimination, k);
    }
}

proof fn lemma_elimination_parts<'a, T: Copy, A: Arithmetic<T>>(
    ops: A,
    table: CrossTab<T>,
    elimination: Elimination<'a, T>,
)
    requires
        table.wf(),
        crate::elimination::elimination_outcome(ops, table, Ok(elimination)),
    ensures
        elimination.wf(),
        elimination.n_elim == larger_diagonal(table).len(),
        elimination.eliminate_q <==> table.diag_q@.len() >= table.diag_r@.len(),
        elimination.n_keep + elimination.n_elim == table.diag_q@.len() + table.diag_r@.len(),
        elimination.eliminate_q ==> *elimination.elim_to_keep == table.c
            && *elimination.keep_to_elim == table.ct && elimination.diag_keep@ == table.diag_r@,
        !elimination.eliminate_q ==> *elimination.elim_to_keep == table.ct
            && *elimination.keep_to_elim == table.c && elimination.diag_keep@ == table.diag_q@,
        crate::elimination::reciprocals_outcome(
            ops,
            larger_diagonal(table),
            Ok(elimination.inv_diag_elim@),
        ),
{
}

proof fn lemma_inverse_at<'a, T: Copy, A: Arithmetic<T>>(
    ops: A,
    value: spec_fn(T) -> real,
    table: CrossTab<T>,
    elimination: Elimination<'a, T>,
    k: int,
)
    requires
        crate::arithmetic::is_exact_field(ops, value),
        crate::elimination::reciprocals_outcome(
            ops,
            larger_diagonal(table),
            Ok(elimination.inv_diag_elim@),
        ),
        0 <= k < larger_diagonal(table).len(),
    ensures
        value(larger_diagonal(table)[k]) > 0real,
        value(elimination.inv_diag_elim@[k]) * value(larger_diagonal(table)[k]) == 1real,
{
    let inverse = elimination.inv_diag_elim@[k];
    lemma_reciprocal(ops, value, larger_diagonal(table)[k], inverse);
}

/// With exact arithmetic, the reciprocal of a positive number times the number is one.
pub proof fn lemma_reciprocal<T, A: Arithmetic<T>>(
    ops: A,
    value: spec_fn(T) -> real,
    a: T,
    r: T,
)
    requires
        crate::arithmetic::is_exact_field(ops, value),
        call_ensures(A::is_positive, (&ops, a), true),
        crate::arithmetic::reciprocal_gives(ops, a, r),
    ensures
        value(a) > 0real,
        value(r) * value(a) == 1real,
{
    assert(crate::arithmetic::positive_says(ops, a, true));
    let one = choose|one: T| #[trigger]
        crate::arithmetic::one_gives(ops, one) && call_ensures(A::divide, (&ops, one, a), r);
    assert(crate::arithmetic::divide_gives(ops, one, a, r));
}

/// Elimination fails exactly at a diagonal entry of the larger block that is not
/// positive, and names the first one.
pub proof fn law_elimination_needs_a_positive_diagonal<'a, T: Copy, A: Arithmetic<T>>(
    ops: A,
    value: spec_fn(T) -> real,
    table: CrossTab<T>,
    result: Result<Elimination<'a, T>, BuildError>,
)
    requires
        table.wf(),
        crate::arithmetic::is_exact_field(ops, value),
        crate::elimination::elimination_outcome(ops, table, result),
    ensures
        match result {
            Ok(_) => forall|k: int|
                0 <= k < larger_diagonal(table).len() ==> value(
                    #[trigger] larger_diagonal(table)[k],
                ) > 0real,
            Err(e) => e matches BuildError::SingularDiagonal { index, .. } && index
                < larger_diagonal(table).len() && value(larger_diagonal(table)[index as int])
                <= 0real && forall|k: int|
                0 <= k < index ==> value(#[trigger] larger_diagonal(table)[k]) > 0real,
        },
{
    match result {
        Ok(elimination) => {
            lemma_elimination_parts(ops, table, elimination);
            assert forall|k: int| 0 <= k < larger_diagonal(table).len() implies value(
                #[trigger] larger_diagonal(table)[k],
            ) > 0real by {
                lemma_inverse_at(ops, value, table, elimination, k);
            }
        },
        Err(e) => {
            lemma_singular_entry::<T, A>(ops, table, e);
            let index = e->SingularDiagonal_index;
            let larger = larger_diagonal(table);
            assert(crate::arithmetic::positive_says(ops, larger[index as int], false));
            assert forall|k: int| 0 <= k < index implies value(
                #[trigger] larger_diagonal(table)[k],
            ) > 0real by {
                assert(crate::arithmetic::positive_says(ops, larger[k], true));
            }
        },
    }
}

proof fn lemma_singular_entry<T: Copy, A: Arithmetic<T>>(ops: A, table: CrossTab<T>, e: BuildError)
    requires
        table.wf(),
        crate::elimination::elimination_outcome::<T, A>(ops, table, Err(e)),
    ensures
        e matches BuildError::SingularDiagonal { index, .. } && index
            < larger_diagonal(table).len() && call_ensures(
            A::is_positive,
            (&ops, larger_diagonal(table)[index as int]),
            false,
        ) && forall|k: int|
            0 <= k < index ==> call_ensures(
                A::is_positive,
                (&ops, #[trigger] larger_diagonal(table)[k]),
                true,
            ),
{
}

/// Sorting and merging loses nothing: with exact arithmetic, the weights between any
/// two columns sum to the same before and after, and afterwards there is at most
/// one edge between them.
pub proof fn law_merging_keeps_every_total<T, A: Arithmetic<T>>(
    ops: A,
    value: spec_fn(T) -> real,
    edges: Seq<Edge<T>>,
    merged: Seq<Edge<T>>,
    a: u32,
    b: u32,
)
    requires
        crate::arithmetic::is_exact(ops, value),
        crate::elimination::is_merge_of(ops, edges, merged),
    ensures
        edge_total(value, merged, a, b) == edge_total(value, edges, a, b),
        has_pair(merged, a, b) <==> has_pair(edges, a, b),
        forall|i: int, j: int|
            #![trigger merged[i], merged[j]]
            0 <= i < j < merged.len() ==> merged[i].0 < merged[j].0 || (merged[i].0 == merged[j].0
                && merged[i].1 < merged[j].1),
{
    crate::domain::local_matrix::lemma_merge_total(ops, value, edges, merged, a, b);
    lemma_has_pair(merged, a, b);
    lemma_has_pair(edges, a, b);
    assert(crate::elimination::has_key(edges, (a, b)) <==> crate::elimination::has_key(
        merged,
        (a, b),
    ));
}

/// Merging two lists loses nothing: with exact arithmetic, the weight between any
/// two columns is the sum of the weights that the two lists have there.
pub proof fn law_merging_two_lists_adds_them<T, A: Arithmetic<T>>(
    ops: A,
    value: spec_fn(T) -> real,
    first: Seq<Edge<T>>,
    second: Seq<Edge<T>>,
    merged: Seq<Edge<T>>,
    a: u32,
    b: u32,
)
    requires
        crate::arithmetic::is_exact(ops, value),
        crate::elimination::is_strictly_keyed(first),
        crate::elimination::is_strictly_keyed(second),
        crate::elimination::is_merge_of_two(ops, first, second, merged),
    ensures
        edge_total(value, merged, a, b) == edge_total(value, first, a, b) + edge_total(
            value,
            second,
            a,
            b,
        ),
        has_pair(merged, a, b) <==> has_pair(first, a, b) || has_pair(second, a, b),
        forall|i: int, j: int|
            #![trigger merged[i], merged[j]]
            0 <= i < j < merged.len() ==> merged[i].0 < merged[j].0 || (merged[i].0 == merged[j].0
                && merged[i].1 < merged[j].1),
{
    lemma_has_pair(merged, a, b);
    lemma_has_pair(first, a, b);
    lemma_has_pair(second, a, b);
    crate::elimination::lemma_merged_with_itself(ops, first);
    crate::elimination::lemma_merged_with_itself(ops, second);
    crate::elimination::law_merge_is_compositional(ops, first, second, first, second, merged);
    crate::domain::local_matrix::lemma_merge_total(ops, value, first + second, merged, a, b);
    lemma_edge_total(value, first + second, a, b);
    crate::elimination::lemma_weights_of_concat(first, second, (a, b));
    lemma_value_sum_concat(
        value,
        crate::elimination::weights_of(first, (a, b)),
        crate::elimination::weights_of(second, (a, b)),
    );
    lemma_edge_total(value, first, a, b);
    lemma_edge_total(value, second, a, b);
    assert(crate::elimination::has_key(merged, (a, b)) <==> crate::elimination::has_key(
        first,
        (a, b),
    ) || crate::elimination::has_key(second, (a, b)));
}

} // verus!
