//! Concatenation of lists of lists.

use vstd::prelude::*;

verus! {

/// The lists one after another.
pub open spec fn concat_all<T>(lists: Seq<Seq<T>>) -> Seq<T>
    decreases lists.len(),
{
    if lists.len() == 0 {
        Seq::empty()
    } else {
        concat_all(lists.drop_last()) + lists.last()
    }
}

/// Concatenation of all lists distributes over a concatenation of lists of lists.
pub proof fn lemma_concat_all<T>(a: Seq<Seq<T>>, b: Seq<Seq<T>>)
    ensures
        concat_all(a + b) == concat_all(a) + concat_all(b),
    decreases b.len(),
{
    if b.len() == 0 {
        assert(a + b =~= a);
        assert(concat_all(a) + concat_all(b) =~= concat_all(a));
    } else {
        lemma_concat_all(a, b.drop_last());
        assert((a + b).drop_last() =~= a + b.drop_last());
        assert(concat_all(a + b) =~= concat_all(a) + concat_all(b));
    }
}

/// The contents of a list of vectors.
pub open spec fn contents<T>(lists: Seq<Vec<T>>) -> Seq<Seq<T>> {
    lists.map_values(|list: Vec<T>| list@)
}

/// Put the lists one after another.
pub fn concatenate<T>(lists: Vec<Vec<T>>) -> (all: Vec<T>)
    ensures
        all@ == concat_all(contents(lists@)),
{
    let mut all: Vec<T> = Vec::new();
    for list in iter: lists
        invariant
            iter.seq() == lists@,
            all@ == concat_all(contents(lists@.take(iter.index() as int))),
    {
        let ghost k = iter.index() as int;
        let mut list = list;
        proof {
            let longer = contents(lists@.take(k + 1));
            assert(longer.drop_last() =~= contents(lists@.take(k)));
            assert(longer.last() == lists@[k]@);
        }
        all.append(&mut list);
    }
    assert(lists@.take(lists@.len() as int) =~= lists@);
    all
}

/// Lists of equal length lie side by side in their concatenation.
pub proof fn law_concat_in_blocks<T>(lists: Seq<Seq<T>>, n: nat, i: int)
    requires
        forall|k: int| 0 <= k < lists.len() ==> (#[trigger] lists[k]).len() == n,
        0 <= i < lists.len(),
    ensures
        concat_all(lists).len() == lists.len() * n,
        0 <= i * n <= (i + 1) * n <= lists.len() * n,
        concat_all(lists).subrange(i * n, (i + 1) * n) == lists[i],
    decreases lists.len(),
{
    let front = lists.drop_last();
    let last = lists.len() - 1;
    lemma_concat_length(lists, n);
    lemma_concat_length(front, n);
    assert(forall|k: int| 0 <= k < front.len() ==> (#[trigger] front[k]) == lists[k]);
    assert(0 <= i * n <= (i + 1) * n <= lists.len() * n) by (nonlinear_arith)
        requires
            0 <= i < lists.len(),
            n >= 0,
    ;
    let all = concat_all(lists);
    if i == last {
        assert((last + 1) * n == last * n + n) by (nonlinear_arith);
        assert(all.subrange(i * n, (i + 1) * n) =~= lists[i]);
    } else {
        law_concat_in_blocks(front, n, i);
        assert((i + 1) * n <= last * n) by (nonlinear_arith)
            requires
                i + 1 <= last,
                n >= 0,
        ;
        assert(all.subrange(i * n, (i + 1) * n) =~= concat_all(front).subrange(
            i * n,
            (i + 1) * n,
        ));
    }
}

/// The concatenation of `m` lists of length `n` has length `m * n`.
pub proof fn lemma_concat_length<T>(lists: Seq<Seq<T>>, n: nat)
    requires
        forall|k: int| 0 <= k < lists.len() ==> (#[trigger] lists[k]).len() == n,
    ensures
        concat_all(lists).len() == lists.len() * n,
    decreases lists.len(),
{
    if lists.len() > 0 {
        let front = lists.drop_last();
        assert(forall|k: int| 0 <= k < front.len() ==> (#[trigger] front[k]) == lists[k]);
        lemma_concat_length(front, n);
        assert(lists.last() == lists[lists.len() - 1]);
        assert(lists.len() * n == front.len() * n + n) by (nonlinear_arith)
            requires
                lists.len() == front.len() + 1,
        ;
    } else {
        assert(lists.len() * n == 0) by (nonlinear_arith)
            requires
                lists.len() == 0,
        ;
    }
}

} // verus!
