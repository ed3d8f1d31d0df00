//! Sums over an abstract scalar.
//!
//! The numeric kernels are written over any scalar `T` and a value that
//! supplies its arithmetic. Nothing is presumed of that arithmetic: addition
//! may round. So contracts say which additions were carried out, and in which
//! order where the order is fixed; with exact arithmetic that determines the
//! value (see [`law_running_sum_is_exact`] and [`law_sum_is_exact`]).

use vstd::multiset::Multiset;
use vstd::prelude::*;

use crate::binary64::Binary64;

verus! {

/// Arithmetic on scalars of type `T`.
pub trait Arithmetic<T> {
    /// The neutral element of addition.
    fn zero(&self) -> T;

    /// The neutral element of multiplication.
    fn one(&self) -> T;

    /// `a + b`
    fn plus(&self, a: T, b: T) -> T;

    /// `a - b`
    fn minus(&self, a: T, b: T) -> T;

    /// `a * b`
    fn times(&self, a: T, b: T) -> T;

    /// `a / b`
    fn divide(&self, a: T, b: T) -> T;

    /// Square root.
    fn square_root(&self, a: T) -> T;

    /// Magnitude.
    fn magnitude(&self, a: T) -> T;

    /// Whether `a >= b`.
    fn at_least(&self, a: T, b: T) -> bool;

    /// Whether `a > 0`.
    fn is_positive(&self, a: T) -> bool;

    /// Whether `a` is finite.
    fn is_finite(&self, a: T) -> bool;

    /// The scalar nearest to a count.
    fn from_count(&self, count: u32) -> T;

    /// The scalar nearest to a double-precision number.
    fn from_binary64(&self, value: Binary64) -> T;
}

/// `r` is a value of zero.
pub open spec fn zero_gives<T, A: Arithmetic<T>>(ops: A, r: T) -> bool {
    call_ensures(A::zero, (&ops,), r)
}

/// `r` is a value of one.
pub open spec fn one_gives<T, A: Arithmetic<T>>(ops: A, r: T) -> bool {
    call_ensures(A::one, (&ops,), r)
}

/// `r` is the scalar that stands for a double-precision number.
pub open spec fn scalar_of<T, A: Arithmetic<T>>(ops: A, value: Binary64, r: T) -> bool {
    call_ensures(A::from_binary64, (&ops, value), r)
}

/// `r` is a value of the square root of `a`.
pub open spec fn root_gives<T, A: Arithmetic<T>>(ops: A, a: T, r: T) -> bool {
    call_ensures(A::square_root, (&ops, a), r)
}

/// `r` is a value of `a / b`.
pub open spec fn divide_gives<T, A: Arithmetic<T>>(ops: A, a: T, b: T, r: T) -> bool {
    call_ensures(A::divide, (&ops, a, b), r)
}

/// `r` is a value of `a + b`.
pub open spec fn plus_gives<T, A: Arithmetic<T>>(ops: A, a: T, b: T, r: T) -> bool {
    call_ensures(A::plus, (&ops, a, b), r)
}

/// `r` is a value of `a - b`.
pub open spec fn minus_gives<T, A: Arithmetic<T>>(ops: A, a: T, b: T, r: T) -> bool {
    call_ensures(A::minus, (&ops, a, b), r)
}

/// `r` is a value of `a * b`.
pub open spec fn times_gives<T, A: Arithmetic<T>>(ops: A, a: T, b: T, r: T) -> bool {
    call_ensures(A::times, (&ops, a, b), r)
}

/// `r` is a value of `1 / a`.
pub open spec fn reciprocal_gives<T, A: Arithmetic<T>>(ops: A, a: T, r: T) -> bool {
    exists|one: T| #[trigger] one_gives(ops, one) && call_ensures(A::divide, (&ops, one, a), r)
}

// ---------------------------------------------------------------------------
// Sums in a fixed order
// ---------------------------------------------------------------------------

/// `partial[k + 1]` is a value of `partial[k] + items[k]`, starting from `start`.
pub open spec fn is_running_sum<T, A: Arithmetic<T>>(
    ops: A,
    start: T,
    items: Seq<T>,
    partial: Seq<T>,
) -> bool {
    &&& partial.len() == items.len() + 1
    &&& partial[0] == start
    &&& forall|k: int|
        0 <= k < items.len() ==> plus_gives(ops, #[trigger] partial[k], items[k], partial[k + 1])
}

/// `result` is a value of `((start + items[0]) + items[1]) + ..`
pub open spec fn sums_to<T, A: Arithmetic<T>>(ops: A, start: T, items: Seq<T>, result: T) -> bool {
    exists|partial: Seq<T>| #[trigger]
        is_running_sum(ops, start, items, partial) && partial.last() == result
}

/// Adding nothing leaves the start.
pub proof fn lemma_sums_to_nothing<T, A: Arithmetic<T>>(ops: A, start: T)
    ensures
        sums_to(ops, start, Seq::empty(), start),
{
    assert(is_running_sum(ops, start, Seq::empty(), seq![start]));
}

/// One more addition extends a sum by its item.
pub proof fn lemma_sums_to_push<T, A: Arithmetic<T>>(
    ops: A,
    start: T,
    items: Seq<T>,
    mid: T,
    item: T,
    result: T,
)
    requires
        sums_to(ops, start, items, mid),
        plus_gives(ops, mid, item, result),
    ensures
        sums_to(ops, start, items.push(item), result),
{
    let partial = choose|partial: Seq<T>| #[trigger]
        is_running_sum(ops, start, items, partial) && partial.last() == mid;
    let longer = partial.push(result);
    assert forall|k: int| 0 <= k < items.push(item).len() implies plus_gives(
        ops,
        #[trigger] longer[k],
        items.push(item)[k],
        longer[k + 1],
    ) by {
        if k < items.len() {
            assert(plus_gives(ops, partial[k], items[k], partial[k + 1]));
        }
    }
    assert(is_running_sum(ops, start, items.push(item), longer));
}

/// Addition, subtraction and multiplication are exact under `value`.
pub open spec fn is_exact<T, A: Arithmetic<T>>(ops: A, value: spec_fn(T) -> real) -> bool {
    &&& forall|r: T| #[trigger] zero_gives(ops, r) ==> value(r) == 0real
    &&& forall|r: T| #[trigger] one_gives(ops, r) ==> value(r) == 1real
    &&& forall|a: T, b: T, r: T| #[trigger]
        plus_gives(ops, a, b, r) ==> value(r) == value(a) + value(b)
    &&& forall|a: T, b: T, r: T| #[trigger]
        minus_gives(ops, a, b, r) ==> value(r) == value(a) - value(b)
    &&& forall|a: T, b: T, r: T| #[trigger]
        times_gives(ops, a, b, r) ==> value(r) == value(a) * value(b)
}

/// Besides sums and products, quotients, square roots, comparisons and counts
/// are exact under `value`, and finite non-negative numbers have values that
/// are not negative.
pub open spec fn is_exact_field<T, A: Arithmetic<T>>(ops: A, value: spec_fn(T) -> real) -> bool {
    &&& is_exact(ops, value)
    &&& forall|a: T, b: T, r: T| #[trigger]
        divide_gives(ops, a, b, r) && value(b) != 0real ==> value(r) * value(b) == value(a)
    &&& forall|a: T, r: T| #[trigger]
        root_gives(ops, a, r) && value(a) >= 0real ==> value(r) >= 0real && value(r) * value(r)
            == value(a)
    &&& forall|a: T, says: bool| #[trigger]
        positive_says(ops, a, says) ==> says == (value(a) > 0real)
    &&& forall|a: T, b: T, says: bool| #[trigger]
        at_least_says(ops, a, b, says) ==> says == (value(a) >= value(b))
    &&& forall|c: u32, r: T| #[trigger] count_gives(ops, c, r) ==> value(r) == c as real
    &&& forall|b: Binary64, r: T| #[trigger]
        scalar_of(ops, b, r) && b.spec_is_finite_non_negative() ==> value(r) >= 0real
}

/// `says` is what the test for `a > 0` may answer.
pub open spec fn positive_says<T, A: Arithmetic<T>>(ops: A, a: T, says: bool) -> bool {
    call_ensures(A::is_positive, (&ops, a), says)
}

/// `says` is what the test for `a >= b` may answer.
pub open spec fn at_least_says<T, A: Arithmetic<T>>(ops: A, a: T, b: T, says: bool) -> bool {
    call_ensures(A::at_least, (&ops, a, b), says)
}

/// `r` is the scalar that stands for a count.
pub open spec fn count_gives<T, A: Arithmetic<T>>(ops: A, count: u32, r: T) -> bool {
    call_ensures(A::from_count, (&ops, count), r)
}

/// The sum of the items' values.
pub open spec fn value_sum<T>(value: spec_fn(T) -> real, items: Seq<T>) -> real
    decreases items.len(),
{
    if items.len() == 0 {
        0real
    } else {
        value_sum(value, items.drop_last()) + value(items.last())
    }
}

/// With exact arithmetic, a sum in a fixed order is the start plus the sum of the items.
pub proof fn law_running_sum_is_exact<T, A: Arithmetic<T>>(
    ops: A,
    value: spec_fn(T) -> real,
    start: T,
    items: Seq<T>,
    result: T,
)
    requires
        is_exact(ops, value),
        sums_to(ops, start, items, result),
    ensures
        value(result) == value(start) + value_sum(value, items),
{
    let partial = choose|partial: Seq<T>| #[trigger]
        is_running_sum(ops, start, items, partial) && partial.last() == result;
    lemma_running_sum_prefix(ops, value, start, items, partial, items.len() as int);
    assert(items.take(items.len() as int) =~= items);
}

proof fn lemma_running_sum_prefix<T, A: Arithmetic<T>>(
    ops: A,
    value: spec_fn(T) -> real,
    start: T,
    items: Seq<T>,
    partial: Seq<T>,
    k: int,
)
    requires
        is_exact(ops, value),
        is_running_sum(ops, start, items, partial),
        0 <= k <= items.len(),
    ensures
        value(partial[k]) == value(start) + value_sum(value, items.take(k)),
    decreases k,
{
    if k > 0 {
        lemma_running_sum_prefix(ops, value, start, items, partial, k - 1);
        assert(plus_gives(ops, partial[k - 1], items[k - 1], partial[k - 1 + 1]));
        assert(items.take(k).drop_last() =~= items.take(k - 1));
    }
}

/// Two sums of the same items in the same order agree if addition is a function.
pub proof fn law_running_sum_is_deterministic<T, A: Arithmetic<T>>(
    ops: A,
    start: T,
    items: Seq<T>,
    r: T,
    s: T,
)
    requires
        forall|a: T, b: T, x: T, y: T| #[trigger]
            plus_gives(ops, a, b, x) && #[trigger] plus_gives(ops, a, b, y) ==> x == y,
        sums_to(ops, start, items, r),
        sums_to(ops, start, items, s),
    ensures
        r == s,
{
    let p = choose|partial: Seq<T>| #[trigger]
        is_running_sum(ops, start, items, partial) && partial.last() == r;
    let q = choose|partial: Seq<T>| #[trigger]
        is_running_sum(ops, start, items, partial) && partial.last() == s;
    lemma_same_partials(ops, start, items, p, q, items.len() as int);
}

proof fn lemma_same_partials<T, A: Arithmetic<T>>(
    ops: A,
    start: T,
    items: Seq<T>,
    p: Seq<T>,
    q: Seq<T>,
    k: int,
)
    requires
        forall|a: T, b: T, x: T, y: T| #[trigger]
            plus_gives(ops, a, b, x) && #[trigger] plus_gives(ops, a, b, y) ==> x == y,
        is_running_sum(ops, start, items, p),
        is_running_sum(ops, start, items, q),
        0 <= k <= items.len(),
    ensures
        p[k] == q[k],
    decreases k,
{
    if k > 0 {
        lemma_same_partials(ops, start, items, p, q, k - 1);
        assert(plus_gives(ops, p[k - 1], items[k - 1], p[k - 1 + 1]));
        assert(plus_gives(ops, q[k - 1], items[k - 1], q[k - 1 + 1]));
    }
}

// ---------------------------------------------------------------------------
// Sums in some order
// ---------------------------------------------------------------------------

/// `result` is reached by adding up exactly `items`, and possibly zeros, with
/// at most `depth` nested additions.
pub open spec fn adds_up<T, A: Arithmetic<T>>(
    ops: A,
    items: Multiset<T>,
    result: T,
    depth: nat,
) -> bool
    decreases depth,
{
    ||| items == Multiset::<T>::singleton(result)
    ||| items == Multiset::<T>::empty() && zero_gives(ops, result)
    ||| depth > 0 && exists|left: Multiset<T>, right: Multiset<T>, a: T, b: T|
        is_addition(ops, items, result, left, right, a, b) && adds_up(
            ops,
            left,
            a,
            (depth - 1) as nat,
        ) && adds_up(ops, right, b, (depth - 1) as nat)
}

/// The items are those of two parts, and `result` is a value of the sum of the parts' sums.
pub open spec fn is_addition<T, A: Arithmetic<T>>(
    ops: A,
    items: Multiset<T>,
    result: T,
    left: Multiset<T>,
    right: Multiset<T>,
    a: T,
    b: T,
) -> bool {
    items == left.add(right) && plus_gives(ops, a, b, result)
}

/// `result` is reached by adding up exactly `items`, and possibly zeros, in some order.
pub open spec fn is_sum_of<T, A: Arithmetic<T>>(ops: A, items: Multiset<T>, result: T) -> bool {
    exists|depth: nat| adds_up(ops, items, result, depth)
}

proof fn lemma_adds_up_deeper<T, A: Arithmetic<T>>(
    ops: A,
    items: Multiset<T>,
    result: T,
    depth: nat,
    deeper: nat,
)
    requires
        adds_up(ops, items, result, depth),
        depth <= deeper,
    ensures
        adds_up(ops, items, result, deeper),
    decreases depth,
{
    if items == Multiset::<T>::singleton(result) || (items == Multiset::<T>::empty() && zero_gives(
        ops,
        result,
    )) {
    } else {
        let (left, right, a, b) = choose|left: Multiset<T>, right: Multiset<T>, a: T, b: T|
            is_addition(ops, items, result, left, right, a, b) && adds_up(
                ops,
                left,
                a,
                (depth - 1) as nat,
            ) && adds_up(ops, right, b, (depth - 1) as nat);
        lemma_adds_up_deeper(ops, left, a, (depth - 1) as nat, (deeper - 1) as nat);
        lemma_adds_up_deeper(ops, right, b, (depth - 1) as nat, (deeper - 1) as nat);
        assert(is_addition(ops, items, result, left, right, a, b));
    }
}

/// A single item is its own sum.
pub proof fn lemma_sum_of_one<T, A: Arithmetic<T>>(ops: A, item: T)
    ensures
        is_sum_of(ops, Multiset::singleton(item), item),
{
    assert(adds_up(ops, Multiset::singleton(item), item, 0));
}

/// Zero is a sum of nothing.
pub proof fn lemma_sum_of_none<T, A: Arithmetic<T>>(ops: A, zero: T)
    requires
        zero_gives(ops, zero),
    ensures
        is_sum_of(ops, Multiset::empty(), zero),
{
    assert(adds_up(ops, Multiset::empty(), zero, 0));
}

/// Adding two sums gives a sum of all items.
pub proof fn lemma_sum_of_sums<T, A: Arithmetic<T>>(
    ops: A,
    left: Multiset<T>,
    right: Multiset<T>,
    a: T,
    b: T,
    result: T,
)
    requires
        is_sum_of(ops, left, a),
        is_sum_of(ops, right, b),
        plus_gives(ops, a, b, result),
    ensures
        is_sum_of(ops, left.add(right), result),
{
    let d = choose|d: nat| adds_up(ops, left, a, d);
    let e = choose|e: nat| adds_up(ops, right, b, e);
    let depth = d + e;
    lemma_adds_up_deeper(ops, left, a, d, depth);
    lemma_adds_up_deeper(ops, right, b, e, depth);
    assert(is_addition(ops, left.add(right), result, left, right, a, b));
    assert(adds_up(ops, left.add(right), result, depth + 1));
}

/// Adding one item to a sum gives a sum of one item more.
pub proof fn lemma_sum_plus_item<T, A: Arithmetic<T>>(
    ops: A,
    items: Seq<T>,
    a: T,
    item: T,
    result: T,
)
    requires
        is_sum_of(ops, items.to_multiset(), a),
        plus_gives(ops, a, item, result),
    ensures
        is_sum_of(ops, items.push(item).to_multiset(), result),
{
    broadcast use vstd::seq_lib::group_to_multiset_ensures;

    lemma_sum_of_one(ops, item);
    lemma_sum_of_sums(ops, items.to_multiset(), Multiset::singleton(item), a, item, result);
    assert(items.push(item).to_multiset() =~= items.to_multiset().add(Multiset::singleton(item)));
}

/// A zero among the items may be left out.
pub proof fn lemma_sum_without_zero<T, A: Arithmetic<T>>(
    ops: A,
    items: Multiset<T>,
    zero: T,
    result: T,
)
    requires
        zero_gives(ops, zero),
        items.count(zero) > 0,
        is_sum_of(ops, items, result),
    ensures
        is_sum_of(ops, items.remove(zero), result),
{
    let depth = choose|depth: nat| adds_up(ops, items, result, depth);
    lemma_adds_up_without_zero(ops, items, zero, result, depth);
}

proof fn lemma_adds_up_without_zero<T, A: Arithmetic<T>>(
    ops: A,
    items: Multiset<T>,
    zero: T,
    result: T,
    depth: nat,
)
    requires
        zero_gives(ops, zero),
        items.count(zero) > 0,
        adds_up(ops, items, result, depth),
    ensures
        adds_up(ops, items.remove(zero), result, depth),
    decreases depth,
{
    if items == Multiset::<T>::singleton(result) {
        assert(zero == result);
        assert(items.remove(zero) =~= Multiset::<T>::empty());
    } else {
        let (left, right, a, b) = choose|left: Multiset<T>, right: Multiset<T>, a: T, b: T|
            is_addition(ops, items, result, left, right, a, b) && adds_up(
                ops,
                left,
                a,
                (depth - 1) as nat,
            ) && adds_up(ops, right, b, (depth - 1) as nat);
        if left.count(zero) > 0 {
            lemma_adds_up_without_zero(ops, left, zero, a, (depth - 1) as nat);
            assert(items.remove(zero) =~= left.remove(zero).add(right));
            assert(is_addition(ops, items.remove(zero), result, left.remove(zero), right, a, b));
        } else {
            assert(right.count(zero) > 0);
            lemma_adds_up_without_zero(ops, right, zero, b, (depth - 1) as nat);
            assert(items.remove(zero) =~= left.add(right.remove(zero)));
            assert(is_addition(ops, items.remove(zero), result, left, right.remove(zero), a, b));
        }
    }
}

/// A sum in a fixed order is a sum of the start and the items.
pub proof fn law_running_sum_is_a_sum<T, A: Arithmetic<T>>(ops: A, start: T, items: Seq<T>, result: T)
    requires
        sums_to(ops, start, items, result),
    ensures
        is_sum_of(ops, items.to_multiset().insert(start), result),
{
    let partial = choose|partial: Seq<T>| #[trigger]
        is_running_sum(ops, start, items, partial) && partial.last() == result;
    lemma_partial_is_sum(ops, start, items, partial, items.len() as int);
    assert(items.take(items.len() as int) =~= items);
}

proof fn lemma_partial_is_sum<T, A: Arithmetic<T>>(
    ops: A,
    start: T,
    items: Seq<T>,
    partial: Seq<T>,
    k: int,
)
    requires
        is_running_sum(ops, start, items, partial),
        0 <= k <= items.len(),
    ensures
        is_sum_of(ops, items.take(k).to_multiset().insert(start), partial[k]),
    decreases k,
{
    broadcast use vstd::seq_lib::group_to_multiset_ensures;

    if k == 0 {
        lemma_sum_of_one(ops, start);
        assert(items.take(0).to_multiset() =~= Multiset::empty());
        assert(Multiset::<T>::empty().insert(start) =~= Multiset::singleton(start));
    } else {
        lemma_partial_is_sum(ops, start, items, partial, k - 1);
        let before = items.take(k - 1);
        let item = items[k - 1];
        assert(plus_gives(ops, partial[k - 1], item, partial[k - 1 + 1]));
        lemma_sum_of_one(ops, item);
        lemma_sum_of_sums(
            ops,
            before.to_multiset().insert(start),
            Multiset::singleton(item),
            partial[k - 1],
            item,
            partial[k],
        );
        assert(items.take(k) =~= before.push(item));
        assert(items.take(k).to_multiset().insert(start) =~= before.to_multiset().insert(start).add(
            Multiset::singleton(item),
        ));
    }
}

/// The sum of the items' values, however they are ordered.
pub open spec fn multiset_sum<T>(value: spec_fn(T) -> real, items: Multiset<T>) -> real
    decreases items.len(),
{
    if items.len() == 0 {
        0real
    } else {
        let item = items.choose();
        value(item) + multiset_sum(value, items.remove(item))
    }
}

/// Any item may be taken out first.
proof fn lemma_multiset_sum_remove<T>(value: spec_fn(T) -> real, items: Multiset<T>, item: T)
    requires
        items.count(item) > 0,
    ensures
        multiset_sum(value, items) == value(item) + multiset_sum(value, items.remove(item)),
    decreases items.len(),
{
    let first = items.choose();
    assert(items.count(first) > 0);
    if first != item {
        let rest = items.remove(first);
        lemma_multiset_sum_remove(value, rest, item);
        lemma_multiset_sum_remove(value, items.remove(item), first);
        assert(rest.remove(item) =~= items.remove(item).remove(first));
    }
}

proof fn lemma_multiset_sum_add<T>(value: spec_fn(T) -> real, a: Multiset<T>, b: Multiset<T>)
    ensures
        multiset_sum(value, a.add(b)) == multiset_sum(value, a) + multiset_sum(value, b),
    decreases a.len(),
{
    if a.len() == 0 {
        assert(a.add(b) =~= b);
    } else {
        let item = a.choose();
        assert(a.count(item) > 0);
        lemma_multiset_sum_remove(value, a.add(b), item);
        lemma_multiset_sum_add(value, a.remove(item), b);
        assert(a.add(b).remove(item) =~= a.remove(item).add(b));
    }
}

/// Listing the items in any order gives the same sum of values.
pub proof fn law_value_sum_ignores_order<T>(value: spec_fn(T) -> real, items: Seq<T>)
    ensures
        value_sum(value, items) == multiset_sum(value, items.to_multiset()),
    decreases items.len(),
{
    broadcast use vstd::seq_lib::group_to_multiset_ensures;

    if items.len() == 0 {
        assert(items.to_multiset().len() == 0);
    } else {
        let front = items.drop_last();
        law_value_sum_ignores_order(value, front);
        assert(items =~= front.push(items.last()));
        let all = items.to_multiset();
        assert(all =~= front.to_multiset().insert(items.last()));
        lemma_multiset_sum_remove(value, all, items.last());
        assert(all.remove(items.last()) =~= front.to_multiset());
    }
}

/// With exact arithmetic, a sum in whatever order is the sum of the items.
pub proof fn law_sum_is_exact<T, A: Arithmetic<T>>(
    ops: A,
    value: spec_fn(T) -> real,
    items: Multiset<T>,
    result: T,
)
    requires
        is_exact(ops, value),
        is_sum_of(ops, items, result),
    ensures
        value(result) == multiset_sum(value, items),
{
    let depth = choose|depth: nat| adds_up(ops, items, result, depth);
    lemma_adds_up_is_exact(ops, value, items, result, depth);
}

proof fn lemma_adds_up_is_exact<T, A: Arithmetic<T>>(
    ops: A,
    value: spec_fn(T) -> real,
    items: Multiset<T>,
    result: T,
    depth: nat,
)
    requires
        is_exact(ops, value),
        adds_up(ops, items, result, depth),
    ensures
        value(result) == multiset_sum(value, items),
    decreases depth,
{
    if items == Multiset::<T>::singleton(result) {
        lemma_multiset_sum_remove(value, items, result);
        assert(items.remove(result) =~= Multiset::empty());
    } else if items == Multiset::<T>::empty() && zero_gives(ops, result) {
    } else {
        let (left, right, a, b) = choose|left: Multiset<T>, right: Multiset<T>, a: T, b: T|
            is_addition(ops, items, result, left, right, a, b) && adds_up(
                ops,
                left,
                a,
                (depth - 1) as nat,
            ) && adds_up(ops, right, b, (depth - 1) as nat);
        lemma_adds_up_is_exact(ops, value, left, a, (depth - 1) as nat);
        lemma_adds_up_is_exact(ops, value, right, b, (depth - 1) as nat);
        lemma_multiset_sum_add(value, left, right);
    }
}

} // verus!
