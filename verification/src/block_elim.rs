//! Compensated summation for local solves.

use vstd::prelude::*;

use crate::arithmetic::Arithmetic;

verus! {

/// A running sum and what its additions have dropped so far.
pub struct Compensated<T> {
    /// The running sum.
    pub sum: T,
    /// The dropped part.
    pub compensation: T,
}

/// `after` takes one value in: the sum grows by it, and what that addition
/// drops is added to the compensation. The dropped part is found from the
/// larger of the two numbers.
pub open spec fn takes_in<T, A: Arithmetic<T>>(
    ops: A,
    before: Compensated<T>,
    value: T,
    after: Compensated<T>,
) -> bool {
    exists|larger: bool, dropped: T| #[trigger]
        is_dropped(ops, before.sum, value, after.sum, larger, dropped)
            && crate::arithmetic::plus_gives(ops, before.sum, value, after.sum)
            && crate::arithmetic::plus_gives(
            ops,
            before.compensation,
            dropped,
            after.compensation,
        )
}

/// `dropped` is a value of `(sum - total) + value`, or of `(value - total) + sum`
/// where `value` is larger in magnitude.
pub open spec fn is_dropped<T, A: Arithmetic<T>>(
    ops: A,
    sum: T,
    value: T,
    total: T,
    larger: bool,
    dropped: T,
) -> bool {
    &&& exists|a: T, b: T| #[trigger]
        call_ensures(A::at_least, (&ops, a, b), larger) && call_ensures(
            A::magnitude,
            (&ops, sum),
            a,
        ) && call_ensures(A::magnitude, (&ops, value), b)
    &&& if larger {
        exists|rest: T| #[trigger]
            crate::arithmetic::minus_gives(ops, sum, total, rest) && crate::arithmetic::plus_gives(
                ops,
                rest,
                value,
                dropped,
            )
    } else {
        exists|rest: T| #[trigger]
            crate::arithmetic::minus_gives(ops, value, total, rest)
                && crate::arithmetic::plus_gives(ops, rest, sum, dropped)
    }
}

/// `states` takes the values in one after another, from zero.
pub open spec fn is_compensated_run<T, A: Arithmetic<T>>(
    ops: A,
    values: Seq<T>,
    states: Seq<Compensated<T>>,
) -> bool {
    &&& states.len() == values.len() + 1
    &&& crate::arithmetic::zero_gives(ops, states[0].sum)
    &&& crate::arithmetic::zero_gives(ops, states[0].compensation)
    &&& forall|k: int|
        0 <= k < values.len() ==> takes_in(ops, #[trigger] states[k], values[k], states[k + 1])
}

/// `total` adds the compensation to the sum at the end of a run.
pub open spec fn is_compensated_sum<T, A: Arithmetic<T>>(ops: A, values: Seq<T>, total: T) -> bool {
    exists|states: Seq<Compensated<T>>| #[trigger]
        is_compensated_run(ops, values, states) && crate::arithmetic::plus_gives(
            ops,
            states.last().sum,
            states.last().compensation,
            total,
        )
}

/// Sum with Neumaier compensation.
pub fn compensated_sum<T: Copy, A: Arithmetic<T>>(values: &[T], ops: &A) -> (total: T)
    ensures
        is_compensated_sum(*ops, values@, total),
{
    let mut sum: T = ops.zero();
    let mut compensation: T = ops.zero();
    let ghost mut states = seq![Compensated { sum, compensation }];
    let n: usize = values.len();
    let mut k: usize = 0;
    while k < n
        invariant
            k <= n == values@.len(),
            states.len() == k + 1,
            states[k as int] == (Compensated { sum, compensation }),
            crate::arithmetic::zero_gives(*ops, states[0].sum),
            crate::arithmetic::zero_gives(*ops, states[0].compensation),
            forall|j: int|
                0 <= j < k ==> takes_in(*ops, #[trigger] states[j], values@[j], states[j + 1]),
        decreases n - k,
    {
        let value: T = values[k];
        let total: T = ops.plus(sum, value);
        let a: T = ops.magnitude(sum);
        let b: T = ops.magnitude(value);
        let larger: bool = ops.at_least(a, b);
        let dropped: T = if larger {
            let rest: T = ops.minus(sum, total);
            assert(crate::arithmetic::minus_gives(*ops, sum, total, rest));
            ops.plus(rest, value)
        } else {
            let rest: T = ops.minus(value, total);
            assert(crate::arithmetic::minus_gives(*ops, value, total, rest));
            ops.plus(rest, sum)
        };
        assert(is_dropped(*ops, sum, value, total, larger, dropped));
        let ghost before = states;
        compensation = ops.plus(compensation, dropped);
        sum = total;
        proof {
            states = states.push(Compensated { sum, compensation });
            let now = before[k as int];
            assert(is_dropped(*ops, now.sum, value, states[k + 1].sum, larger, dropped));
            assert(crate::arithmetic::plus_gives(*ops, now.compensation, dropped, compensation));
            assert(crate::arithmetic::plus_gives(*ops, now.sum, value, states[k + 1].sum));
            assert(takes_in(*ops, now, value, states[k + 1]));
            assert forall|j: int| 0 <= j < k + 1 implies takes_in(
                *ops,
                #[trigger] states[j],
                values@[j],
                states[j + 1],
            ) by {
                if j < k {
                    assert(takes_in(*ops, before[j], values@[j], before[j + 1]));
                }
            }
        }
        k = k + 1;
    }
    assert(is_compensated_run(*ops, values@, states));
    ops.plus(sum, compensation)
}

/// With exact arithmetic nothing is dropped, and the compensated sum is the sum.
pub proof fn law_compensated_sum_is_exact<T, A: Arithmetic<T>>(
    ops: A,
    value: spec_fn(T) -> real,
    values: Seq<T>,
    total: T,
)
    requires
        crate::arithmetic::is_exact(ops, value),
        is_compensated_sum(ops, values, total),
    ensures
        value(total) == crate::arithmetic::value_sum(value, values),
{
    let states = choose|states: Seq<Compensated<T>>| #[trigger]
        is_compensated_run(ops, values, states) && crate::arithmetic::plus_gives(
            ops,
            states.last().sum,
            states.last().compensation,
            total,
        );
    lemma_run_is_exact(ops, value, values, states, values.len() as int);
    assert(values.take(values.len() as int) =~= values);
}

proof fn lemma_run_is_exact<T, A: Arithmetic<T>>(
    ops: A,
    value: spec_fn(T) -> real,
    values: Seq<T>,
    states: Seq<Compensated<T>>,
    k: int,
)
    requires
        crate::arithmetic::is_exact(ops, value),
        is_compensated_run(ops, values, states),
        0 <= k <= values.len(),
    ensures
        value(states[k].sum) == crate::arithmetic::value_sum(value, values.take(k)),
        value(states[k].compensation) == 0real,
    decreases k,
{
    if k > 0 {
        lemma_run_is_exact(ops, value, values, states, k - 1);
        assert(takes_in(ops, states[k - 1], values[k - 1], states[k - 1 + 1]));
        assert(values.take(k).drop_last() =~= values.take(k - 1));
        assert(values.take(k).last() == values[k - 1]);
    }
}

/// The size of a number.
pub open spec fn size(a: real) -> real {
    if a < 0real {
        -a
    } else {
        a
    }
}

/// `error` is found from the larger number, the total and the smaller number.
pub open spec fn is_found_error<T, A: Arithmetic<T>>(
    ops: A,
    big: T,
    little: T,
    total: T,
    error: T,
) -> bool {
    exists|rest: T| #[trigger]
        crate::arithmetic::minus_gives(ops, big, total, rest) && crate::arithmetic::plus_gives(
            ops,
            rest,
            little,
            error,
        )
}

/// Addition may round, but what it rounds off can be found: subtracting the total
/// from the larger number and adding the smaller one gives exactly what was
/// dropped, a `small` number, and small numbers are added exactly. Magnitudes and
/// comparisons are exact.
pub open spec fn has_findable_errors<T, A: Arithmetic<T>>(
    ops: A,
    value: spec_fn(T) -> real,
    small: spec_fn(T) -> bool,
) -> bool {
    &&& forall|r: T| #[trigger]
        crate::arithmetic::zero_gives(ops, r) ==> value(r) == 0real && small(r)
    &&& forall|a: T, m: T| #[trigger]
        call_ensures(A::magnitude, (&ops, a), m) ==> value(m) == size(value(a))
    &&& forall|a: T, b: T, says: bool| #[trigger]
        call_ensures(A::at_least, (&ops, a, b), says) ==> says == (value(a) >= value(b))
    &&& forall|a: T, b: T, r: T| #[trigger]
        crate::arithmetic::plus_gives(ops, a, b, r) && small(a) && small(b) ==> value(r) == value(a)
            + value(b) && small(r)
    &&& forall|s: T, v: T, t: T, e: T|
        #![trigger crate::arithmetic::plus_gives(ops, s, v, t), is_found_error(ops, s, v, t, e)]
        crate::arithmetic::plus_gives(ops, s, v, t) && size(value(s)) >= size(value(v))
            && is_found_error(ops, s, v, t, e) ==> value(e) == value(s) + value(v) - value(t)
            && small(e)
    &&& forall|s: T, v: T, t: T, e: T|
        #![trigger crate::arithmetic::plus_gives(ops, s, v, t), is_found_error(ops, v, s, t, e)]
        crate::arithmetic::plus_gives(ops, s, v, t) && size(value(v)) > size(value(s))
            && is_found_error(ops, v, s, t, e) ==> value(e) == value(s) + value(v) - value(t)
            && small(e)
}

/// The compensated sum rounds once only: where addition rounds but what it rounds
/// off can be found, the sum and the compensation at the end make up the exact sum
/// of all values, and the result is their sum.
pub proof fn law_compensation_recovers_what_additions_drop<T, A: Arithmetic<T>>(
    ops: A,
    value: spec_fn(T) -> real,
    small: spec_fn(T) -> bool,
    values: Seq<T>,
    total: T,
)
    requires
        has_findable_errors(ops, value, small),
        is_compensated_sum(ops, values, total),
    ensures
        exists|sum: T, compensation: T| #[trigger]
            crate::arithmetic::plus_gives(ops, sum, compensation, total) && value(sum) + value(
                compensation,
            ) == crate::operator::laws::total(values.len() as int, |k: int| value(values[k])),
{
    let states = choose|states: Seq<Compensated<T>>| #[trigger]
        is_compensated_run(ops, values, states) && crate::arithmetic::plus_gives(
            ops,
            states.last().sum,
            states.last().compensation,
            total,
        );
    let n = values.len() as int;
    lemma_compensated_prefix(ops, value, small, values, states, n);
    crate::operator::laws::lemma_total_same(
        n,
        |k: int| value(values[k]),
        |k: int| value(values[k]),
    );
    assert(states.last() == states[n]);
}

proof fn lemma_compensated_prefix<T, A: Arithmetic<T>>(
    ops: A,
    value: spec_fn(T) -> real,
    small: spec_fn(T) -> bool,
    values: Seq<T>,
    states: Seq<Compensated<T>>,
    k: int,
)
    requires
        has_findable_errors(ops, value, small),
        is_compensated_run(ops, values, states),
        0 <= k <= values.len(),
    ensures
        small(states[k].compensation),
        value(states[k].sum) + value(states[k].compensation) == crate::operator::laws::total(
            k,
            |j: int| value(values[j]),
        ),
    decreases k,
{
    if k > 0 {
        lemma_compensated_prefix(ops, value, small, values, states, k - 1);
        assert(takes_in(ops, states[k - 1], values[k - 1], states[k - 1 + 1]));
        let before = states[k - 1];
        let after = states[k];
        let v = values[k - 1];
        let (larger, dropped) = choose|larger: bool, dropped: T| #[trigger]
            is_dropped(ops, before.sum, v, after.sum, larger, dropped)
                && crate::arithmetic::plus_gives(ops, before.sum, v, after.sum)
                && crate::arithmetic::plus_gives(
                ops,
                before.compensation,
                dropped,
                after.compensation,
            );
        let (a, b) = choose|a: T, b: T| #[trigger]
            call_ensures(A::at_least, (&ops, a, b), larger) && call_ensures(
                A::magnitude,
                (&ops, before.sum),
                a,
            ) && call_ensures(A::magnitude, (&ops, v), b);
        if larger {
            assert(is_found_error(ops, before.sum, v, after.sum, dropped));
        } else {
            assert(is_found_error(ops, v, before.sum, after.sum, dropped));
        }
        assert(value(dropped) == value(before.sum) + value(v) - value(after.sum)
            && small(dropped));
    }
}

} // verus!
