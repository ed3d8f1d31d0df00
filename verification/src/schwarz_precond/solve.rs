//! Vector helpers of the iterative solvers.

use vstd::prelude::*;

use crate::arithmetic::Arithmetic;

verus! {

/// `products[i]` is a value of `a[i] * b[i]`, as far as both reach.
pub open spec fn are_products<T, A: Arithmetic<T>>(
    ops: A,
    a: Seq<T>,
    b: Seq<T>,
    products: Seq<T>,
) -> bool {
    &&& products.len() == if a.len() < b.len() {
        a.len()
    } else {
        b.len()
    }
    &&& forall|i: int|
        0 <= i < products.len() ==> crate::arithmetic::times_gives(
            ops,
            a[i],
            b[i],
            #[trigger] products[i],
        )
}

/// `d` sums, from zero and in order, the products of the entries.
pub open spec fn is_dot<T, A: Arithmetic<T>>(ops: A, a: Seq<T>, b: Seq<T>, d: T) -> bool {
    exists|zero: T, products: Seq<T>| #[trigger]
        crate::arithmetic::sums_to(ops, zero, products, d) && crate::arithmetic::zero_gives(
            ops,
            zero,
        ) && are_products(ops, a, b, products)
}

/// Inner product of two vectors; entries that only one of them has are left out.
pub fn dot<T: Copy, A: Arithmetic<T>>(a: &[T], b: &[T], ops: &A) -> (d: T)
    ensures
        is_dot(*ops, a@, b@, d),
{
    let zero: T = ops.zero();
    let mut sum: T = zero;
    let ghost mut products = Seq::<T>::empty();
    let n: usize = if a.len() < b.len() {
        a.len()
    } else {
        b.len()
    };
    proof {
        crate::arithmetic::lemma_sums_to_nothing(*ops, zero);
    }
    let mut i: usize = 0;
    while i < n
        invariant
            i <= n <= a@.len(),
            n <= b@.len(),
            products.len() == i,
            crate::arithmetic::sums_to(*ops, zero, products, sum),
            forall|j: int|
                0 <= j < i ==> crate::arithmetic::times_gives(
                    *ops,
                    a@[j],
                    b@[j],
                    #[trigger] products[j],
                ),
        decreases n - i,
    {
        let product: T = ops.times(a[i], b[i]);
        let next: T = ops.plus(sum, product);
        proof {
            crate::arithmetic::lemma_sums_to_push(*ops, zero, products, sum, product, next);
            products = products.push(product);
        }
        sum = next;
        i = i + 1;
    }
    assert(are_products(*ops, a@, b@, products));
    sum
}

/// `norm` is a value of the square root of the sum of squares.
pub open spec fn is_norm<T, A: Arithmetic<T>>(ops: A, v: Seq<T>, norm: T) -> bool {
    exists|square: T| #[trigger]
        is_dot(ops, v, v, square) && crate::arithmetic::root_gives(ops, square, norm)
}

/// Euclidean norm of a vector.
pub fn vec_norm<T: Copy, A: Arithmetic<T>>(v: &[T], ops: &A) -> (norm: T)
    ensures
        is_norm(*ops, v@, norm),
{
    let square: T = dot(v, v, ops);
    assert(is_dot(*ops, v@, v@, square));
    ops.square_root(square)
}

/// The sum of the products of the entries' values.
pub open spec fn value_dot<T>(value: spec_fn(T) -> real, a: Seq<T>, b: Seq<T>) -> real
    decreases a.len(),
{
    if a.len() == 0 || a.len() != b.len() {
        0real
    } else {
        value_dot(value, a.drop_last(), b.drop_last()) + value(a.last()) * value(b.last())
    }
}

/// With exact arithmetic, the inner product is the sum of the products.
pub proof fn law_dot_is_exact<T, A: Arithmetic<T>>(
    ops: A,
    value: spec_fn(T) -> real,
    a: Seq<T>,
    b: Seq<T>,
    d: T,
)
    requires
        crate::arithmetic::is_exact(ops, value),
        a.len() == b.len(),
        is_dot(ops, a, b, d),
    ensures
        value(d) == value_dot(value, a, b),
{
    let (zero, products) = choose|zero: T, products: Seq<T>| #[trigger]
        crate::arithmetic::sums_to(ops, zero, products, d) && crate::arithmetic::zero_gives(
            ops,
            zero,
        ) && are_products(ops, a, b, products);
    crate::arithmetic::law_running_sum_is_exact(ops, value, zero, products, d);
    lemma_products_value(ops, value, a, b, products);
}

proof fn lemma_products_value<T, A: Arithmetic<T>>(
    ops: A,
    value: spec_fn(T) -> real,
    a: Seq<T>,
    b: Seq<T>,
    products: Seq<T>,
)
    requires
        crate::arithmetic::is_exact(ops, value),
        a.len() == b.len(),
        are_products(ops, a, b, products),
    ensures
        crate::arithmetic::value_sum(value, products) == value_dot(value, a, b),
    decreases a.len(),
{
    if a.len() > 0 {
        let last = a.len() - 1;
        assert(crate::arithmetic::times_gives(ops, a[last], b[last], products[last]));
        assert forall|i: int| 0 <= i < products.drop_last().len() implies crate::arithmetic::times_gives(
            ops,
            a.drop_last()[i],
            b.drop_last()[i],
            #[trigger] products.drop_last()[i],
        ) by {
            assert(crate::arithmetic::times_gives(ops, a[i], b[i], products[i]));
        }
        lemma_products_value(ops, value, a.drop_last(), b.drop_last(), products.drop_last());
    }
}

} // verus!
