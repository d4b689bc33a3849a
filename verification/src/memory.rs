//! Counting the bytes that the parts of an aggregation take up.

use vstd::prelude::*;

verus! {

/// A number of bytes, as far as it can be counted.
pub open spec fn saturated(bytes: nat) -> nat {
    if bytes <= usize::MAX {
        bytes
    } else {
        usize::MAX as nat
    }
}

/// The sum of the sizes.
pub open spec fn sum(sizes: Seq<usize>) -> nat
    decreases sizes.len(),
{
    if sizes.len() == 0 {
        0
    } else {
        sum(sizes.drop_last()) + sizes.last() as nat
    }
}

/// `Vec::capacity`: the number of elements that the vector has room for.
#[verifier::external_body]
fn vec_capacity<T>(v: &Vec<T>) -> (n: usize)
    ensures
        n >= v@.len(),
{
    v.capacity()
}

/// Whether the vector can say that it has room for so many elements.
pub closed spec fn has_room<T>(v: &Vec<T>, elements: usize) -> bool {
    call_ensures(vec_capacity::<T>, (v,), elements)
}

/// Whether the number is that of the bytes that the vector has room for.
pub open spec fn is_allocated<T>(v: &Vec<T>, bytes: usize) -> bool {
    exists|elements: usize| #[trigger]
        has_room(v, elements) && v@.len() <= elements && bytes == saturated(
            elements as nat * vstd::layout::size_of::<T>(),
        )
}

/// The sum of the sizes, as far as it can be counted.
pub fn total_size(sizes: &Vec<usize>) -> (total: usize)
    ensures
        total == saturated(sum(sizes@)),
{
    let mut total: usize = 0;
    let mut i: usize = 0;
    assert(sizes@.take(0) =~= Seq::<usize>::empty());
    while i < sizes.len()
        invariant
            i <= sizes@.len(),
            total == saturated(sum(sizes@.take(i as int))),
        decreases sizes@.len() - i,
    {
        total = total.saturating_add(sizes[i]);
        assert(sizes@.take(i + 1).drop_last() =~= sizes@.take(i as int));
        i += 1;
    }
    assert(sizes@.take(i as int) =~= sizes@);
    total
}

/// The number of bytes that a vector has room for, as far as it can be counted.
pub fn allocated_size<T>(v: &Vec<T>) -> (bytes: usize)
    ensures
        is_allocated(v, bytes),
{
    let capacity = vec_capacity(v);
    assert(has_room(v, capacity));
    match capacity.checked_mul(std::mem::size_of::<T>()) {
        Some(bytes) => bytes,
        None => usize::MAX,
    }
}

/// The sum of four sizes.
pub proof fn lemma_sum_of_four(a: usize, b: usize, c: usize, d: usize)
    ensures
        sum(seq![a, b, c, d]) == a + b + c + d,
{
    reveal_with_fuel(sum, 5);
    assert(seq![a, b, c, d].drop_last() =~= seq![a, b, c]);
    assert(seq![a, b, c].drop_last() =~= seq![a, b]);
    assert(seq![a, b].drop_last() =~= seq![a]);
    assert(seq![a].drop_last() =~= Seq::<usize>::empty());
}

} // verus!
