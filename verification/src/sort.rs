//! Sorting numbers from the greatest to the least.

use vstd::prelude::*;
use vstd::seq_lib::{lemma_multiset_commutative, to_multiset_build};

verus! {

/// Whether no number in `s` is followed by a greater one.
pub open spec fn is_descending(s: Seq<u32>) -> bool {
    forall|i: int, j: int| 0 <= i <= j < s.len() ==> s[i] >= s[j]
}

/// The numbers of two descending runs in one descending run.
fn merge_descending(left: &Vec<u32>, right: &Vec<u32>) -> (merged: Vec<u32>)
    requires
        is_descending(left@),
        is_descending(right@),
        left@.len() + right@.len() <= usize::MAX,
    ensures
        is_descending(merged@),
        merged@.to_multiset() == left@.to_multiset().add(right@.to_multiset()),
        merged@.len() == left@.len() + right@.len(),
{
    let mut merged: Vec<u32> = Vec::with_capacity(left.len() + right.len());
    let mut i: usize = 0;
    let mut j: usize = 0;
    proof {
        lemma_multiset_commutative(left@.take(0), right@.take(0));
        assert(left@.take(0) + right@.take(0) =~= merged@);
    }
    while i < left.len() || j < right.len()
        invariant
            i <= left.len(),
            j <= right.len(),
            is_descending(left@),
            is_descending(right@),
            is_descending(merged@),
            merged@.len() == i + j,
            merged@.to_multiset() == left@.take(i as int).to_multiset().add(
                right@.take(j as int).to_multiset(),
            ),
            forall|k: int| 0 <= k < merged@.len() && i < left@.len() ==> merged@[k] >= left@[i as int],
            forall|k: int|
                0 <= k < merged@.len() && j < right@.len() ==> merged@[k] >= right@[j as int],
        decreases left.len() - i + (right.len() - j),
    {
        let ghost before = merged@;
        if j >= right.len() || (i < left.len() && left[i] >= right[j]) {
            let value = left[i];
            merged.push(value);
            proof {
                to_multiset_build(before, value);
                to_multiset_build(left@.take(i as int), value);
                assert(left@.take(i + 1) =~= left@.take(i as int).push(value));
                assert(merged@.to_multiset() =~= left@.take(i + 1).to_multiset().add(
                    right@.take(j as int).to_multiset(),
                ));
            }
            i += 1;
        } else {
            let value = right[j];
            merged.push(value);
            proof {
                to_multiset_build(before, value);
                to_multiset_build(right@.take(j as int), value);
                assert(right@.take(j + 1) =~= right@.take(j as int).push(value));
                assert(merged@.to_multiset() =~= left@.take(i as int).to_multiset().add(
                    right@.take(j + 1).to_multiset(),
                ));
            }
            j += 1;
        }
        assert forall|a: int, b: int| 0 <= a <= b < merged@.len() implies merged@[a]
            >= merged@[b] by {
            if b < before.len() {
                assert(before[a] >= before[b]);
            }
        }
    }
    proof {
        assert(left@.take(i as int) =~= left@);
        assert(right@.take(j as int) =~= right@);
    }
    merged
}

/// The numbers of `values`, each as often as there, from the greatest to
/// the least.
pub fn sort_descending(values: &[u32]) -> (sorted: Vec<u32>)
    ensures
        is_descending(sorted@),
        sorted@.to_multiset() == values@.to_multiset(),
        sorted@.len() == values@.len(),
    decreases values@.len(),
{
    let len = values.len();
    if len <= 1 {
        let mut sorted: Vec<u32> = Vec::with_capacity(len);
        if len == 1 {
            sorted.push(values[0]);
        }
        assert(sorted@ =~= values@);
        return sorted;
    }
    let middle = len / 2;
    let left = sort_descending(&values[0..middle]);
    let right = sort_descending(&values[middle..len]);
    proof {
        let first = values@.subrange(0, middle as int);
        let second = values@.subrange(middle as int, len as int);
        assert(first + second =~= values@);
        lemma_multiset_commutative(first, second);
    }
    merge_descending(&left, &right)
}

} // verus!
