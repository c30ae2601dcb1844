//! Exchange sort: pass after pass, the least element of the unsorted tail is
//! compared into place at its front.

use crate::sort::sorted;
use crate::sort::sorted_between;
use crate::sort::swap_items;
use crate::sort::Orderable;
use vstd::prelude::*;

verus! {

/// Sort in place.  The array ends up ordered by `le_spec` and holds the same
/// elements, multiplicity included.
#[verifier::loop_isolation(false)]
pub fn bubble_sort<T: Orderable + Copy>(array: &mut Vec<T>)
    ensures
        final(array)@.len() == old(array)@.len(),
        sorted(final(array)@),
        final(array)@.to_multiset() == old(array)@.to_multiset(),
{
    let size = array.len();
    let mut i: usize = 0;
    while i < size
        invariant
            size == array@.len(),
            0 <= i <= size,
            array@.to_multiset() == old(array)@.to_multiset(),
            sorted_between(array@, 0, i as int),
            forall|x: int, y: int|
                0 <= x < i && i <= y < size ==> #[trigger] array@[x].le_spec(#[trigger] array@[y]),
        decreases size - i,
    {
        let mut j: usize = i + 1;
        while j < size
            invariant
                size == array@.len(),
                0 <= i < size,
                i < j <= size,
                array@.to_multiset() == old(array)@.to_multiset(),
                sorted_between(array@, 0, i as int),
                forall|x: int, y: int|
                    0 <= x < i && i <= y < size ==> #[trigger] array@[x].le_spec(
                        #[trigger] array@[y],
                    ),
                forall|k: int| i < k < j ==> array@[i as int].le_spec(#[trigger] array@[k]),
            decreases size - j,
        {
            if !(array[i].le(&array[j])) {
                proof {
                    T::lemma_le_total(array@[i as int], array@[j as int]);
                }
                let ghost before = array@;
                swap_items(array, i, j);
                proof {
                    assert forall|k: int| i < k < j + 1 implies array@[i as int].le_spec(
                        #[trigger] array@[k],
                    ) by {
                        if k < j {
                            T::lemma_le_trans(before[j as int], before[i as int], before[k]);
                        }
                    }
                }
            }
            j += 1;
        }
        i += 1;
    }
}

} // verus!
