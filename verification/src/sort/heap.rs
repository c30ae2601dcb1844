//! Heap sort: build a max-heap in place, then repeatedly swap the root to
//! the end of the shrinking heap and sift the new root down.

use crate::sort::sorted;
use crate::sort::sorted_between;
use crate::sort::swap_items;
use crate::sort::Orderable;
use vstd::multiset::Multiset;
use vstd::prelude::*;
use vstd::seq_lib::group_to_multiset_ensures;
use vstd::seq_lib::lemma_multiset_commutative;

verus! {

/// Max-heap order on the first `size` entries: every child is at most its
/// parent.
pub open spec fn heap_until<T: Orderable>(s: Seq<T>, size: int) -> bool {
    forall|k: int| 1 <= k < size ==> (#[trigger] s[k]).le_spec(s[(k - 1) / 2])
}

/// `k` lies in the subtree rooted at `root` of the implicit binary tree.
pub(crate) open spec fn in_subtree(root: int, k: int) -> bool
    decreases (if k >= 0 {
        k
    } else {
        0int
    }),
{
    if k < 0 {
        false
    } else if k == root {
        true
    } else if k <= root || k == 0 {
        false
    } else {
        in_subtree(root, (k - 1) / 2)
    }
}

/// `b` bounds the root and both direct children of `index`.
pub(crate) open spec fn tops<T: Orderable>(s: Seq<T>, size: int, index: int, b: T) -> bool {
    &&& s[index].le_spec(b)
    &&& (2 * index + 1 < size ==> s[2 * index + 1].le_spec(b))
    &&& (2 * index + 2 < size ==> s[2 * index + 2].le_spec(b))
}

proof fn lemma_subtree_ge(root: int, k: int)
    requires
        in_subtree(root, k),
    ensures
        k >= root,
    decreases (if k >= 0 {
        k
    } else {
        0int
    }),
{
    if k >= 0 && k != root && k > root {
        lemma_subtree_ge(root, (k - 1) / 2);
    }
}

proof fn lemma_subtree_trans(a: int, b: int, k: int)
    requires
        in_subtree(a, b),
        in_subtree(b, k),
    ensures
        in_subtree(a, k),
    decreases (if k >= 0 {
        k
    } else {
        0int
    }),
{
    if k != b {
        lemma_subtree_ge(b, k);
        lemma_subtree_ge(a, b);
        lemma_subtree_trans(a, b, (k - 1) / 2);
    }
}

/// In a heap every entry is at most the root.
proof fn lemma_heap_root_max<T: Orderable>(s: Seq<T>, size: int, k: int)
    requires
        heap_until(s, size),
        size <= s.len(),
        0 <= k < size,
    ensures
        s[k].le_spec(s[0]),
    decreases k,
{
    if k == 0 {
        T::lemma_le_total(s[0], s[0]);
    } else {
        lemma_heap_root_max(s, size, (k - 1) / 2);
        T::lemma_le_trans(s[k], s[(k - 1) / 2], s[0]);
    }
}

/// Equal multisets stay equal when a common part is cancelled.
proof fn lemma_multiset_cancel<T>(a: Multiset<T>, b: Multiset<T>, c: Multiset<T>)
    requires
        a.add(c) == b.add(c),
    ensures
        a == b,
{
    broadcast use vstd::multiset::group_multiset_axioms;

    assert forall|x: T| a.count(x) == b.count(x) by {
        assert(a.add(c).count(x) == b.add(c).count(x));
        assert(a.add(c).count(x) == a.count(x) + c.count(x));
        assert(b.add(c).count(x) == b.count(x) + c.count(x));
    }
    assert(a =~= b);
}

/// Sift the entry at `index` down inside the heap of the first `size`
/// entries: afterwards every parent-child pair with parent at or below
/// `index` is in heap order.  Only the subtree of `index` is touched, the
/// multiset of elements is unchanged, and the new entry at `index` is
/// bounded by any bound of the old entry and its children.
#[verifier::rlimit(30)]
fn heapify<T: Orderable + Copy>(array: &mut Vec<T>, size: usize, index: usize)
    requires
        size as int <= old(array)@.len(),
        (index as int) < old(array)@.len(),
        index as int <= size as int,
        2 * (size as int) + 2 <= usize::MAX,
        forall|k: int|
            1 <= k < size && (k - 1) / 2 > index ==> (#[trigger] old(array)@[k]).le_spec(
                old(array)@[(k - 1) / 2],
            ),
    ensures
        final(array)@.len() == old(array)@.len(),
        final(array)@.to_multiset() == old(array)@.to_multiset(),
        forall|k: int|
            0 <= k < old(array)@.len() && !(in_subtree(index as int, k) && k < size)
                ==> #[trigger] final(array)@[k] == old(array)@[k],
        forall|k: int|
            1 <= k < size && (k - 1) / 2 >= index ==> (#[trigger] final(array)@[k]).le_spec(
                final(array)@[(k - 1) / 2],
            ),
        forall|b: T|
            tops(old(array)@, size as int, index as int, b)
                ==> #[trigger] final(array)@[index as int].le_spec(b),
    decreases old(array)@.len() - index,
{
    let left = index * 2 + 1;
    let right = index * 2 + 2;
    let mut largest = index;

    if left < size && !(array[left].le(&array[largest])) {
        proof {
            T::lemma_le_total(array@[left as int], array@[largest as int]);
        }
        largest = left;
    }
    let ghost l1 = largest as int;
    if right < size && !(array[right].le(&array[largest])) {
        proof {
            T::lemma_le_total(array@[right as int], array@[largest as int]);
        }
        largest = right;
    }
    proof {
        let s0 = array@;
        T::lemma_le_total(s0[index as int], s0[index as int]);
        if left < size {
            T::lemma_le_total(s0[left as int], s0[left as int]);
        }
        if right < size {
            T::lemma_le_total(s0[right as int], s0[right as int]);
        }
        if largest as int != l1 && l1 != index as int {
            T::lemma_le_trans(s0[index as int], s0[l1], s0[largest as int]);
        }
        if left < size && largest as int != l1 {
            T::lemma_le_trans(s0[left as int], s0[l1], s0[largest as int]);
        }
        assert(s0[index as int].le_spec(s0[largest as int]));
        assert(left < size ==> s0[left as int].le_spec(s0[largest as int]));
        assert(right < size ==> s0[right as int].le_spec(s0[largest as int]));
        if largest != index {
            assert((2 * (index as int) + 1 - 1) / 2 == index as int);
            assert((2 * (index as int) + 2 - 1) / 2 == index as int);
            assert(in_subtree(index as int, index as int));
            assert(in_subtree(index as int, largest as int));
        }
    }
    if largest != index {
        let ghost pre = array@;
        swap_items(array, index, largest);
        let ghost mid = array@;
        proof {
            assert forall|k: int|
                1 <= k < size && (k - 1) / 2 > largest implies (#[trigger] mid[k]).le_spec(
                mid[(k - 1) / 2],
            ) by {
                assert(pre[k].le_spec(pre[(k - 1) / 2]));
            }
        }
        heapify(array, size, largest);
        proof {
            let fin = array@;
            // The demoted entry and the untouched sibling stay below the
            // promoted one.
            assert forall|k: int|
                1 <= k < size && (k - 1) / 2 >= index implies (#[trigger] fin[k]).le_spec(
                fin[(k - 1) / 2],
            ) by {
                let par = (k - 1) / 2;
                if par == index {
                    assert(!in_subtree(largest as int, index as int));
                    assert(fin[index as int] == pre[largest as int]);
                    if k == largest {
                        assert forall|b: T|
                            tops(mid, size as int, largest as int, b) implies (#[trigger] fin[largest as int].le_spec(
                            b,
                        )) by {}
                        assert(mid[largest as int] == pre[index as int]);
                        assert(pre[index as int].le_spec(pre[largest as int]));
                        assert(2 * (largest as int) + 1 < size ==> mid[2 * (largest as int)
                            + 1].le_spec(pre[largest as int]));
                        assert(2 * (largest as int) + 2 < size ==> mid[2 * (largest as int)
                            + 2].le_spec(pre[largest as int]));
                        assert(tops(mid, size as int, largest as int, pre[largest as int]));
                        assert(fin[k].le_spec(pre[largest as int]));
                    } else {
                        assert(!in_subtree(largest as int, k));
                        assert(fin[k] == pre[k]);
                        assert(pre[k].le_spec(pre[largest as int]));
                    }
                } else if par >= largest {
                    assert(fin[k].le_spec(fin[par]));
                } else {
                    // The parent lies strictly between: neither endpoint of
                    // this pair was touched.
                    assert(!in_subtree(largest as int, par));
                    if in_subtree(largest as int, k) {
                        assert(k != largest);
                        assert(in_subtree(largest as int, (k - 1) / 2));
                        assert(false);
                    }
                    assert(fin[k] == pre[k] && fin[par] == pre[par]);
                    assert(pre[k].le_spec(pre[par]));
                }
            }
            assert forall|k: int|
                0 <= k < pre.len() && !(in_subtree(index as int, k) && k < size) implies fin[k]
                == pre[k] by {
                if in_subtree(largest as int, k) {
                    lemma_subtree_trans(index as int, largest as int, k);
                }
            }
            assert forall|b: T|
                tops(pre, size as int, index as int, b) implies (#[trigger] fin[index as int].le_spec(
                b,
            )) by {
                assert(!in_subtree(largest as int, index as int));
                assert(fin[index as int] == pre[largest as int]);
            }
        }
    }
}

/// Sort in place.  The array ends up ordered by `le_spec` and holds the
/// same elements, multiplicity included.  Arrays of fewer than two
/// elements are not accepted: the build pass starts at the last parent
/// index.
#[verifier::loop_isolation(false)]
pub fn heap_sort<T: Orderable + Copy>(array: &mut Vec<T>)
    requires
        old(array)@.len() >= 2,
        2 * old(array)@.len() + 2 <= usize::MAX,
    ensures
        final(array)@.len() == old(array)@.len(),
        sorted(final(array)@),
        final(array)@.to_multiset() == old(array)@.to_multiset(),
{
    let size = array.len();

    // Build the heap bottom-up from the last parent.
    let mut i = size / 2;
    while i > 0
        invariant
            size == array@.len(),
            0 <= i <= size / 2,
            array@.to_multiset() == old(array)@.to_multiset(),
            forall|k: int|
                1 <= k < size && (k - 1) / 2 >= i ==> (#[trigger] array@[k]).le_spec(
                    array@[(k - 1) / 2],
                ),
        decreases i,
    {
        i -= 1;
        heapify(array, size, i);
    }

    // Repeatedly move the heap maximum behind the shrinking heap.
    let mut j = size;
    while j > 0
        invariant
            size == array@.len(),
            0 <= j <= size,
            array@.to_multiset() == old(array)@.to_multiset(),
            heap_until(array@, j as int),
            sorted_between(array@, j as int, size as int),
            forall|a: int, b: int|
                0 <= a < j <= b < size ==> (#[trigger] array@[a]).le_spec(#[trigger] array@[b]),
        decreases j,
    {
        j -= 1;
        let ghost pre = array@;
        swap_items(array, 0, j);
        let ghost mid = array@;
        proof {
            broadcast use group_to_multiset_ensures;

            assert forall|a: int, b: int|
                0 <= a < j <= b < size implies (#[trigger] mid[a]).le_spec(#[trigger] mid[b]) by {
                lemma_heap_root_max(pre, j + 1, a + 0);
                lemma_heap_root_max(pre, j + 1, j as int);
                if b == j {
                    if a == 0 {
                        assert(mid[a] == pre[j as int]);
                        assert(mid[b] == pre[0]);
                    } else {
                        assert(mid[a] == pre[a]);
                        assert(mid[b] == pre[0]);
                    }
                } else {
                    T::lemma_le_trans(mid[a], pre[0], mid[b]);
                }
            }
            assert forall|k: int|
                1 <= k < j && (k - 1) / 2 > 0 implies (#[trigger] mid[k]).le_spec(
                mid[(k - 1) / 2],
            ) by {
                assert(pre[k].le_spec(pre[(k - 1) / 2]));
            }
        }
        heapify(array, j, 0);
        proof {
            broadcast use group_to_multiset_ensures;

            let fin = array@;
            // The heapified prefix is a permutation of what it was, so it
            // stays below the settled suffix.
            assert(fin.subrange(j as int, size as int) =~= mid.subrange(j as int, size as int));
            assert(mid =~= mid.subrange(0, j as int) + mid.subrange(j as int, size as int));
            assert(fin =~= fin.subrange(0, j as int) + fin.subrange(j as int, size as int));
            lemma_multiset_commutative(
                mid.subrange(0, j as int),
                mid.subrange(j as int, size as int),
            );
            lemma_multiset_commutative(
                fin.subrange(0, j as int),
                fin.subrange(j as int, size as int),
            );
            lemma_multiset_cancel(
                fin.subrange(0, j as int).to_multiset(),
                mid.subrange(0, j as int).to_multiset(),
                mid.subrange(j as int, size as int).to_multiset(),
            );
            assert forall|a: int, b: int|
                0 <= a < j <= b < size implies (#[trigger] fin[a]).le_spec(#[trigger] fin[b]) by {
                assert(fin.subrange(0, j as int)[a] == fin[a]);
                fin.subrange(0, j as int).to_multiset_ensures();
                mid.subrange(0, j as int).to_multiset_ensures();
                assert(fin.subrange(0, j as int).contains(fin[a]));
                assert(fin.subrange(0, j as int).to_multiset().count(fin[a]) > 0);
                assert(mid.subrange(0, j as int).to_multiset().count(fin[a]) > 0);
                assert(mid.subrange(0, j as int).contains(fin[a]));
                let m = choose|m: int| 0 <= m < j && mid.subrange(0, j as int)[m] == fin[a];
                assert(mid[m] == fin[a]);
                assert(mid[m].le_spec(mid[b]));
                assert(fin[b] == mid[b]);
            }
        }
    }
    proof {
        assert(sorted_between(final(array)@, 0, size as int));
    }
}

} // verus!
