//! Top-down merge sort over a closed index range: sort both halves
//! recursively, then merge them through a temporary buffer that is copied
//! back in place.

use crate::sort::sorted;
use crate::sort::sorted_between;
use crate::sort::Orderable;
use vstd::prelude::*;
use vstd::seq_lib::group_to_multiset_ensures;
use vstd::seq_lib::lemma_multiset_commutative;

verus! {

/// Sort in place.  The array ends up ordered by `le_spec` and holds the same
/// elements, multiplicity included.  The empty array is not accepted: the
/// initial right bound is the last index.
pub fn merge_sort<T: Orderable + Copy>(array: &mut Vec<T>)
    requires
        old(array)@.len() >= 1,
    ensures
        final(array)@.len() == old(array)@.len(),
        sorted(final(array)@),
        final(array)@.to_multiset() == old(array)@.to_multiset(),
{
    let right = array.len() - 1;
    merge_sort_helper(array, 0, right);
    proof {
        assert(final(array)@.subrange(0, final(array)@.len() as int) =~= final(array)@);
        assert(old(array)@.subrange(0, old(array)@.len() as int) =~= old(array)@);
    }
}

/// Sort the closed range `[left, right]` in place; everything outside it is
/// untouched.
fn merge_sort_helper<T: Orderable + Copy>(array: &mut Vec<T>, left: usize, right: usize)
    requires
        (right as int) < old(array)@.len() || left >= right,
    ensures
        final(array)@.len() == old(array)@.len(),
        forall|k: int|
            0 <= k < old(array)@.len() && !(left <= k <= right) ==> final(array)@[k] == old(
                array,
            )@[k],
        left <= right ==> final(array)@.subrange(left as int, right + 1).to_multiset() == old(
            array,
        )@.subrange(left as int, right + 1).to_multiset(),
        left <= right ==> sorted_between(final(array)@, left as int, right + 1),
        left >= right ==> final(array)@ == old(array)@,
    decreases (if left < right { right - left } else { 0int }),
{
    if left < right {
        let mid = left + (right - left) / 2;
        merge_sort_helper(array, left, mid);
        let ghost half = array@;
        merge_sort_helper(array, mid + 1, right);
        proof {
            assert(array@.subrange(left as int, mid + 1) =~= half.subrange(left as int, mid + 1));
            assert(sorted_between(array@, left as int, mid + 1));
        }
        let ghost pre_merge = array@;
        merge(array, left, mid, right);
        proof {
            broadcast use group_to_multiset_ensures;

            let a0 = old(array)@.subrange(left as int, mid + 1);
            let b0 = old(array)@.subrange(mid + 1, right + 1);
            let a1 = half.subrange(left as int, mid + 1);
            let b1 = half.subrange(mid + 1, right + 1);
            assert(b1 =~= b0);
            assert(a1.to_multiset() == a0.to_multiset());
            assert(pre_merge.subrange(left as int, mid + 1) =~= a1);
            assert(pre_merge.subrange(mid + 1, right + 1).to_multiset() == b1.to_multiset());
            assert(pre_merge.subrange(left as int, right + 1) =~= pre_merge.subrange(
                left as int,
                mid + 1,
            ) + pre_merge.subrange(mid + 1, right + 1));
            assert(old(array)@.subrange(left as int, right + 1) =~= a0 + b0);
            lemma_multiset_commutative(
                pre_merge.subrange(left as int, mid + 1),
                pre_merge.subrange(mid + 1, right + 1),
            );
            lemma_multiset_commutative(a0, b0);
            assert(final(array)@.subrange(left as int, right + 1).to_multiset()
                == pre_merge.subrange(left as int, right + 1).to_multiset());
        }
    }
}

/// Merge two adjacent sorted runs `[left, mid]` and `[mid + 1, right]` into
/// one sorted run, in place.
#[verifier::loop_isolation(false)]
fn merge<T: Orderable + Copy>(array: &mut Vec<T>, left: usize, mid: usize, right: usize)
    requires
        left <= mid < right,
        (right as int) < old(array)@.len(),
        sorted_between(old(array)@, left as int, mid + 1),
        sorted_between(old(array)@, mid + 1, right + 1),
    ensures
        final(array)@.len() == old(array)@.len(),
        forall|k: int|
            0 <= k < old(array)@.len() && !(left <= k <= right) ==> final(array)@[k] == old(
                array,
            )@[k],
        final(array)@.subrange(left as int, right + 1).to_multiset() == old(array)@.subrange(
            left as int,
            right + 1,
        ).to_multiset(),
        sorted_between(final(array)@, left as int, right + 1),
{
    proof {
        broadcast use group_to_multiset_ensures;

    }
    let total = array.len();
    proof {
        // binding the length ties the indices below to the machine range
        assert(right < total);
    }
    let size = right - left + 1;
    let a_len = mid - left + 1;
    let mut result: Vec<T> = Vec::new();
    let mut first_iter: usize = 0;
    let mut second_iter: usize = 0;
    while first_iter < a_len || second_iter < size - a_len
        invariant
            0 <= first_iter <= a_len,
            0 <= second_iter <= size - a_len,
            array@ == old(array)@,
            result@.len() == first_iter + second_iter,
            result@.to_multiset() == (array@.subrange(left as int, left + first_iter)
                + array@.subrange(mid + 1, mid + 1 + second_iter)).to_multiset(),
            sorted(result@),
            forall|k: int|
                0 <= k < result@.len() && first_iter < a_len ==> (#[trigger] result@[k]).le_spec(
                    array@[left + first_iter],
                ),
            forall|k: int|
                0 <= k < result@.len() && second_iter < size - a_len ==> (
                #[trigger] result@[k]).le_spec(array@[mid + 1 + second_iter]),
        decreases size - first_iter - second_iter,
    {
        let ghost r0 = result@;
        let take_first = if first_iter >= a_len {
            false
        } else if second_iter >= size - a_len {
            true
        } else {
            !array[mid + 1 + second_iter].le(&array[left + first_iter])
        };
        if take_first {
            let x = array[left + first_iter];
            result.push(x);
            proof {
                if second_iter < size - a_len {
                    T::lemma_le_total(
                        array@[mid + 1 + second_iter],
                        array@[left + first_iter],
                    );
                }
                assert(result@ =~= r0.push(x));
                lemma_emit(
                    r0,
                    x,
                    array@,
                    left as int,
                    mid as int,
                    right as int,
                    first_iter as int,
                    second_iter as int,
                    true,
                );
                assert(array@.subrange(left as int, left + first_iter + 1) =~= array@.subrange(
                    left as int,
                    left + first_iter,
                ).push(x));
                lemma_multiset_commutative(
                    array@.subrange(left as int, left + first_iter),
                    array@.subrange(mid + 1, mid + 1 + second_iter),
                );
                lemma_multiset_commutative(
                    array@.subrange(left as int, left + first_iter + 1),
                    array@.subrange(mid + 1, mid + 1 + second_iter),
                );
            }
            first_iter += 1;
        } else {
            let x = array[mid + 1 + second_iter];
            result.push(x);
            proof {
                if first_iter < a_len {
                    T::lemma_le_total(
                        array@[mid + 1 + second_iter],
                        array@[left + first_iter],
                    );
                }
                assert(result@ =~= r0.push(x));
                lemma_emit(
                    r0,
                    x,
                    array@,
                    left as int,
                    mid as int,
                    right as int,
                    first_iter as int,
                    second_iter as int,
                    false,
                );
                assert(array@.subrange(mid + 1, mid + 1 + second_iter + 1) =~= array@.subrange(
                    mid + 1,
                    mid + 1 + second_iter,
                ).push(x));
                lemma_multiset_commutative(
                    array@.subrange(left as int, left + first_iter),
                    array@.subrange(mid + 1, mid + 1 + second_iter),
                );
                lemma_multiset_commutative(
                    array@.subrange(left as int, left + first_iter),
                    array@.subrange(mid + 1, mid + 1 + second_iter + 1),
                );
            }
            second_iter += 1;
        }
    }
    proof {
        assert(array@.subrange(left as int, left + first_iter) =~= array@.subrange(
            left as int,
            mid + 1,
        ));
        assert(array@.subrange(mid + 1, mid + 1 + second_iter) =~= array@.subrange(
            mid + 1,
            right + 1,
        ));
        assert(array@.subrange(left as int, right + 1) =~= array@.subrange(left as int, mid + 1)
            + array@.subrange(mid + 1, right + 1));
        lemma_multiset_commutative(
            array@.subrange(left as int, mid + 1),
            array@.subrange(mid + 1, right + 1),
        );
    }
    // Copy the merged run back into place.
    let mut k: usize = 0;
    while k < size
        invariant
            0 <= k <= size,
            array@.len() == old(array)@.len(),
            result@.len() == size,
            forall|m: int| 0 <= m < old(array)@.len() && !(left <= m <= right) ==> array@[m] == old(array)@[m],
            forall|m: int| 0 <= m < k ==> #[trigger] array@[left + m] == result@[m],
            forall|m: int| k <= m < size ==> #[trigger] array@[left + m] == old(array)@[left + m],
        decreases size - k,
    {
        array[left + k] = result[k];
        k += 1;
    }
    proof {
        assert forall|m: int|
            0 <= m < size implies final(array)@.subrange(left as int, right + 1)[m]
            == result@[m] by {
            assert(final(array)@[left + m] == result@[m]);
        }
        assert(final(array)@.subrange(left as int, right + 1) =~= result@);
        assert forall|x: int, y: int|
            left <= x < y < right + 1 implies #[trigger] final(array)@[x].le_spec(
            #[trigger] final(array)@[y],
        ) by {
            assert(final(array)@[x] == result@[x - left]);
            assert(final(array)@[y] == result@[y - left]);
            assert(result@[x - left].le_spec(result@[y - left]));
        }
    }
}

/// Emitting the smaller head keeps the merged prefix sorted and below both
/// remaining heads.
proof fn lemma_emit<T: Orderable>(
    r0: Seq<T>,
    x: T,
    v: Seq<T>,
    left: int,
    mid: int,
    right: int,
    first_iter: int,
    second_iter: int,
    from_first: bool,
)
    requires
        0 <= left <= mid < right < v.len(),
        0 <= first_iter <= mid + 1 - left,
        0 <= second_iter <= right - mid,
        sorted_between(v, left, mid + 1),
        sorted_between(v, mid + 1, right + 1),
        sorted(r0),
        from_first ==> first_iter < mid + 1 - left && x == v[left + first_iter],
        !from_first ==> second_iter < right - mid && x == v[mid + 1 + second_iter],
        forall|k: int|
            0 <= k < r0.len() && first_iter < mid + 1 - left ==> (#[trigger] r0[k]).le_spec(
                v[left + first_iter],
            ),
        forall|k: int|
            0 <= k < r0.len() && second_iter < right - mid ==> (#[trigger] r0[k]).le_spec(
                v[mid + 1 + second_iter],
            ),
        from_first ==> (second_iter < right - mid ==> x.le_spec(v[mid + 1 + second_iter])),
        !from_first ==> (first_iter < mid + 1 - left ==> x.le_spec(v[left + first_iter])),
    ensures
        sorted(r0.push(x)),
        forall|k: int|
            0 <= k < r0.push(x).len() && (if from_first {
                first_iter + 1
            } else {
                first_iter
            }) < mid + 1 - left ==> (#[trigger] r0.push(x)[k]).le_spec(
                v[left + (if from_first {
                    first_iter + 1
                } else {
                    first_iter
                })],
            ),
        forall|k: int|
            0 <= k < r0.push(x).len() && (if from_first {
                second_iter
            } else {
                second_iter + 1
            }) < right - mid ==> (#[trigger] r0.push(x)[k]).le_spec(
                v[mid + 1 + (if from_first {
                    second_iter
                } else {
                    second_iter + 1
                })],
            ),
{
    let r1 = r0.push(x);
    let i1: int = if from_first {
        first_iter + 1
    } else {
        first_iter
    };
    let i2: int = if from_first {
        second_iter
    } else {
        second_iter + 1
    };
    assert forall|a: int, b: int| 0 <= a < b < r1.len() implies #[trigger] r1[a].le_spec(
        #[trigger] r1[b],
    ) by {
        if b < r0.len() {
            assert(r0[a].le_spec(r0[b]));
        } else {
            assert(r1[b] == x);
            assert(r0[a].le_spec(x));
        }
    }
    assert forall|k: int| 0 <= k < r1.len() && i1 < mid + 1 - left implies (
    #[trigger] r1[k]).le_spec(v[left + i1]) by {
        if from_first {
            if k < r0.len() {
                T::lemma_le_trans(r0[k], x, v[left + i1]);
            } else {
                assert(r1[k] == x);
                assert(x.le_spec(v[left + i1]));
            }
        } else {
            if k < r0.len() {
                assert(r0[k].le_spec(v[left + i1]));
            } else {
                assert(r1[k] == x);
                assert(x.le_spec(v[left + first_iter]));
            }
        }
    }
    assert forall|k: int| 0 <= k < r1.len() && i2 < right - mid implies (
    #[trigger] r1[k]).le_spec(v[mid + 1 + i2]) by {
        if !from_first {
            if k < r0.len() {
                T::lemma_le_trans(r0[k], x, v[mid + 1 + i2]);
            } else {
                assert(r1[k] == x);
                assert(x.le_spec(v[mid + 1 + i2]));
            }
        } else {
            if k < r0.len() {
                assert(r0[k].le_spec(v[mid + 1 + i2]));
            } else {
                assert(r1[k] == x);
                assert(x.le_spec(v[mid + 1 + second_iter]));
            }
        }
    }
}

} // verus!
