//! Quicksort with a middle-element pivot and a three-way partition: elements
//! below, equal to, and above the pivot are separated in one pass, then the
//! outer regions are sorted recursively.

use crate::sort::sorted;
use crate::sort::sorted_between;
use crate::sort::swap_items;
use crate::sort::Orderable;
use vstd::prelude::*;
use vstd::seq_lib::group_to_multiset_ensures;

verus! {

/// Sort in place.  The array ends up ordered by `le_spec` and holds the same
/// elements, multiplicity included.  The empty array is not accepted: the
/// initial right bound is the last index.
pub fn quick_sort<T: Orderable + Copy>(array: &mut Vec<T>)
    requires
        old(array)@.len() >= 1,
    ensures
        final(array)@.len() == old(array)@.len(),
        sorted(final(array)@),
        final(array)@.to_multiset() == old(array)@.to_multiset(),
{
    let right = array.len() - 1;
    quick_sort_helper(array, 0, right);
    proof {
        assert(final(array)@.subrange(0, final(array)@.len() as int) =~= final(array)@);
        assert(old(array)@.subrange(0, old(array)@.len() as int) =~= old(array)@);
    }
}

/// Sort the closed range `[left, right]` in place; everything outside it is
/// untouched.  A call with `left >= right` is a no-op.
fn quick_sort_helper<T: Orderable + Copy>(array: &mut Vec<T>, left: usize, right: usize)
    requires
        (right as int) < old(array)@.len() || left >= right,
    ensures
        final(array)@.len() == old(array)@.len(),
        forall|k: int|
            0 <= k < old(array)@.len() && !(left <= k <= right) ==> final(array)@[k] == old(
                array,
            )@[k],
        left <= right ==> final(array)@.subrange(left as int, right + 1).to_multiset() == old(
            array,
        )@.subrange(left as int, right + 1).to_multiset(),
        left <= right ==> sorted_between(final(array)@, left as int, right + 1),
        left >= right ==> final(array)@ == old(array)@,
    decreases (if left < right { right - left } else { 0int }),
{
    if left < right {
        let pivot = find_pivot(array, left, right);
        proof {
            broadcast use group_to_multiset_ensures;

            let mid = (left + right) / 2int;
            assert(old(array)@.subrange(left as int, right + 1)[mid - left] == pivot);
            assert(old(array)@.subrange(left as int, right + 1).contains(pivot));
        }
        let (new_left, new_right) = find_partition(array, pivot, left, right);
        let ghost parted = array@;
        let nlm = if new_left == 0 {
            0
        } else {
            new_left - 1
        };
        quick_sort_helper(array, left, nlm);
        let ghost first_done = array@;
        quick_sort_helper(array, new_right, right);
        proof {
            broadcast use group_to_multiset_ensures;

            T::lemma_le_total(pivot, pivot);
            lemma_helper_combine::<T>(
                parted,
                first_done,
                array@,
                pivot,
                left as int,
                right as int,
                new_left as int,
                new_right as int,
            );
            assert(array@.subrange(left as int, right + 1).to_multiset() == old(
                array,
            )@.subrange(left as int, right + 1).to_multiset());
        }
    }
}

/// The pivot: the element at the middle index of the closed range.
fn find_pivot<T: Orderable + Copy>(array: &Vec<T>, left: usize, right: usize) -> (p: T)
    requires
        left <= right,
        (right as int) < array@.len(),
    ensures
        p == array@[(left + right) / 2int],
{
    let mid = left + (right - left) / 2;
    proof {
        assert(left + (right - left) / 2int == (left + right) / 2int);
    }
    array[mid]
}

/// One pass of three-way partitioning of the closed range `[left, right]`:
/// afterwards the range splits at the returned bounds into elements strictly
/// below the pivot, elements equal to it (at least one), and elements
/// strictly above it.
#[verifier::loop_isolation(false)]
fn find_partition<T: Orderable + Copy>(array: &mut Vec<T>, pivot: T, left: usize, right: usize) -> (r:
    (usize, usize))
    requires
        left <= right,
        (right as int) < old(array)@.len(),
        old(array)@.subrange(left as int, right + 1).to_multiset().contains(pivot),
    ensures
        final(array)@.len() == old(array)@.len(),
        forall|k: int|
            0 <= k < old(array)@.len() && !(left <= k <= right) ==> final(array)@[k] == old(
                array,
            )@[k],
        final(array)@.subrange(left as int, right + 1).to_multiset() == old(array)@.subrange(
            left as int,
            right + 1,
        ).to_multiset(),
        left <= r.0 as int && r.0 < r.1 && r.1 <= right + 1,
        forall|k: int| left <= k < r.0 ==> !pivot.le_spec(#[trigger] final(array)@[k]),
        forall|k: int|
            r.0 <= k < r.1 ==> (#[trigger] final(array)@[k]).le_spec(pivot) && pivot.le_spec(
                final(array)@[k],
            ),
        forall|k: int| r.1 <= k <= right ==> !(#[trigger] final(array)@[k]).le_spec(pivot),
{
    proof {
        broadcast use group_to_multiset_ensures;

    }
    let total = array.len();
    proof {
        // binding the length ties the indices below to the machine range
        assert(right < total);
    }
    let mut lo = left;
    let mut cur = left;
    let mut ub = right;
    while cur <= ub
        invariant
            left <= lo <= cur,
            cur <= ub + 1,
            ub <= right,
            array@.len() == old(array)@.len(),
            forall|k: int|
                0 <= k < old(array)@.len() && !(left <= k <= right) ==> array@[k] == old(
                    array,
                )@[k],
            array@.subrange(left as int, right + 1).to_multiset() == old(array)@.subrange(
                left as int,
                right + 1,
            ).to_multiset(),
            forall|k: int| left <= k < lo ==> !pivot.le_spec(#[trigger] array@[k]),
            forall|k: int|
                lo <= k < cur ==> (#[trigger] array@[k]).le_spec(pivot) && pivot.le_spec(
                    array@[k],
                ),
            forall|k: int| ub < k <= right ==> !(#[trigger] array@[k]).le_spec(pivot),
            array@.subrange(lo as int, ub + 1).to_multiset().contains(pivot),
        decreases ub + 1 - cur,
    {
        let below = !array[cur].le(&pivot);
        let above = !pivot.le(&array[cur]);
        let ghost pre = array@;
        if below {
            // The element is above the pivot: move it to the top region.
            proof {
                T::lemma_le_total(pivot, pre[cur as int]);
                T::lemma_le_total(pivot, pivot);
                if ub == 0 {
                    let w = pre.subrange(lo as int, ub + 1);
                    w.to_multiset_ensures();
                    assert(w.contains(pivot));
                    let k = choose|k: int| 0 <= k < w.len() && w[k] == pivot;
                    assert(w[0] == pre[0]);
                    assert(false);
                }
            }
            swap_items(array, cur, ub);
            proof {
                assert(array@.subrange(left as int, right + 1) =~= pre.subrange(
                    left as int,
                    right + 1,
                ).update(cur - left, pre[ub as int]).update(ub - left, pre[cur as int]));
                crate::sort::lemma_swap_preserves_multiset(
                    pre.subrange(left as int, right + 1),
                    cur - left,
                    ub - left,
                );
                assert(array@.subrange(lo as int, ub as int) =~= pre.subrange(
                    lo as int,
                    ub + 1,
                ).update(cur - lo, pre[ub as int]).drop_last());
                lemma_pivot_stays::<T>(
                    pre.subrange(lo as int, ub + 1),
                    array@.subrange(lo as int, ub as int),
                    pivot,
                    cur - lo,
                    pre[ub as int],
                    pre[cur as int],
                );
            }
            ub = ub - 1;
        } else if above {
            // The element is below the pivot: grow the bottom region.
            proof {
                T::lemma_le_total(pivot, pre[cur as int]);
                T::lemma_le_total(pivot, pivot);
            }
            swap_items(array, lo, cur);
            proof {
                assert(array@.subrange(left as int, right + 1) =~= pre.subrange(
                    left as int,
                    right + 1,
                ).update(lo - left, pre[cur as int]).update(cur - left, pre[lo as int]));
                crate::sort::lemma_swap_preserves_multiset(
                    pre.subrange(left as int, right + 1),
                    lo - left,
                    cur - left,
                );
                assert(array@.subrange(lo + 1, ub + 1) =~= pre.subrange(lo as int, ub + 1).update(
                    0,
                    pre[cur as int],
                ).update(cur - lo, pre[lo as int]).drop_first());
                lemma_pivot_stays_front::<T>(
                    pre.subrange(lo as int, ub + 1),
                    array@.subrange(lo + 1, ub + 1),
                    pivot,
                    cur - lo,
                    pre[lo as int],
                    pre[cur as int],
                );
            }
            lo = lo + 1;
            cur = cur + 1;
        } else {
            // Equal to the pivot: it already lies in the middle region.
            cur = cur + 1;
        }
    }
    (lo, cur)
}

/// After swapping an above-pivot element to the back and dropping it, the
/// pivot still occurs in the shrunken window.
proof fn lemma_pivot_stays<T: Orderable>(s: Seq<T>, t: Seq<T>, pivot: T, at: int, x: T, y: T)
    requires
        s.len() >= 1,
        0 <= at < s.len(),
        t =~= s.update(at, x).drop_last(),
        s.last() == x,
        s[at] == y,
        !y.le_spec(pivot),
        s.to_multiset().contains(pivot),
        pivot.le_spec(pivot),
    ensures
        t.to_multiset().contains(pivot),
{
    broadcast use group_to_multiset_ensures;

    assert(s.contains(pivot));
    let k = choose|k: int| 0 <= k < s.len() && s[k] == pivot;
    assert(k != at);
    if k < s.len() - 1 {
        assert(t[k] == pivot);
        assert(t.contains(pivot));
    } else {
        assert(s.last() == pivot);
        assert(t[at] == pivot);
        assert(t.contains(pivot));
    }
}

/// After swapping a below-pivot element to the front and dropping it, the
/// pivot still occurs in the shrunken window.
proof fn lemma_pivot_stays_front<T: Orderable>(s: Seq<T>, t: Seq<T>, pivot: T, at: int, x: T, y: T)
    requires
        s.len() >= 1,
        0 <= at < s.len(),
        t =~= s.update(0, y).update(at, x).drop_first(),
        s[0] == x,
        s[at] == y,
        !pivot.le_spec(y),
        s.to_multiset().contains(pivot),
        pivot.le_spec(pivot),
    ensures
        t.to_multiset().contains(pivot),
{
    broadcast use group_to_multiset_ensures;

    assert(s.contains(pivot));
    let k = choose|k: int| 0 <= k < s.len() && s[k] == pivot;
    assert(k != at || at == 0);
    if at == 0 {
        assert(k != 0);
        assert(t[k - 1] == pivot);
        assert(t.contains(pivot));
    } else if k == 0 {
        assert(t[at - 1] == pivot);
        assert(t.contains(pivot));
    } else {
        assert(t[k - 1] == pivot);
        assert(t.contains(pivot));
    }
}

/// Stitch the two recursive results together: regions keep their class
/// because sorting permutes them in place, and the class bounds give the
/// cross inequalities.
#[verifier::rlimit(30)]
proof fn lemma_helper_combine<T: Orderable>(
    parted: Seq<T>,
    first_done: Seq<T>,
    done: Seq<T>,
    pivot: T,
    left: int,
    right: int,
    new_left: int,
    new_right: int,
)
    requires
        0 <= left < right < parted.len(),
        first_done.len() == parted.len(),
        done.len() == parted.len(),
        left <= new_left < new_right <= right + 1,
        forall|k: int| left <= k < new_left ==> !pivot.le_spec(#[trigger] parted[k]),
        forall|k: int|
            new_left <= k < new_right ==> (#[trigger] parted[k]).le_spec(pivot) && pivot.le_spec(
                parted[k],
            ),
        forall|k: int| new_right <= k <= right ==> !(#[trigger] parted[k]).le_spec(pivot),
        // effect of the first recursive call on [left, nlm]
        forall|k: int|
            0 <= k < parted.len() && !(left <= k <= (if new_left == 0 {
                0int
            } else {
                new_left - 1
            })) ==> first_done[k] == parted[k],
        left <= new_left - 1 ==> first_done.subrange(left, new_left).to_multiset()
            == parted.subrange(left, new_left).to_multiset(),
        left <= new_left - 1 ==> sorted_between(first_done, left, new_left),
        left >= (if new_left == 0 {
            0int
        } else {
            new_left - 1
        }) ==> first_done == parted,
        // effect of the second recursive call on [new_right, right]
        forall|k: int|
            0 <= k < first_done.len() && !(new_right <= k <= right) ==> done[k] == first_done[k],
        new_right <= right ==> done.subrange(new_right, right + 1).to_multiset()
            == first_done.subrange(new_right, right + 1).to_multiset(),
        new_right <= right ==> sorted_between(done, new_right, right + 1),
        new_right >= right ==> done == first_done,
        pivot.le_spec(pivot),
    ensures
        sorted_between(done, left, right + 1),
        done.subrange(left, right + 1).to_multiset() == parted.subrange(
            left,
            right + 1,
        ).to_multiset(),
{
    broadcast use group_to_multiset_ensures;

    // Each region still holds elements of its class after being permuted.
    assert forall|k: int| left <= k < new_left implies !pivot.le_spec(#[trigger] done[k]) by {
        assert(done[k] == first_done[k]);
        lemma_region_class_below::<T>(parted, first_done, pivot, left, new_left, k);
    }
    assert forall|k: int|
        new_left <= k < new_right implies (#[trigger] done[k]).le_spec(pivot) && pivot.le_spec(
        done[k],
    ) by {
        assert(first_done[k] == parted[k]);
        assert(done[k] == first_done[k]);
    }
    assert forall|k: int| new_right <= k <= right implies !(#[trigger] done[k]).le_spec(pivot) by {
        lemma_region_class_above::<T>(first_done, done, pivot, new_right, right + 1, k);
    }
    // Cross inequalities between the regions, via the pivot.
    assert forall|x: int, y: int| left <= x < y < right + 1 implies #[trigger] done[x].le_spec(
        #[trigger] done[y],
    ) by {
        if y < new_left {
            // both in the sorted below-pivot region
            assert(done[x] == first_done[x] && done[y] == first_done[y]);
            assert(sorted_between(first_done, left, new_left));
            assert(first_done[x].le_spec(first_done[y]));
        } else if new_right <= x {
            // both in the sorted above-pivot region
            assert(sorted_between(done, new_right, right + 1));
            assert(done[x].le_spec(done[y]));
        } else if new_left <= x && y < new_right {
            // both equal to the pivot
            assert(done[x].le_spec(pivot) && pivot.le_spec(done[y]));
            T::lemma_le_trans(done[x], pivot, done[y]);
        } else {
            // different regions: go through the pivot
            if x < new_left {
                assert(!pivot.le_spec(done[x]));
                T::lemma_le_total(pivot, done[x]);
            } else {
                assert(done[x].le_spec(pivot));
            }
            if y < new_right {
                assert(pivot.le_spec(done[y]));
            } else {
                assert(!done[y].le_spec(pivot));
                T::lemma_le_total(done[y], pivot);
            }
            T::lemma_le_trans(done[x], pivot, done[y]);
        }
    }
    // Multiset accounting: the two recursive calls each permute a slice.
    lemma_multiset_patch::<T>(
        parted,
        first_done,
        left,
        (if new_left == 0 {
            0int
        } else {
            new_left - 1
        }),
        left,
        right + 1,
    );
    lemma_multiset_patch::<T>(first_done, done, new_right, right, left, right + 1);
}

/// Elements of a permuted below-pivot region are still below the pivot.
proof fn lemma_region_class_below<T: Orderable>(
    before: Seq<T>,
    after: Seq<T>,
    pivot: T,
    lo: int,
    hi: int,
    k: int,
)
    requires
        before.len() == after.len(),
        0 <= lo <= hi <= before.len(),
        lo <= k < hi,
        forall|m: int| lo <= m < hi ==> !pivot.le_spec(#[trigger] before[m]),
        lo <= hi - 1 ==> after.subrange(lo, hi).to_multiset() == before.subrange(
            lo,
            hi,
        ).to_multiset(),
        forall|m: int| 0 <= m < before.len() && !(lo <= m <= hi - 1) ==> after[m] == before[m],
    ensures
        !pivot.le_spec(after[k]),
{
    broadcast use group_to_multiset_ensures;

    after.subrange(lo, hi).to_multiset_ensures();
    before.subrange(lo, hi).to_multiset_ensures();
    assert(after.subrange(lo, hi)[k - lo] == after[k]);
    assert(after.subrange(lo, hi).contains(after[k]));
    assert(after.subrange(lo, hi).to_multiset().count(after[k]) > 0);
    assert(before.subrange(lo, hi).contains(after[k]));
    let m = choose|m: int| 0 <= m < hi - lo && before.subrange(lo, hi)[m] == after[k];
    assert(before[m + lo] == after[k]);
}

/// Elements of a permuted above-pivot region are still above the pivot.
proof fn lemma_region_class_above<T: Orderable>(
    before: Seq<T>,
    after: Seq<T>,
    pivot: T,
    lo: int,
    hi: int,
    k: int,
)
    requires
        before.len() == after.len(),
        0 <= lo <= hi <= before.len(),
        lo <= k < hi,
        forall|m: int| lo <= m < hi ==> !(#[trigger] before[m]).le_spec(pivot),
        lo <= hi - 1 ==> after.subrange(lo, hi).to_multiset() == before.subrange(
            lo,
            hi,
        ).to_multiset(),
        forall|m: int| 0 <= m < before.len() && !(lo <= m <= hi - 1) ==> after[m] == before[m],
    ensures
        !after[k].le_spec(pivot),
{
    broadcast use group_to_multiset_ensures;

    after.subrange(lo, hi).to_multiset_ensures();
    before.subrange(lo, hi).to_multiset_ensures();
    assert(after.subrange(lo, hi)[k - lo] == after[k]);
    assert(after.subrange(lo, hi).contains(after[k]));
    assert(after.subrange(lo, hi).to_multiset().count(after[k]) > 0);
    assert(before.subrange(lo, hi).contains(after[k]));
    let m = choose|m: int| 0 <= m < hi - lo && before.subrange(lo, hi)[m] == after[k];
    assert(before[m + lo] == after[k]);
}

/// A change confined to `[lo, hi]` that permutes that slice leaves the
/// multiset of any enclosing window unchanged.
proof fn lemma_multiset_patch<T>(
    before: Seq<T>,
    after: Seq<T>,
    lo: int,
    hi: int,
    wlo: int,
    whi: int,
)
    requires
        before.len() == after.len(),
        0 <= wlo <= whi <= before.len(),
        forall|m: int| 0 <= m < before.len() && !(lo <= m <= hi) ==> after[m] == before[m],
        lo <= hi ==> (wlo <= lo && hi < whi),
        lo <= hi ==> after.subrange(lo, hi + 1).to_multiset() == before.subrange(
            lo,
            hi + 1,
        ).to_multiset(),
    ensures
        after.subrange(wlo, whi).to_multiset() == before.subrange(wlo, whi).to_multiset(),
{
    if lo > hi {
        assert(after.subrange(wlo, whi) =~= before.subrange(wlo, whi));
    } else {
        let b = before.subrange(wlo, whi);
        let a = after.subrange(wlo, whi);
        assert(b =~= before.subrange(wlo, lo) + before.subrange(lo, hi + 1) + before.subrange(
            hi + 1,
            whi,
        ));
        assert(a =~= after.subrange(wlo, lo) + after.subrange(lo, hi + 1) + after.subrange(
            hi + 1,
            whi,
        ));
        assert(after.subrange(wlo, lo) =~= before.subrange(wlo, lo));
        assert(after.subrange(hi + 1, whi) =~= before.subrange(hi + 1, whi));
        vstd::seq_lib::lemma_multiset_commutative(
            before.subrange(wlo, lo) + before.subrange(lo, hi + 1),
            before.subrange(hi + 1, whi),
        );
        vstd::seq_lib::lemma_multiset_commutative(
            before.subrange(wlo, lo),
            before.subrange(lo, hi + 1),
        );
        vstd::seq_lib::lemma_multiset_commutative(
            after.subrange(wlo, lo) + after.subrange(lo, hi + 1),
            after.subrange(hi + 1, whi),
        );
        vstd::seq_lib::lemma_multiset_commutative(
            after.subrange(wlo, lo),
            after.subrange(lo, hi + 1),
        );
        assert(a.to_multiset() =~= b.to_multiset());
    }
}

} // verus!
