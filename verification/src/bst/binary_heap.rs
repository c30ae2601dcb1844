//! Array-backed binary heaps over `i64` with a fixed capacity: a min-heap
//! and its mirror image, a max-heap.  Unused slots hold the extreme value of
//! the element type, which also serves as the result of extracting from an
//! empty heap.

use vstd::multiset::Multiset;
use vstd::prelude::*;
use vstd::seq_lib::group_to_multiset_ensures;
use vstd::seq_lib::lemma_multiset_commutative;

verus! {

/// Index of the parent of a non-root position.
pub(crate) fn parent(pos: usize) -> (r: usize)
    requires
        pos >= 1,
    ensures
        r as int == (pos - 1) / 2,
{
    (pos - 1) / 2
}

/// Index of the left child.
pub(crate) fn left(pos: usize) -> (r: usize)
    requires
        2 * (pos as int) + 1 <= usize::MAX,
    ensures
        r as int == 2 * (pos as int) + 1,
{
    pos * 2 + 1
}

/// Index of the right child.
pub(crate) fn right(pos: usize) -> (r: usize)
    requires
        2 * (pos as int) + 2 <= usize::MAX,
    ensures
        r as int == 2 * (pos as int) + 2,
{
    pos * 2 + 2
}

/// The pair at `k` and its parent is in min-heap order.
pub open spec fn min_pair(s: Seq<i64>, k: int) -> bool {
    s[(k - 1) / 2] <= s[k]
}

/// Min-heap order on the first `size` entries.
pub open spec fn min_heap_until(s: Seq<i64>, size: int) -> bool {
    forall|k: int| 1 <= k < size ==> #[trigger] min_pair(s, k)
}

/// The pair at `k` and its parent is in max-heap order.
pub open spec fn max_pair(s: Seq<i64>, k: int) -> bool {
    s[(k - 1) / 2] >= s[k]
}

/// Max-heap order on the first `size` entries.
pub open spec fn max_heap_until(s: Seq<i64>, size: int) -> bool {
    forall|k: int| 1 <= k < size ==> #[trigger] max_pair(s, k)
}

/// `k` lies in the subtree rooted at `root` of the implicit binary tree.
pub(crate) open spec fn heap_subtree(root: int, k: int) -> bool
    decreases (if k >= 0 {
        k
    } else {
        0int
    }),
{
    if k < 0 {
        false
    } else if k == root {
        true
    } else if k <= root || k == 0 {
        false
    } else {
        heap_subtree(root, (k - 1) / 2)
    }
}

proof fn lemma_heap_subtree_ge(root: int, k: int)
    requires
        heap_subtree(root, k),
    ensures
        k >= root,
    decreases (if k >= 0 {
        k
    } else {
        0int
    }),
{
    if k >= 0 && k != root && k > root {
        lemma_heap_subtree_ge(root, (k - 1) / 2);
    }
}

proof fn lemma_heap_subtree_trans(a: int, b: int, k: int)
    requires
        heap_subtree(a, b),
        heap_subtree(b, k),
    ensures
        heap_subtree(a, k),
    decreases (if k >= 0 {
        k
    } else {
        0int
    }),
{
    if k != b {
        lemma_heap_subtree_ge(b, k);
        lemma_heap_subtree_ge(a, b);
        lemma_heap_subtree_trans(a, b, (k - 1) / 2);
    }
}

/// In a min-heap every entry is at least the root.
proof fn lemma_min_heap_root(s: Seq<i64>, size: int, k: int)
    requires
        min_heap_until(s, size),
        size <= s.len(),
        0 <= k < size,
    ensures
        s[0] <= s[k],
    decreases k,
{
    if k > 0 {
        assert(min_pair(s, k));
        lemma_min_heap_root(s, size, (k - 1) / 2);
    }
}

/// In a max-heap every entry is at most the root.
proof fn lemma_max_heap_root(s: Seq<i64>, size: int, k: int)
    requires
        max_heap_until(s, size),
        size <= s.len(),
        0 <= k < size,
    ensures
        s[0] >= s[k],
    decreases k,
{
    if k > 0 {
        assert(max_pair(s, k));
        lemma_max_heap_root(s, size, (k - 1) / 2);
    }
}

/// Removing one occurrence of `x` and dropping the slot that held it leave
/// the same multiset.
proof fn lemma_ms_swap_out(pre: Seq<i64>, post: Seq<i64>, size: int)
    requires
        1 <= size <= pre.len(),
        post.len() == pre.len(),
        post[0] == pre[size - 1],
        forall|k: int| 1 <= k < pre.len() ==> post[k] == #[trigger] pre[k],
    ensures
        post.subrange(0, size - 1).to_multiset() == pre.subrange(0, size).to_multiset().remove(
            pre[0],
        ),
{
    broadcast use group_to_multiset_ensures;

    let a = pre.subrange(0, size);
    let b = post.subrange(0, size - 1);
    if size == 1 {
        assert(b =~= Seq::<i64>::empty());
        assert(a =~= Seq::<i64>::empty().push(pre[0]));
        assert(Seq::<i64>::empty().push(pre[0]).to_multiset() =~= Multiset::<
            i64,
        >::empty().insert(pre[0]));
        assert(b.to_multiset() =~= a.to_multiset().remove(pre[0]));
    } else {
        let mid = pre.subrange(1, size - 1);
        assert(a =~= seq![pre[0]] + (mid + seq![pre[size - 1]]));
        assert(b =~= seq![pre[size - 1]] + mid);
        lemma_multiset_commutative(seq![pre[0]], mid + seq![pre[size - 1]]);
        lemma_multiset_commutative(mid, seq![pre[size - 1]]);
        lemma_multiset_commutative(seq![pre[size - 1]], mid);
        assert(seq![pre[0]].to_multiset() =~= Multiset::<i64>::empty().insert(pre[0]));
        assert(seq![pre[size - 1]].to_multiset() =~= Multiset::<i64>::empty().insert(
            pre[size - 1],
        ));
        broadcast use vstd::multiset::group_multiset_axioms;

        assert(b.to_multiset() =~= a.to_multiset().remove(pre[0]));
    }
}


/// Min-heap order except possibly at the pairs whose parent is at or above
/// `index`.
pub(crate) open spec fn min_heap_until_except(s: Seq<i64>, size: int, index: int) -> bool {
    forall|k: int| 1 <= k < size && (k - 1) / 2 > index ==> #[trigger] min_pair(s, k)
}

/// `b` is below the entry at `index` and both its children.
pub(crate) open spec fn bottoms(s: Seq<i64>, size: int, index: int, b: i64) -> bool {
    &&& b <= s[index]
    &&& (2 * index + 1 < size ==> b <= s[2 * index + 1])
    &&& (2 * index + 2 < size ==> b <= s[2 * index + 2])
}

/// A fixed-capacity min-heap of `i64` keys.
pub struct MinHeap {
    size: usize,
    capacity: usize,
    data: Vec<i64>,
}

impl MinHeap {
    /// The stored keys, as a multiset.
    pub closed spec fn contents(self) -> Multiset<i64> {
        self.data@.subrange(0, self.size as int).to_multiset()
    }

    pub closed spec fn spec_size(self) -> int {
        self.size as int
    }

    pub closed spec fn spec_capacity(self) -> int {
        self.capacity as int
    }

    /// The key stored at heap slot `i`.
    pub closed spec fn key_at(self, i: int) -> i64 {
        self.data@[i]
    }

    /// Well-formed except that the pairs under `index` may be out of
    /// order, as just before a sift-down.
    pub(crate) closed spec fn wf_except(self, index: int) -> bool {
        &&& self.data@.len() == self.capacity
        &&& self.size <= self.capacity
        &&& 2 * (self.capacity as int) + 2 <= usize::MAX
        &&& min_heap_until_except(self.data@, self.size as int, index)
    }

    /// Structural invariant: the backing array has exactly `capacity`
    /// slots, the used prefix is in min-heap order, and indices stay small
    /// enough for child arithmetic.
    pub closed spec fn wf(self) -> bool {
        &&& self.data@.len() == self.capacity
        &&& self.size <= self.capacity
        &&& 2 * (self.capacity as int) + 2 <= usize::MAX
        &&& min_heap_until(self.data@, self.size as int)
    }

    /// An empty heap; unused slots hold the largest key.
    pub fn with_capacity(capacity: usize) -> (r: Self)
        requires
            2 * (capacity as int) + 2 <= usize::MAX,
        ensures
            r.wf(),
            r.spec_size() == 0,
            r.spec_capacity() == capacity,
            r.contents() == Multiset::<i64>::empty(),
    {
        let r = MinHeap { size: 0, capacity, data: vec![i64::MAX; capacity] };
        proof {
            broadcast use group_to_multiset_ensures;

            assert(r.data@.subrange(0, 0) =~= Seq::<i64>::empty());
        }
        r
    }

    /// The heap of the given keys: insert them in order into a heap sized
    /// to fit.
    #[verifier::loop_isolation(false)]
    pub fn build(array: &Vec<i64>) -> (r: Self)
        requires
            2 * array@.len() + 2 <= usize::MAX,
        ensures
            r.wf(),
            r.spec_size() == array@.len(),
            r.spec_capacity() == array@.len(),
            r.contents() == array@.to_multiset(),
    {
        broadcast use group_to_multiset_ensures;

        let mut new = MinHeap::with_capacity(array.len());
        let mut i: usize = 0;
        while i < array.len()
            invariant
                array@.len() <= usize::MAX,
                0 <= i <= array@.len(),
                new.wf(),
                new.spec_size() == i,
                new.spec_capacity() == array@.len(),
                new.contents() == array@.subrange(0, i as int).to_multiset(),
            decreases array@.len() - i,
        {
            new.insert_key(array[i]);
            proof {
                assert(array@.subrange(0, i + 1) =~= array@.subrange(0, i as int).push(
                    array@[i as int],
                ));
                assert(array@.subrange(0, i as int).push(array@[i as int]).to_multiset()
                    =~= array@.subrange(0, i as int).to_multiset().insert(array@[i as int]));
                assert(new.contents() == array@.subrange(0, i + 1).to_multiset());
            }
            i += 1;
        }
        proof {
            assert(array@.subrange(0, array@.len() as int) =~= array@);
        }
        new
    }

    /// Insert a key, sifting it up to its place; a full heap is left
    /// unchanged.
    pub fn insert_key(&mut self, key: i64)
        requires
            old(self).wf(),
        ensures
            final(self).wf(),
            final(self).spec_capacity() == old(self).spec_capacity(),
            old(self).spec_size() >= old(self).spec_capacity() ==> *final(self) == *old(self),
            old(self).spec_size() < old(self).spec_capacity() ==> final(self).spec_size() == old(
                self,
            ).spec_size() + 1 && final(self).contents() == old(self).contents().insert(key),
    {
        broadcast use group_to_multiset_ensures;

        if self.size >= self.capacity {
            return ;
        }
        let mut curr = self.size;
        self.data[curr] = key;
        self.size += 1;
        proof {
            assert(self.data@.subrange(0, self.size as int) =~= old(self).data@.subrange(
                0,
                old(self).size as int,
            ).push(key));
            assert forall|k: int| 1 <= k < self.size && k != curr implies #[trigger] min_pair(
                self.data@,
                k,
            ) by {
                assert(min_pair(old(self).data@, k));
            }
        }
        while curr != 0 && self.data[parent(curr)] > self.data[curr]
            invariant
                self.size == old(self).size + 1,
                self.capacity == old(self).capacity,
                self.data@.len() == self.capacity,
                self.size <= self.capacity,
                2 * (self.capacity as int) + 2 <= usize::MAX,
                0 <= curr < self.size,
                self.contents() == old(self).contents().insert(key),
                forall|k: int| 1 <= k < self.size && k != curr ==> #[trigger] min_pair(
                    self.data@,
                    k,
                ),
                curr >= 1 ==> forall|k: int|
                    1 <= k < self.size && (k - 1) / 2 == curr ==> self.data@[((curr - 1) / 2) as int]
                        <= #[trigger] self.data@[k],
            decreases curr,
        {
            let p = parent(curr);
            let ghost pre = self.data@;
            let ghost c0 = curr as int;
            let a = self.data[p];
            let b = self.data[curr];
            self.data[p] = b;
            self.data[curr] = a;
            proof {
                assert(self.data@ == pre.update(p as int, pre[curr as int]).update(
                    curr as int,
                    pre[p as int],
                ));
                assert(self.data@.subrange(0, self.size as int) =~= pre.subrange(
                    0,
                    self.size as int,
                ).update(p as int, pre[curr as int]).update(curr as int, pre[p as int]));
                crate::sort::lemma_swap_preserves_multiset(
                    pre.subrange(0, self.size as int),
                    p as int,
                    curr as int,
                );
                lemma_sift_up_step(pre, self.data@, self.size as int, c0);
            }
            curr = p;
        }
        proof {
            assert forall|k: int| 1 <= k < self.size implies #[trigger] min_pair(
                self.data@,
                k,
            ) by {
                if k == curr {
                    assert(self.data@[(k - 1) / 2] <= self.data@[k]);
                }
            }
        }
    }

    /// Lower the key at `index` to `value`, sifting it up.
    pub fn decrease_key(&mut self, index: usize, value: i64)
        requires
            old(self).wf(),
            (index as int) < old(self).spec_size(),
            old(self).key_at(index as int) >= value,
        ensures
            final(self).wf(),
            final(self).spec_size() == old(self).spec_size(),
            final(self).spec_capacity() == old(self).spec_capacity(),
            final(self).contents() == old(self).contents().remove(
                old(self).key_at(index as int),
            ).insert(value),
    {
        broadcast use group_to_multiset_ensures;

        let mut index = index;
        let ghost pre0 = self.data@;
        let ghost replaced = self.data@[index as int];
        self.data[index] = value;
        proof {
            assert(self.data@.subrange(0, self.size as int) =~= pre0.subrange(
                0,
                self.size as int,
            ).update(index as int, value));
            lemma_ms_update(pre0.subrange(0, self.size as int), index as int, value);
            assert forall|k: int| 1 <= k < self.size && k != index implies #[trigger] min_pair(
                self.data@,
                k,
            ) by {
                assert(min_pair(pre0, k));
            }
            if index >= 1 {
                assert forall|k: int|
                    1 <= k < self.size && (k - 1) / 2 == index as int implies self.data@[((
                index as int - 1) / 2) as int] <= #[trigger] self.data@[k] by {
                    assert(min_pair(pre0, k));
                    assert(min_pair(pre0, index as int));
                }
            }
        }
        while index != 0 && self.data[parent(index)] > self.data[index]
            invariant
                self.size == old(self).size,
                self.capacity == old(self).capacity,
                self.data@.len() == self.capacity,
                self.size <= self.capacity,
                2 * (self.capacity as int) + 2 <= usize::MAX,
                0 <= index < self.size,
                self.contents() == old(self).contents().remove(replaced).insert(value),
                forall|k: int| 1 <= k < self.size && k != index ==> #[trigger] min_pair(
                    self.data@,
                    k,
                ),
                index >= 1 ==> forall|k: int|
                    1 <= k < self.size && (k - 1) / 2 == index ==> self.data@[((index - 1)
                        / 2) as int] <= #[trigger] self.data@[k],
            decreases index,
        {
            let p = parent(index);
            let ghost pre = self.data@;
            let ghost c0 = index as int;
            let a = self.data[p];
            let b = self.data[index];
            self.data[p] = b;
            self.data[index] = a;
            proof {
                assert(self.data@ == pre.update(p as int, pre[index as int]).update(
                    index as int,
                    pre[p as int],
                ));
                assert(self.data@.subrange(0, self.size as int) =~= pre.subrange(
                    0,
                    self.size as int,
                ).update(p as int, pre[index as int]).update(index as int, pre[p as int]));
                crate::sort::lemma_swap_preserves_multiset(
                    pre.subrange(0, self.size as int),
                    p as int,
                    index as int,
                );
                lemma_sift_up_step(pre, self.data@, self.size as int, c0);
            }
            index = p;
        }
        proof {
            assert forall|k: int| 1 <= k < self.size implies #[trigger] min_pair(
                self.data@,
                k,
            ) by {
                if k == index {
                    assert(self.data@[(k - 1) / 2] <= self.data@[k]);
                }
            }
        }
    }

    /// The least stored key, at the root.
    pub fn get_min(&self) -> (r: i64)
        requires
            self.wf(),
            self.spec_size() >= 1,
        ensures
            r == self.key_at(0),
            forall|k: int| 0 <= k < self.spec_size() ==> r <= #[trigger] self.key_at(k),
            self.contents().contains(r),
    {
        proof {
            broadcast use group_to_multiset_ensures;

            assert forall|k: int| 0 <= k < self.spec_size() implies self.key_at(0)
                <= #[trigger] self.key_at(k) by {
                lemma_min_heap_root(self.data@, self.size as int, k);
            }
            assert(self.data@.subrange(0, self.size as int)[0] == self.data@[0]);
            assert(self.data@.subrange(0, self.size as int).contains(self.data@[0]));
        }
        self.data[0]
    }

    /// Sift the entry at `index` down within the first `size` entries.
    #[verifier::spinoff_prover]
    #[verifier::rlimit(50)]
    fn heapify(&mut self, index: usize)
        requires
            old(self).wf_except(index as int),
            (index as int) <= old(self).spec_size(),
        ensures
            final(self).size == old(self).size,
            final(self).capacity == old(self).capacity,
            final(self).data@.len() == old(self).data@.len(),
            final(self).contents() == old(self).contents(),
            forall|k: int|
                0 <= k < old(self).data@.len() && !(heap_subtree(index as int, k) && k < old(
                    self,
                ).size) ==> #[trigger] final(self).data@[k] == old(self).data@[k],
            forall|k: int|
                1 <= k < old(self).size && (k - 1) / 2 >= index ==> #[trigger] min_pair(
                    final(self).data@,
                    k,
                ),
            forall|b: i64|
                #[trigger] bottoms(old(self).data@, old(self).size as int, index as int, b) ==> b
                    <= final(self).data@[index as int],
        decreases old(self).data@.len() - index,
    {
        let left = left(index);
        let right = right(index);
        let size = self.size;
        let mut smallest = index;

        if left < size && self.data[left] < self.data[smallest] {
            smallest = left;
        }
        if right < size && self.data[right] < self.data[smallest] {
            smallest = right;
        }
        proof {
            if smallest != index {
                assert((2 * (index as int) + 1 - 1) / 2 == index as int);
                assert((2 * (index as int) + 2 - 1) / 2 == index as int);
                assert(heap_subtree(index as int, index as int));
                assert(heap_subtree(index as int, smallest as int));
            }
        }
        if smallest != index {
            let ghost pre = self.data@;
            let a = self.data[index];
            let b = self.data[smallest];
            self.data[index] = b;
            self.data[smallest] = a;
            let ghost mid = self.data@;
            proof {
                assert(mid.subrange(0, size as int) =~= pre.subrange(0, size as int).update(
                    index as int,
                    pre[smallest as int],
                ).update(smallest as int, pre[index as int]));
                crate::sort::lemma_swap_preserves_multiset(
                    pre.subrange(0, size as int),
                    index as int,
                    smallest as int,
                );
                assert forall|k: int|
                    1 <= k < size && (k - 1) / 2 > smallest implies #[trigger] min_pair(
                    mid,
                    k,
                ) by {
                    assert(min_pair(pre, k));
                }
            }
            self.heapify(smallest);
            proof {
                let fin = self.data@;
                assert forall|k: int|
                    1 <= k < size && (k - 1) / 2 >= index implies #[trigger] min_pair(
                    fin,
                    k,
                ) by {
                    let par = (k - 1) / 2;
                    if par == index {
                        assert(!heap_subtree(smallest as int, index as int));
                        assert(fin[index as int] == pre[smallest as int]);
                        if k == smallest {
                            assert(mid[smallest as int] == pre[index as int]);
                            assert(pre[smallest as int] <= pre[index as int]);
                            if 2 * (smallest as int) + 1 < size {
                                assert(min_pair(pre, 2 * (smallest as int) + 1));
                            }
                            if 2 * (smallest as int) + 2 < size {
                                assert(min_pair(pre, 2 * (smallest as int) + 2));
                            }
                            assert(bottoms(mid, size as int, smallest as int, pre[smallest as int]));
                            assert(pre[smallest as int] <= fin[smallest as int]);
                        } else {
                            assert(!heap_subtree(smallest as int, k));
                            assert(fin[k] == pre[k]);
                        }
                    } else if par >= smallest {
                        assert(min_pair(fin, k));
                    } else {
                        assert(!heap_subtree(smallest as int, par));
                        if heap_subtree(smallest as int, k) {
                            assert(k != smallest);
                            assert(heap_subtree(smallest as int, (k - 1) / 2));
                            assert(false);
                        }
                        assert(fin[k] == pre[k] && fin[par] == pre[par]);
                        assert(min_pair(pre, k));
                    }
                }
                assert forall|k: int|
                    0 <= k < pre.len() && !(heap_subtree(index as int, k) && k < size) implies
                    #[trigger] fin[k] == pre[k] by {
                    if heap_subtree(smallest as int, k) {
                        lemma_heap_subtree_trans(index as int, smallest as int, k);
                    }
                }
                assert forall|b: i64|
                    #[trigger] bottoms(pre, size as int, index as int, b) implies b
                    <= fin[index as int] by {
                    assert(!heap_subtree(smallest as int, index as int));
                    assert(fin[index as int] == pre[smallest as int]);
                }
            }
        }
    }

    /// Remove and return the least key; an empty heap yields the largest
    /// key and stays empty.
    pub fn extract_min(&mut self) -> (r: i64)
        requires
            old(self).wf(),
        ensures
            final(self).wf(),
            final(self).spec_capacity() == old(self).spec_capacity(),
            old(self).spec_size() == 0 ==> r == i64::MAX && *final(self) == *old(self),
            old(self).spec_size() >= 1 ==> final(self).spec_size() == old(self).spec_size() - 1
                && r == old(self).key_at(0) && final(self).contents() == old(
                self,
            ).contents().remove(r) && (forall|k: int|
                0 <= k < old(self).spec_size() ==> r <= #[trigger] old(self).key_at(k)),
    {
        broadcast use group_to_multiset_ensures;

        if self.size == 0 {
            return i64::MAX;
        }
        proof {
            assert forall|k: int| 0 <= k < self.spec_size() implies self.key_at(0)
                <= #[trigger] self.key_at(k) by {
                lemma_min_heap_root(self.data@, self.size as int, k);
            }
        }
        let min = self.data[0];
        let ghost pre = self.data@;
        let last_val = self.data[self.size - 1];
        self.data[0] = last_val;
        self.size -= 1;
        proof {
            lemma_ms_swap_out(pre, self.data@, self.size + 1);
            assert forall|k: int|
                1 <= k < self.size && (k - 1) / 2 > 0 implies #[trigger] min_pair(
                self.data@,
                k,
            ) by {
                assert(min_pair(pre, k));
            }
            assert(min_heap_until_except(self.data@, self.size as int, 0));
        }
        self.heapify(0);
        min
    }

    /// Remove the key at `index`: lower it below everything, then extract.
    pub fn delete_key(&mut self, index: usize)
        requires
            old(self).wf(),
            (index as int) < old(self).spec_size(),
        ensures
            final(self).wf(),
            final(self).spec_capacity() == old(self).spec_capacity(),
            final(self).spec_size() == old(self).spec_size() - 1,
            final(self).contents() == old(self).contents().remove(old(self).key_at(index as int)),
    {
        broadcast use vstd::multiset::group_multiset_axioms;
        broadcast use group_to_multiset_ensures;

        let ghost removed = self.key_at(index as int);
        self.decrease_key(index, i64::MIN);
        let ghost mid = *self;
        let r = self.extract_min();
        proof {
            assert(mid.contents().contains(i64::MIN));
            assert(mid.data@.subrange(0, mid.size as int).contains(i64::MIN));
            let k = choose|k: int|
                0 <= k < mid.size && mid.data@.subrange(0, mid.size as int)[k] == i64::MIN;
            assert(mid.key_at(k) == i64::MIN);
            assert(r <= i64::MIN);
            assert(r == i64::MIN);
            assert(final(self).contents() =~= old(self).contents().remove(removed));
        }
    }
}

/// A fixed-capacity max-heap of `i64` keys.
pub struct MaxHeap {
    size: usize,
    capacity: usize,
    data: Vec<i64>,
}

impl MaxHeap {
    /// The stored keys, as a multiset.
    pub closed spec fn contents(self) -> Multiset<i64> {
        self.data@.subrange(0, self.size as int).to_multiset()
    }

    pub closed spec fn spec_size(self) -> int {
        self.size as int
    }

    pub closed spec fn spec_capacity(self) -> int {
        self.capacity as int
    }

    /// The key stored at heap slot `i`.
    pub closed spec fn key_at(self, i: int) -> i64 {
        self.data@[i]
    }

    /// Well-formed except that the pairs under `index` may be out of
    /// order, as just before a sift-down.
    pub(crate) closed spec fn wf_except(self, index: int) -> bool {
        &&& self.data@.len() == self.capacity
        &&& self.size <= self.capacity
        &&& 2 * (self.capacity as int) + 2 <= usize::MAX
        &&& max_heap_until_except(self.data@, self.size as int, index)
    }

    /// Structural invariant: the backing array has exactly `capacity`
    /// slots, the used prefix is in max-heap order, and indices stay small
    /// enough for child arithmetic.
    pub closed spec fn wf(self) -> bool {
        &&& self.data@.len() == self.capacity
        &&& self.size <= self.capacity
        &&& 2 * (self.capacity as int) + 2 <= usize::MAX
        &&& max_heap_until(self.data@, self.size as int)
    }

    /// An empty heap; unused slots hold the largest key.
    pub fn with_capacity(capacity: usize) -> (r: Self)
        requires
            2 * (capacity as int) + 2 <= usize::MAX,
        ensures
            r.wf(),
            r.spec_size() == 0,
            r.spec_capacity() == capacity,
            r.contents() == Multiset::<i64>::empty(),
    {
        let r = MaxHeap { size: 0, capacity, data: vec![i64::MIN; capacity] };
        proof {
            broadcast use group_to_multiset_ensures;

            assert(r.data@.subrange(0, 0) =~= Seq::<i64>::empty());
        }
        r
    }

    /// The heap of the given keys: insert them in order into a heap sized
    /// to fit.
    #[verifier::loop_isolation(false)]
    pub fn build(array: &Vec<i64>) -> (r: Self)
        requires
            2 * array@.len() + 2 <= usize::MAX,
        ensures
            r.wf(),
            r.spec_size() == array@.len(),
            r.spec_capacity() == array@.len(),
            r.contents() == array@.to_multiset(),
    {
        broadcast use group_to_multiset_ensures;

        let mut new = MaxHeap::with_capacity(array.len());
        let mut i: usize = 0;
        while i < array.len()
            invariant
                array@.len() <= usize::MAX,
                0 <= i <= array@.len(),
                new.wf(),
                new.spec_size() == i,
                new.spec_capacity() == array@.len(),
                new.contents() == array@.subrange(0, i as int).to_multiset(),
            decreases array@.len() - i,
        {
            new.insert_key(array[i]);
            proof {
                assert(array@.subrange(0, i + 1) =~= array@.subrange(0, i as int).push(
                    array@[i as int],
                ));
                assert(array@.subrange(0, i as int).push(array@[i as int]).to_multiset()
                    =~= array@.subrange(0, i as int).to_multiset().insert(array@[i as int]));
                assert(new.contents() == array@.subrange(0, i + 1).to_multiset());
            }
            i += 1;
        }
        proof {
            assert(array@.subrange(0, array@.len() as int) =~= array@);
        }
        new
    }

    /// Insert a key, sifting it up to its place; a full heap is left
    /// unchanged.
    pub fn insert_key(&mut self, key: i64)
        requires
            old(self).wf(),
        ensures
            final(self).wf(),
            final(self).spec_capacity() == old(self).spec_capacity(),
            old(self).spec_size() >= old(self).spec_capacity() ==> *final(self) == *old(self),
            old(self).spec_size() < old(self).spec_capacity() ==> final(self).spec_size() == old(
                self,
            ).spec_size() + 1 && final(self).contents() == old(self).contents().insert(key),
    {
        broadcast use group_to_multiset_ensures;

        if self.size >= self.capacity {
            return ;
        }
        let mut curr = self.size;
        self.data[curr] = key;
        self.size += 1;
        proof {
            assert(self.data@.subrange(0, self.size as int) =~= old(self).data@.subrange(
                0,
                old(self).size as int,
            ).push(key));
            assert forall|k: int| 1 <= k < self.size && k != curr implies #[trigger] max_pair(
                self.data@,
                k,
            ) by {
                assert(max_pair(old(self).data@, k));
            }
        }
        while curr != 0 && self.data[parent(curr)] < self.data[curr]
            invariant
                self.size == old(self).size + 1,
                self.capacity == old(self).capacity,
                self.data@.len() == self.capacity,
                self.size <= self.capacity,
                2 * (self.capacity as int) + 2 <= usize::MAX,
                0 <= curr < self.size,
                self.contents() == old(self).contents().insert(key),
                forall|k: int| 1 <= k < self.size && k != curr ==> #[trigger] max_pair(
                    self.data@,
                    k,
                ),
                curr >= 1 ==> forall|k: int|
                    1 <= k < self.size && (k - 1) / 2 == curr ==> self.data@[((curr - 1) / 2) as int]
                        >= #[trigger] self.data@[k],
            decreases curr,
        {
            let p = parent(curr);
            let ghost pre = self.data@;
            let ghost c0 = curr as int;
            let a = self.data[p];
            let b = self.data[curr];
            self.data[p] = b;
            self.data[curr] = a;
            proof {
                assert(self.data@ == pre.update(p as int, pre[curr as int]).update(
                    curr as int,
                    pre[p as int],
                ));
                assert(self.data@.subrange(0, self.size as int) =~= pre.subrange(
                    0,
                    self.size as int,
                ).update(p as int, pre[curr as int]).update(curr as int, pre[p as int]));
                crate::sort::lemma_swap_preserves_multiset(
                    pre.subrange(0, self.size as int),
                    p as int,
                    curr as int,
                );
                lemma_sift_up_step_max(pre, self.data@, self.size as int, c0);
            }
            curr = p;
        }
        proof {
            assert forall|k: int| 1 <= k < self.size implies #[trigger] max_pair(
                self.data@,
                k,
            ) by {
                if k == curr {
                    assert(self.data@[(k - 1) / 2] >= self.data@[k]);
                }
            }
        }
    }

    /// Raise the key at `index` to `value`, sifting it up.
    pub fn increase_key(&mut self, index: usize, value: i64)
        requires
            old(self).wf(),
            (index as int) < old(self).spec_size(),
            old(self).key_at(index as int) <= value,
        ensures
            final(self).wf(),
            final(self).spec_size() == old(self).spec_size(),
            final(self).spec_capacity() == old(self).spec_capacity(),
            final(self).contents() == old(self).contents().remove(
                old(self).key_at(index as int),
            ).insert(value),
    {
        broadcast use group_to_multiset_ensures;

        let mut index = index;
        let ghost pre0 = self.data@;
        let ghost replaced = self.data@[index as int];
        self.data[index] = value;
        proof {
            assert(self.data@.subrange(0, self.size as int) =~= pre0.subrange(
                0,
                self.size as int,
            ).update(index as int, value));
            lemma_ms_update(pre0.subrange(0, self.size as int), index as int, value);
            assert forall|k: int| 1 <= k < self.size && k != index implies #[trigger] max_pair(
                self.data@,
                k,
            ) by {
                assert(max_pair(pre0, k));
            }
            if index >= 1 {
                assert forall|k: int|
                    1 <= k < self.size && (k - 1) / 2 == index as int implies self.data@[((
                index as int - 1) / 2) as int] >= #[trigger] self.data@[k] by {
                    assert(max_pair(pre0, k));
                    assert(max_pair(pre0, index as int));
                }
            }
        }
        while index != 0 && self.data[parent(index)] < self.data[index]
            invariant
                self.size == old(self).size,
                self.capacity == old(self).capacity,
                self.data@.len() == self.capacity,
                self.size <= self.capacity,
                2 * (self.capacity as int) + 2 <= usize::MAX,
                0 <= index < self.size,
                self.contents() == old(self).contents().remove(replaced).insert(value),
                forall|k: int| 1 <= k < self.size && k != index ==> #[trigger] max_pair(
                    self.data@,
                    k,
                ),
                index >= 1 ==> forall|k: int|
                    1 <= k < self.size && (k - 1) / 2 == index ==> self.data@[((index - 1)
                        / 2) as int] >= #[trigger] self.data@[k],
            decreases index,
        {
            let p = parent(index);
            let ghost pre = self.data@;
            let ghost c0 = index as int;
            let a = self.data[p];
            let b = self.data[index];
            self.data[p] = b;
            self.data[index] = a;
            proof {
                assert(self.data@ == pre.update(p as int, pre[index as int]).update(
                    index as int,
                    pre[p as int],
                ));
                assert(self.data@.subrange(0, self.size as int) =~= pre.subrange(
                    0,
                    self.size as int,
                ).update(p as int, pre[index as int]).update(index as int, pre[p as int]));
                crate::sort::lemma_swap_preserves_multiset(
                    pre.subrange(0, self.size as int),
                    p as int,
                    index as int,
                );
                lemma_sift_up_step_max(pre, self.data@, self.size as int, c0);
            }
            index = p;
        }
        proof {
            assert forall|k: int| 1 <= k < self.size implies #[trigger] max_pair(
                self.data@,
                k,
            ) by {
                if k == index {
                    assert(self.data@[(k - 1) / 2] >= self.data@[k]);
                }
            }
        }
    }

    /// The greatest stored key, at the root.
    pub fn get_max(&self) -> (r: i64)
        requires
            self.wf(),
            self.spec_size() >= 1,
        ensures
            r == self.key_at(0),
            forall|k: int| 0 <= k < self.spec_size() ==> r >= #[trigger] self.key_at(k),
            self.contents().contains(r),
    {
        proof {
            broadcast use group_to_multiset_ensures;

            assert forall|k: int| 0 <= k < self.spec_size() implies self.key_at(0)
                >= #[trigger] self.key_at(k) by {
                lemma_max_heap_root(self.data@, self.size as int, k);
            }
            assert(self.data@.subrange(0, self.size as int)[0] == self.data@[0]);
            assert(self.data@.subrange(0, self.size as int).contains(self.data@[0]));
        }
        self.data[0]
    }

    /// Sift the entry at `index` down within the first `size` entries.
    #[verifier::spinoff_prover]
    #[verifier::rlimit(50)]
    fn heapify(&mut self, index: usize)
        requires
            old(self).wf_except(index as int),
            (index as int) <= old(self).spec_size(),
        ensures
            final(self).size == old(self).size,
            final(self).capacity == old(self).capacity,
            final(self).data@.len() == old(self).data@.len(),
            final(self).contents() == old(self).contents(),
            forall|k: int|
                0 <= k < old(self).data@.len() && !(heap_subtree(index as int, k) && k < old(
                    self,
                ).size) ==> #[trigger] final(self).data@[k] == old(self).data@[k],
            forall|k: int|
                1 <= k < old(self).size && (k - 1) / 2 >= index ==> #[trigger] max_pair(
                    final(self).data@,
                    k,
                ),
            forall|b: i64|
                #[trigger] peaks(old(self).data@, old(self).size as int, index as int, b) ==> b
                    >= final(self).data@[index as int],
        decreases old(self).data@.len() - index,
    {
        let left = left(index);
        let right = right(index);
        let size = self.size;
        let mut largest = index;

        if left < size && self.data[left] > self.data[largest] {
            largest = left;
        }
        if right < size && self.data[right] > self.data[largest] {
            largest = right;
        }
        proof {
            if largest != index {
                assert((2 * (index as int) + 1 - 1) / 2 == index as int);
                assert((2 * (index as int) + 2 - 1) / 2 == index as int);
                assert(heap_subtree(index as int, index as int));
                assert(heap_subtree(index as int, largest as int));
            }
        }
        if largest != index {
            let ghost pre = self.data@;
            let a = self.data[index];
            let b = self.data[largest];
            self.data[index] = b;
            self.data[largest] = a;
            let ghost mid = self.data@;
            proof {
                assert(mid.subrange(0, size as int) =~= pre.subrange(0, size as int).update(
                    index as int,
                    pre[largest as int],
                ).update(largest as int, pre[index as int]));
                crate::sort::lemma_swap_preserves_multiset(
                    pre.subrange(0, size as int),
                    index as int,
                    largest as int,
                );
                assert forall|k: int|
                    1 <= k < size && (k - 1) / 2 > largest implies #[trigger] max_pair(
                    mid,
                    k,
                ) by {
                    assert(max_pair(pre, k));
                }
            }
            self.heapify(largest);
            proof {
                let fin = self.data@;
                assert forall|k: int|
                    1 <= k < size && (k - 1) / 2 >= index implies #[trigger] max_pair(
                    fin,
                    k,
                ) by {
                    let par = (k - 1) / 2;
                    if par == index {
                        assert(!heap_subtree(largest as int, index as int));
                        assert(fin[index as int] == pre[largest as int]);
                        if k == largest {
                            assert(mid[largest as int] == pre[index as int]);
                            assert(pre[largest as int] >= pre[index as int]);
                            if 2 * (largest as int) + 1 < size {
                                assert(max_pair(pre, 2 * (largest as int) + 1));
                            }
                            if 2 * (largest as int) + 2 < size {
                                assert(max_pair(pre, 2 * (largest as int) + 2));
                            }
                            assert(peaks(mid, size as int, largest as int, pre[largest as int]));
                            assert(pre[largest as int] >= fin[largest as int]);
                        } else {
                            assert(!heap_subtree(largest as int, k));
                            assert(fin[k] == pre[k]);
                        }
                    } else if par >= largest {
                        assert(max_pair(fin, k));
                    } else {
                        assert(!heap_subtree(largest as int, par));
                        if heap_subtree(largest as int, k) {
                            assert(k != largest);
                            assert(heap_subtree(largest as int, (k - 1) / 2));
                            assert(false);
                        }
                        assert(fin[k] == pre[k] && fin[par] == pre[par]);
                        assert(max_pair(pre, k));
                    }
                }
                assert forall|k: int|
                    0 <= k < pre.len() && !(heap_subtree(index as int, k) && k < size) implies
                    #[trigger] fin[k] == pre[k] by {
                    if heap_subtree(largest as int, k) {
                        lemma_heap_subtree_trans(index as int, largest as int, k);
                    }
                }
                assert forall|b: i64|
                    #[trigger] peaks(pre, size as int, index as int, b) implies b
                    >= fin[index as int] by {
                    assert(!heap_subtree(largest as int, index as int));
                    assert(fin[index as int] == pre[largest as int]);
                }
            }
        }
    }

    /// Remove and return the greatest key; an empty heap yields the
    /// largest key and stays empty.
    pub fn extract_max(&mut self) -> (r: i64)
        requires
            old(self).wf(),
        ensures
            final(self).wf(),
            final(self).spec_capacity() == old(self).spec_capacity(),
            old(self).spec_size() == 0 ==> r == i64::MIN && *final(self) == *old(self),
            old(self).spec_size() >= 1 ==> final(self).spec_size() == old(self).spec_size() - 1
                && r == old(self).key_at(0) && final(self).contents() == old(
                self,
            ).contents().remove(r) && (forall|k: int|
                0 <= k < old(self).spec_size() ==> r >= #[trigger] old(self).key_at(k)),
    {
        broadcast use group_to_multiset_ensures;

        if self.size == 0 {
            return i64::MIN;
        }
        proof {
            assert forall|k: int| 0 <= k < self.spec_size() implies self.key_at(0)
                >= #[trigger] self.key_at(k) by {
                lemma_max_heap_root(self.data@, self.size as int, k);
            }
        }
        let min = self.data[0];
        let ghost pre = self.data@;
        let last_val = self.data[self.size - 1];
        self.data[0] = last_val;
        self.size -= 1;
        proof {
            lemma_ms_swap_out(pre, self.data@, self.size + 1);
            assert forall|k: int|
                1 <= k < self.size && (k - 1) / 2 > 0 implies #[trigger] max_pair(
                self.data@,
                k,
            ) by {
                assert(max_pair(pre, k));
            }
            assert(max_heap_until_except(self.data@, self.size as int, 0));
        }
        self.heapify(0);
        min
    }

    /// Remove the key at `index`: raise it above everything, then extract.
    pub fn delete_key(&mut self, index: usize)
        requires
            old(self).wf(),
            (index as int) < old(self).spec_size(),
        ensures
            final(self).wf(),
            final(self).spec_capacity() == old(self).spec_capacity(),
            final(self).spec_size() == old(self).spec_size() - 1,
            final(self).contents() == old(self).contents().remove(old(self).key_at(index as int)),
    {
        broadcast use vstd::multiset::group_multiset_axioms;
        broadcast use group_to_multiset_ensures;

        let ghost removed = self.key_at(index as int);
        self.increase_key(index, i64::MAX);
        let ghost mid = *self;
        let r = self.extract_max();
        proof {
            assert(mid.contents().contains(i64::MAX));
            assert(mid.data@.subrange(0, mid.size as int).contains(i64::MAX));
            let k = choose|k: int|
                0 <= k < mid.size && mid.data@.subrange(0, mid.size as int)[k] == i64::MAX;
            assert(mid.key_at(k) == i64::MAX);
            assert(r >= i64::MAX);
            assert(r == i64::MAX);
            assert(final(self).contents() =~= old(self).contents().remove(removed));
        }
    }
}


/// Max-heap order except possibly at the pairs whose parent is at or above
/// `index`.
pub(crate) open spec fn max_heap_until_except(s: Seq<i64>, size: int, index: int) -> bool {
    forall|k: int| 1 <= k < size && (k - 1) / 2 > index ==> #[trigger] max_pair(s, k)
}

/// `b` is above the entry at `index` and both its children.
pub(crate) open spec fn peaks(s: Seq<i64>, size: int, index: int, b: i64) -> bool {
    &&& b >= s[index]
    &&& (2 * index + 1 < size ==> b >= s[2 * index + 1])
    &&& (2 * index + 2 < size ==> b >= s[2 * index + 2])
}

/// Mirror of the sift-up exchange for the max-heap direction.
proof fn lemma_sift_up_step_max(pre: Seq<i64>, post: Seq<i64>, size: int, curr: int)
    requires
        1 <= curr < size <= pre.len(),
        post.len() == pre.len(),
        post == pre.update((curr - 1) / 2, pre[curr]).update(curr, pre[(curr - 1) / 2]),
        pre[(curr - 1) / 2] < pre[curr],
        forall|k: int| 1 <= k < size && k != curr ==> #[trigger] max_pair(pre, k),
        forall|k: int|
            1 <= k < size && (k - 1) / 2 == curr ==> pre[((curr - 1) / 2) as int]
                >= #[trigger] pre[k],
    ensures
        forall|k: int| 1 <= k < size && k != (curr - 1) / 2 ==> #[trigger] max_pair(post, k),
        (curr - 1) / 2 >= 1 ==> forall|k: int|
            1 <= k < size && (k - 1) / 2 == (curr - 1) / 2 ==> post[(((curr - 1) / 2 - 1)
                / 2) as int] >= #[trigger] post[k],
{
    let p = (curr - 1) / 2;
    assert forall|k: int| 1 <= k < size && k != p implies #[trigger] max_pair(post, k) by {
        if k == curr {
        } else if (k - 1) / 2 == curr {
        } else if (k - 1) / 2 == p {
            assert(max_pair(pre, k));
        } else {
            assert(max_pair(pre, k));
        }
    }
    if p >= 1 {
        assert forall|k: int|
            1 <= k < size && (k - 1) / 2 == p implies post[((p - 1) / 2) as int]
            >= #[trigger] post[k] by {
            assert(max_pair(pre, p));
            if k != curr {
                assert(max_pair(pre, k));
            }
        }
    }
}

/// One sift-up exchange: before it, every pair except the one at `curr`
/// was in order and the grandparent bounded the children of `curr`; after
/// swapping `curr` with its parent the same holds one level up.
proof fn lemma_sift_up_step(pre: Seq<i64>, post: Seq<i64>, size: int, curr: int)
    requires
        1 <= curr < size <= pre.len(),
        post.len() == pre.len(),
        post == pre.update((curr - 1) / 2, pre[curr]).update(curr, pre[(curr - 1) / 2]),
        pre[(curr - 1) / 2] > pre[curr],
        forall|k: int| 1 <= k < size && k != curr ==> #[trigger] min_pair(pre, k),
        forall|k: int|
            1 <= k < size && (k - 1) / 2 == curr ==> pre[((curr - 1) / 2) as int]
                <= #[trigger] pre[k],
    ensures
        forall|k: int| 1 <= k < size && k != (curr - 1) / 2 ==> #[trigger] min_pair(post, k),
        (curr - 1) / 2 >= 1 ==> forall|k: int|
            1 <= k < size && (k - 1) / 2 == (curr - 1) / 2 ==> post[(((curr - 1) / 2 - 1)
                / 2) as int] <= #[trigger] post[k],
{
    let p = (curr - 1) / 2;
    assert forall|k: int| 1 <= k < size && k != p implies #[trigger] min_pair(post, k) by {
        if k == curr {
        } else if (k - 1) / 2 == curr {
        } else if (k - 1) / 2 == p {
            assert(min_pair(pre, k));
        } else {
            assert(min_pair(pre, k));
        }
    }
    if p >= 1 {
        assert forall|k: int|
            1 <= k < size && (k - 1) / 2 == p implies post[((p - 1) / 2) as int]
            <= #[trigger] post[k] by {
            assert(min_pair(pre, p));
            if k != curr {
                assert(min_pair(pre, k));
            }
        }
    }
}

/// Updating one slot of a sequence exchanges its old entry for the new one
/// in the multiset.
proof fn lemma_ms_update(s: Seq<i64>, i: int, v: i64)
    requires
        0 <= i < s.len(),
    ensures
        s.update(i, v).to_multiset() == s.to_multiset().remove(s[i]).insert(v),
{
    broadcast use group_to_multiset_ensures;
    broadcast use vstd::multiset::group_multiset_axioms;

    let pre = s.subrange(0, i);
    let post = s.subrange(i + 1, s.len() as int);
    assert(s =~= pre + seq![s[i]] + post);
    assert(s.update(i, v) =~= pre + seq![v] + post);
    lemma_multiset_commutative(pre + seq![s[i]], post);
    lemma_multiset_commutative(pre, seq![s[i]]);
    lemma_multiset_commutative(pre + seq![v], post);
    lemma_multiset_commutative(pre, seq![v]);
    assert(seq![s[i]].to_multiset() =~= Multiset::<i64>::empty().insert(s[i]));
    assert(seq![v].to_multiset() =~= Multiset::<i64>::empty().insert(v));
    assert(s.update(i, v).to_multiset() =~= s.to_multiset().remove(s[i]).insert(v));
}

/// The stored order is visible slot by slot: in a well-formed min-heap the
/// key at any position is at least the key at its parent.
pub proof fn lemma_min_heap_order(h: MinHeap, k: int)
    requires
        h.wf(),
        1 <= k < h.spec_size(),
    ensures
        h.key_at((k - 1) / 2) <= h.key_at(k),
{
    assert(min_pair(h.data@, k));
}

/// The mirror fact for the max-heap: the key at any position is at most
/// the key at its parent.
pub proof fn lemma_max_heap_order(h: MaxHeap, k: int)
    requires
        h.wf(),
        1 <= k < h.spec_size(),
    ensures
        h.key_at((k - 1) / 2) >= h.key_at(k),
{
    assert(max_pair(h.data@, k));
}

/// The slot view and the multiset view agree: every stored slot's key is
/// among the min-heap's contents.
pub proof fn lemma_min_heap_key_in_contents(h: MinHeap, k: int)
    requires
        h.wf(),
        0 <= k < h.spec_size(),
    ensures
        h.contents().contains(h.key_at(k)),
{
    broadcast use group_to_multiset_ensures;

    assert(h.data@.subrange(0, h.size as int)[k] == h.data@[k]);
    assert(h.data@.subrange(0, h.size as int).contains(h.data@[k]));
}

/// The same for the max-heap.
pub proof fn lemma_max_heap_key_in_contents(h: MaxHeap, k: int)
    requires
        h.wf(),
        0 <= k < h.spec_size(),
    ensures
        h.contents().contains(h.key_at(k)),
{
    broadcast use group_to_multiset_ensures;

    assert(h.data@.subrange(0, h.size as int)[k] == h.data@[k]);
    assert(h.data@.subrange(0, h.size as int).contains(h.data@[k]));
}

} // verus!
