//! Product segment tree over `i64` in the flat two-power layout: leaves sit
//! in the upper half of the array and every interior node holds the product
//! of its two children, maintained on update.  Products wrap on overflow.

use vstd::prelude::*;

verus! {

/// The least power of two at or above `capacity`.
fn next_two_power(capacity: usize) -> (r: usize)
    requires
        4 * (capacity as int) <= usize::MAX,
    ensures
        capacity <= r,
        1 <= r,
        r == 1 || (r as int) < 2 * capacity,
        2 * (r as int) <= usize::MAX,
{
    let mut size: usize = 1;
    while size < capacity
        invariant
            1 <= size,
            size < 2 * capacity || size == 1,
            4 * (capacity as int) <= usize::MAX,
        decreases 2 * capacity - size,
    {
        size = size * 2;
    }
    size
}

pub struct SegmentTree {
    size: usize,
    data: Vec<i64>,
}

impl SegmentTree {
    /// The number of leaf slots.
    pub closed spec fn spec_size(self) -> int {
        self.size as int
    }

    /// The value stored at leaf `i`.
    pub closed spec fn leaf_at(self, i: int) -> i64 {
        self.data@[self.size + i]
    }

    /// Structural invariant: a power-of-two-sized leaf row below a full row
    /// of interior nodes.
    pub closed spec fn wf(self) -> bool {
        &&& self.data@.len() == 2 * self.size
        &&& 1 <= self.size
        &&& 2 * (self.size as int) <= usize::MAX
    }

    /// A tree of identity values with room for `capacity` leaves.
    pub fn with_capacity(capacity: usize) -> (r: Self)
        requires
            4 * (capacity as int) <= usize::MAX,
        ensures
            r.wf(),
            capacity <= r.spec_size(),
            r.spec_size() == 1 || r.spec_size() < 2 * capacity,
            forall|i: int| 0 <= i < r.spec_size() ==> r.leaf_at(i) == 1i64,
    {
        let size = next_two_power(capacity);
        let data = vec![1i64; size * 2];
        SegmentTree { size, data }
    }

    /// A tree whose leaves hold the given values; interior nodes start at
    /// the identity and are filled in as updates arrive.
    pub fn build(array: &Vec<i64>) -> (r: Self)
        requires
            4 * array@.len() <= usize::MAX,
        ensures
            r.wf(),
            array@.len() <= r.spec_size(),
            r.spec_size() == 1 || r.spec_size() < 2 * array@.len(),
            forall|i: int| 0 <= i < array@.len() ==> r.leaf_at(i) == array@[i],
            forall|i: int| array@.len() <= i < r.spec_size() ==> r.leaf_at(i) == 1i64,
    {
        let size = next_two_power(array.len());
        let mut data = vec![1i64; size * 2];
        let mut i: usize = 0;
        while i < array.len()
            invariant
                array@.len() <= size,
                2 * (size as int) <= usize::MAX,
                data@.len() == 2 * size,
                0 <= i <= array@.len(),
                forall|k: int| 0 <= k < i ==> #[trigger] data@[size + k] == array@[k],
                forall|k: int| i <= k < size ==> #[trigger] data@[size + k] == 1i64,
            decreases array@.len() - i,
        {
            data[size + i] = array[i];
            i += 1;
        }
        SegmentTree { size, data }
    }

    /// How many leaf slots the tree has.
    pub fn size(&self) -> (r: usize)
        ensures
            r as int == self.spec_size(),
    {
        self.size
    }

    /// The product of the leaves in `[left, right]`, walking the two
    /// boundary paths upward and taking every interior node that lies
    /// completely inside the range.
    pub fn product(&self, left: usize, right: usize) -> (r: i64)
        requires
            self.wf(),
            (left as int) < self.spec_size(),
            (right as int) < self.spec_size(),
    {
        let mut ans: i64 = 1;
        let mut left = left + self.size;
        let mut right = right + self.size;

        while left <= right
            invariant
                self.wf(),
                left >= 1,
                right < 2 * self.size,
            decreases right,
        {
            if left % 2 == 1 {
                ans = ans.wrapping_mul(self.data[left]);
            }
            if right % 2 == 0 {
                ans = ans.wrapping_mul(self.data[right]);
            }
            left = (left + 1) / 2;
            right = (right - 1) / 2;
        }

        ans
    }

    /// Write `value` at leaf `index` and refresh the products on the path
    /// to the root.
    pub fn update(&mut self, index: usize, value: i64)
        requires
            old(self).wf(),
            (index as int) < old(self).spec_size(),
        ensures
            final(self).wf(),
            final(self).spec_size() == old(self).spec_size(),
            final(self).leaf_at(index as int) == value,
            forall|i: int|
                0 <= i < old(self).spec_size() && i != index ==> #[trigger] final(self).leaf_at(i)
                    == old(self).leaf_at(i),
    {
        let mut index = index + self.size;
        let ghost leaf = index as int;
        self.data[index] = value;

        while index > 0
            invariant
                self.wf(),
                self.size == old(self).size,
                index < 2 * self.size,
                self.data@[leaf] == value,
                self.size <= leaf < 2 * self.size,
                index <= leaf,
                index < leaf ==> index < self.size,
                forall|j: int|
                    self.size <= j < 2 * self.size && j != leaf ==> #[trigger] self.data@[j]
                        == old(self).data@[j],
            decreases index,
        {
            index = index / 2;
            let p = self.data[2 * index].wrapping_mul(self.data[2 * index + 1]);
            proof {
                assert(index < self.size);
                assert((index as int) < leaf);
            }
            self.data[index] = p;
        }
    }
}

} // verus!
