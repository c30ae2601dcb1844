//! Binary indexed tree over `i64`: each cell accumulates the values of an
//! index range determined by the bit pattern of its position, so prefix
//! sums and point updates take logarithmically many steps.  Additions wrap
//! on overflow.

use vstd::prelude::*;

verus! {

/// The owner of an index range `[op(i), i]` per cell.
pub(crate) fn op(index: isize) -> (r: isize)
    requires
        index >= 0,
        index < isize::MAX,
    ensures
        0 <= r <= index,
{
    let plus = index + 1;
    let r = index & plus;
    proof {
        assert(0 <= index & plus && index & plus <= index) by (bit_vector)
            requires
                index >= 0 && plus == index + 1 && plus > index,
        ;
    }
    r
}

pub struct FenwickTree {
    size: usize,
    data: Vec<i64>,
}

impl FenwickTree {
    pub closed spec fn spec_size(self) -> int {
        self.size as int
    }

    /// Structural invariant: one cell per index, and indices fit the signed
    /// arithmetic the queries use.
    pub closed spec fn wf(self) -> bool {
        &&& self.data@.len() == self.size
        &&& self.size <= isize::MAX
    }

    /// A tree of zeroes.
    pub fn with_capacity(capacity: usize) -> (r: Self)
        requires
            capacity as int <= isize::MAX,
        ensures
            r.wf(),
            r.spec_size() == capacity,
    {
        FenwickTree { size: capacity, data: vec![0i64; capacity] }
    }

    /// The tree of the given values: every cell accumulates its range.
    pub fn build(array: &Vec<i64>) -> (r: Self)
        requires
            array@.len() <= isize::MAX,
        ensures
            r.wf(),
            r.spec_size() == array@.len(),
    {
        let size = array.len();
        let mut data = vec![0i64; size];
        let mut i: usize = 0;
        while i < size
            invariant
                size == array@.len(),
                size <= isize::MAX,
                data@.len() == size,
                0 <= i <= size,
            decreases size - i,
        {
            let v = data[i].wrapping_add(array[i]);
            data[i] = v;
            let plus = i + 1;
            let next = i | plus;
            proof {
                assert(i | plus >= plus) by (bit_vector)
                    requires
                        plus == i + 1 && plus > i,
                ;
            }
            if next < size {
                let diff = data[i];
                let w = data[next].wrapping_add(diff);
                data[next] = w;
            }
            i += 1;
        }
        FenwickTree { size, data }
    }

    /// Sum of the cells on the query chain of `right`, covering the prefix
    /// ending there.
    fn prefix_sum(&self, right: isize) -> (ans: i64)
        requires
            self.wf(),
            right < self.spec_size(),
    {
        let mut ans: i64 = 0;
        let mut right = right;
        while right >= 0
            invariant
                self.wf(),
                right < self.spec_size(),
            decreases right + 1,
        {
            let a = ans.wrapping_add(self.data[right as usize]);
            ans = a;
            right = op(right) - 1;
        }
        ans
    }

    /// Sum of the values in `[left, right]`, as the difference of two
    /// prefix sums.
    pub fn sum(&self, left: usize, right: usize) -> (r: i64)
        requires
            self.wf(),
            (left as int) < self.spec_size(),
            (right as int) < self.spec_size(),
    {
        let hi = self.prefix_sum(right as isize);
        let lo = self.prefix_sum(left as isize - 1);
        hi.wrapping_sub(lo)
    }

    /// Add `value` to the cell at `index` and to every cell whose range
    /// covers it.
    pub fn add(&mut self, index: usize, value: i64)
        requires
            old(self).wf(),
        ensures
            final(self).wf(),
            final(self).spec_size() == old(self).spec_size(),
    {
        let mut index = index;
        while index < self.size
            invariant
                self.wf(),
                self.size == old(self).size,
            decreases (if (index as int) < self.spec_size() {
                self.spec_size() - index
            } else {
                0int
            }),
        {
            let v = self.data[index].wrapping_add(value);
            self.data[index] = v;
            let plus = index + 1;
            let next = index | plus;
            proof {
                assert(index | plus >= plus) by (bit_vector)
                    requires
                        plus == index + 1 && plus > index,
                ;
            }
            index = next;
        }
    }
}

} // verus!
