//! Comparison sorts over any totally ordered element type.  The order is
//! supplied through the `Orderable` trait: a specification-level relation,
//! proofs that it is total and transitive, and an executable comparison that
//! agrees with it.  The sorts promise the same two things: the array ends up
//! sorted by that order and holds the same multiset of elements.

pub mod bubble;
pub mod heap;
pub mod merge;
pub mod quick;

use vstd::prelude::*;
use vstd::seq_lib::lemma_multiset_commutative;
use vstd::string::StrSliceExecFns;
use vstd::string::StringSliceAdditionalSpecFns;

verus! {

/// A total order, with an executable comparison that decides it.
pub trait Orderable: Sized {
    /// The order the sorts arrange by.
    spec fn le_spec(self, other: Self) -> bool;

    /// Any two values compare one way or the other.
    proof fn lemma_le_total(a: Self, b: Self)
        ensures
            a.le_spec(b) || b.le_spec(a),
    ;

    /// The order composes.
    proof fn lemma_le_trans(a: Self, b: Self, c: Self)
        requires
            a.le_spec(b),
            b.le_spec(c),
        ensures
            a.le_spec(c),
    ;

    /// Executable comparison: `true` exactly when `self` comes no later than
    /// `other`.
    fn le(&self, other: &Self) -> (r: bool)
        ensures
            r == self.le_spec(*other),
    ;
}

impl Orderable for i32 {
    open spec fn le_spec(self, other: Self) -> bool {
        self <= other
    }

    proof fn lemma_le_total(a: Self, b: Self) {
    }

    proof fn lemma_le_trans(a: Self, b: Self, c: Self) {
    }

    fn le(&self, other: &Self) -> (r: bool) {
        *self <= *other
    }
}

impl Orderable for i64 {
    open spec fn le_spec(self, other: Self) -> bool {
        self <= other
    }

    proof fn lemma_le_total(a: Self, b: Self) {
    }

    proof fn lemma_le_trans(a: Self, b: Self, c: Self) {
    }

    fn le(&self, other: &Self) -> (r: bool) {
        *self <= *other
    }
}

impl Orderable for u64 {
    open spec fn le_spec(self, other: Self) -> bool {
        self <= other
    }

    proof fn lemma_le_total(a: Self, b: Self) {
    }

    proof fn lemma_le_trans(a: Self, b: Self, c: Self) {
    }

    fn le(&self, other: &Self) -> (r: bool) {
        *self <= *other
    }
}

impl Orderable for usize {
    open spec fn le_spec(self, other: Self) -> bool {
        self <= other
    }

    proof fn lemma_le_total(a: Self, b: Self) {
    }

    proof fn lemma_le_trans(a: Self, b: Self, c: Self) {
    }

    fn le(&self, other: &Self) -> (r: bool) {
        *self <= *other
    }
}

/// Byte-wise lexicographic order; on strings it coincides with Rust's own
/// ordering of `str`.
pub open spec fn lex_le(a: Seq<u8>, b: Seq<u8>) -> bool
    decreases a.len(),
{
    if a.len() == 0 {
        true
    } else if b.len() == 0 {
        false
    } else if a[0] < b[0] {
        true
    } else if a[0] > b[0] {
        false
    } else {
        lex_le(a.drop_first(), b.drop_first())
    }
}

proof fn lemma_lex_le_total(a: Seq<u8>, b: Seq<u8>)
    ensures
        lex_le(a, b) || lex_le(b, a),
    decreases a.len(),
{
    if a.len() > 0 && b.len() > 0 && a[0] == b[0] {
        lemma_lex_le_total(a.drop_first(), b.drop_first());
    }
}

proof fn lemma_lex_le_trans(a: Seq<u8>, b: Seq<u8>, c: Seq<u8>)
    requires
        lex_le(a, b),
        lex_le(b, c),
    ensures
        lex_le(a, c),
    decreases a.len(),
{
    if a.len() > 0 && b.len() > 0 && c.len() > 0 && a[0] == b[0] && b[0] == c[0] {
        lemma_lex_le_trans(a.drop_first(), b.drop_first(), c.drop_first());
    }
}

/// If the first `k` bytes agree, the comparison is decided by the tails.
proof fn lemma_lex_le_skip(a: Seq<u8>, b: Seq<u8>, k: int)
    requires
        0 <= k <= a.len(),
        k <= b.len(),
        forall|j: int| 0 <= j < k ==> a[j] == #[trigger] b[j],
    ensures
        lex_le(a, b) == lex_le(a.skip(k), b.skip(k)),
    decreases k,
{
    if k > 0 {
        assert(a.drop_first().skip(k - 1) =~= a.skip(k));
        assert(b.drop_first().skip(k - 1) =~= b.skip(k));
        lemma_lex_le_skip(a.drop_first(), b.drop_first(), k - 1);
    } else {
        assert(a.skip(0) =~= a);
        assert(b.skip(0) =~= b);
    }
}

/// Executable byte-wise comparison of two strings.
fn str_le(a: &str, b: &str) -> (r: bool)
    ensures
        r == lex_le(a.spec_bytes(), b.spec_bytes()),
{
    let ab = a.as_bytes();
    let bb = b.as_bytes();
    let an = ab.len();
    let bn = bb.len();
    let mut i: usize = 0;
    while i < an && i < bn
        invariant
            an == ab@.len(),
            bn == bb@.len(),
            ab@ == a.spec_bytes(),
            bb@ == b.spec_bytes(),
            0 <= i <= an,
            i <= bn,
            forall|j: int| 0 <= j < i ==> ab@[j] == #[trigger] bb@[j],
        decreases an - i,
    {
        let x = ab[i];
        let y = bb[i];
        if x != y {
            proof {
                lemma_lex_le_skip(ab@, bb@, i as int);
                assert(ab@.skip(i as int)[0] == ab@[i as int]);
                assert(bb@.skip(i as int)[0] == bb@[i as int]);
            }
            return x < y;
        }
        i += 1;
    }
    proof {
        lemma_lex_le_skip(ab@, bb@, if i < an { bn as int } else { i as int });
        if an <= bn {
            assert(ab@.skip(an as int).len() == 0);
        } else {
            assert(ab@.skip(bn as int).len() > 0);
            assert(bb@.skip(bn as int).len() == 0);
        }
    }
    an <= bn
}

impl<'a> Orderable for &'a str {
    open spec fn le_spec(self, other: Self) -> bool {
        lex_le(self.spec_bytes(), other.spec_bytes())
    }

    proof fn lemma_le_total(a: Self, b: Self) {
        lemma_lex_le_total(a.spec_bytes(), b.spec_bytes());
    }

    proof fn lemma_le_trans(a: Self, b: Self, c: Self) {
        lemma_lex_le_trans(a.spec_bytes(), b.spec_bytes(), c.spec_bytes());
    }

    fn le(&self, other: &Self) -> (r: bool) {
        str_le(self, other)
    }
}

/// The elements of `s` between `lo` (inclusive) and `hi` (exclusive) are in
/// order.
pub open spec fn sorted_between<T: Orderable>(s: Seq<T>, lo: int, hi: int) -> bool {
    forall|x: int, y: int| lo <= x < y < hi ==> #[trigger] s[x].le_spec(#[trigger] s[y])
}

/// The whole sequence is in order.
pub open spec fn sorted<T: Orderable>(s: Seq<T>) -> bool {
    sorted_between(s, 0, s.len() as int)
}

/// Exchange two elements; the multiset of elements is unchanged.
pub(crate) fn swap_items<T: Orderable + Copy>(v: &mut Vec<T>, i: usize, j: usize)
    requires
        (i as int) < old(v)@.len(),
        (j as int) < old(v)@.len(),
    ensures
        final(v)@.len() == old(v)@.len(),
        final(v)@ == old(v)@.update(i as int, old(v)@[j as int]).update(
            j as int,
            old(v)@[i as int],
        ),
        final(v)@.to_multiset() == old(v)@.to_multiset(),
{
    let a = v[i];
    let b = v[j];
    v[i] = b;
    v[j] = a;
    proof {
        if i == j {
            assert(final(v)@ =~= old(v)@);
        } else {
            lemma_swap_preserves_multiset(old(v)@, i as int, j as int);
            assert(final(v)@ =~= old(v)@.update(i as int, old(v)@[j as int]).update(
                j as int,
                old(v)@[i as int],
            ));
        }
    }
}

/// Exchanging two positions of a sequence does not change its multiset of
/// elements.
pub proof fn lemma_swap_preserves_multiset<T>(s: Seq<T>, i: int, j: int)
    requires
        0 <= i < s.len(),
        0 <= j < s.len(),
    ensures
        s.update(i, s[j]).update(j, s[i]).to_multiset() == s.to_multiset(),
{
    if i == j {
        assert(s.update(i, s[j]).update(j, s[i]) =~= s);
    } else {
        let lo = if i < j {
            i
        } else {
            j
        };
        let hi = if i < j {
            j
        } else {
            i
        };
        let t = s.update(i, s[j]).update(j, s[i]);
        let pre = s.subrange(0, lo);
        let mid = s.subrange(lo + 1, hi);
        let post = s.subrange(hi + 1, s.len() as int);
        assert(s =~= pre + seq![s[lo]] + mid + seq![s[hi]] + post);
        assert(t =~= pre + seq![s[hi]] + mid + seq![s[lo]] + post);
        lemma_multiset_commutative(pre + seq![s[lo]] + mid + seq![s[hi]], post);
        lemma_multiset_commutative(pre + seq![s[lo]] + mid, seq![s[hi]]);
        lemma_multiset_commutative(pre + seq![s[lo]], mid);
        lemma_multiset_commutative(pre, seq![s[lo]]);
        lemma_multiset_commutative(pre + seq![s[hi]] + mid + seq![s[lo]], post);
        lemma_multiset_commutative(pre + seq![s[hi]] + mid, seq![s[lo]]);
        lemma_multiset_commutative(pre + seq![s[hi]], mid);
        lemma_multiset_commutative(pre, seq![s[hi]]);
        assert(s.to_multiset() =~= t.to_multiset());
    }
}

} // verus!
