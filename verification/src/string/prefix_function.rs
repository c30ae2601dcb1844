//! The prefix function of a string: for every position, the length of the
//! longest proper border (a prefix that is also a suffix) of the prefix
//! ending there, computed in one left-to-right pass over the candidate
//! chain of shorter borders.

use vstd::prelude::*;
use vstd::string::StrSliceExecFns;

verus! {

/// `k` is a border of the length-`p` prefix of `s`: a proper prefix of it
/// that is also its suffix.  `0` is a border of everything.
pub open spec fn is_border(s: Seq<char>, p: int, k: int) -> bool {
    &&& 0 <= k < p
    &&& s.subrange(0, k) == s.subrange(p - k, p)
}

/// The defining property of the prefix function: entry `i` is the longest
/// border of the prefix ending at `i`.
pub open spec fn is_longest_border(s: Seq<char>, i: int, v: int) -> bool {
    &&& (v == 0 || is_border(s, i + 1, v))
    &&& 0 <= v <= i
    &&& forall|b: int| v < b < i + 1 ==> !#[trigger] is_border(s, i + 1, b)
}

/// A border of a border is a border: if `b < k` are both borders of the
/// length-`p` prefix, then `b` is a border of the length-`k` prefix.
proof fn lemma_border_of_border(s: Seq<char>, p: int, k: int, b: int)
    requires
        p <= s.len(),
        is_border(s, p, k),
        is_border(s, p, b),
        b < k,
    ensures
        is_border(s, k, b),
{
    assert forall|i: int| 0 <= i < b implies s.subrange(0, b)[i] == s.subrange(k - b, k)[i] by {
        assert(s.subrange(0, k)[k - b + i] == s.subrange(p - k, p)[k - b + i]);
        assert(s.subrange(0, b)[i] == s.subrange(p - b, p)[i]);
        assert(s[k - b + i] == s[p - b + i]);
    }
    assert(s.subrange(0, b) =~= s.subrange(k - b, k));
}

/// Borderhood composes: a border of a border of the length-`p` prefix is
/// itself a border of that prefix.
proof fn lemma_border_trans(s: Seq<char>, p: int, k: int, b: int)
    requires
        p <= s.len(),
        is_border(s, p, k),
        is_border(s, k, b),
    ensures
        is_border(s, p, b),
{
    assert forall|j: int| 0 <= j < b implies #[trigger] s.subrange(0, b)[j] == s.subrange(
        p - b,
        p,
    )[j] by {
        assert(s.subrange(0, k)[k - b + j] == s.subrange(p - k, p)[k - b + j]);
        assert(s.subrange(0, b)[j] == s.subrange(k - b, k)[j]);
        assert(s[j] == s[k - b + j]);
        assert(s[k - b + j] == s[p - b + j]);
    }
    assert(s.subrange(0, b) =~= s.subrange(p - b, p));
}

/// A border followed by one matching symbol extends to a border one longer.
proof fn lemma_border_extend(s: Seq<char>, i: int, k: int)
    requires
        0 <= i < s.len(),
        0 <= k < i,
        k == 0 || is_border(s, i, k),
        s[k] == s[i],
    ensures
        is_border(s, i + 1, k + 1),
{
    assert forall|j: int| 0 <= j < k + 1 implies #[trigger] s.subrange(0, k + 1)[j] == s.subrange(
        i - k,
        i + 1,
    )[j] by {
        if j < k {
            assert(s.subrange(0, k)[j] == s.subrange(i - k, i)[j]);
        }
    }
    assert(s.subrange(0, k + 1) =~= s.subrange(i - k, i + 1));
}

/// A nonzero border of the prefix ending at `i`, shortened by one, is a
/// border (or zero) of the prefix ending at `i - 1`, and the symbols at its
/// end agree.
proof fn lemma_border_shrink(s: Seq<char>, i: int, b: int)
    requires
        0 < i < s.len(),
        is_border(s, i + 1, b),
        1 <= b,
    ensures
        b - 1 == 0 || is_border(s, i, b - 1),
        s[b - 1] == s[i],
{
    assert(s.subrange(0, b)[b - 1] == s.subrange(i + 1 - b, i + 1)[b - 1]);
    if b - 1 >= 1 {
        assert forall|j: int| 0 <= j < b - 1 implies #[trigger] s.subrange(0, b - 1)[j]
            == s.subrange(i - (b - 1), i)[j] by {
            assert(s.subrange(0, b)[j] == s.subrange(i + 1 - b, i + 1)[j]);
        }
        assert(s.subrange(0, b - 1) =~= s.subrange(i - (b - 1), i));
    }
}

/// Compute the prefix function.  The result has one entry per symbol, and
/// entry `i` is exactly the length of the longest proper border of the
/// prefix ending at `i`; entry `0` is `0`.
#[verifier::loop_isolation(false)]
pub fn prefix_function(string: &str) -> (r: Vec<usize>)
    ensures
        r@.len() == string@.len(),
        forall|i: int| 0 <= i < r@.len() ==> is_longest_border(string@, i, #[trigger] r@[i] as int),
{
    let ghost s = string@;
    let strlen = string.unicode_len();
    let mut prefix_array: Vec<usize> = Vec::new();
    if strlen > 0 {
        prefix_array.push(0);
        proof {
            assert forall|b: int| 0 < b < 1 implies !#[trigger] is_border(s, 1, b) by {}
        }
    }
    let mut i: usize = 1;
    while i < strlen
        invariant
            strlen == s.len(),
            strlen > 0 ==> prefix_array@.len() == i,
            strlen == 0 ==> prefix_array@.len() == 0,
            1 <= i,
            strlen > 0 ==> i <= strlen,
            forall|j: int|
                0 <= j < prefix_array@.len() ==> is_longest_border(s, j, #[trigger] prefix_array@[j] as int),
            forall|j: int| 0 <= j < prefix_array@.len() ==> #[trigger] prefix_array@[j] <= j,
        decreases strlen - i,
    {
        let mut prev = prefix_array[i - 1];
        let ci = string.get_char(i);
        proof {
            // On entry every border of the extended prefix is at most one
            // longer than the stored maximum for the current prefix.
            assert(is_longest_border(s, i - 1, prev as int));
            assert forall|b: int| prev + 1 < b < i + 2 implies !#[trigger] is_border(
                s,
                i + 1,
                b,
            ) by {
                if b <= i && is_border(s, i + 1, b) {
                    lemma_border_shrink(s, i as int, b);
                    assert(is_border(s, i as int, b - 1));
                    assert(!is_border(s, (i - 1) + 1, b - 1));
                }
            }
        }
        // Walk the candidate chain: each stored entry names the next
        // shorter border to try.
        while prev > 0 && string.get_char(prev) != ci
            invariant
                1 <= i < strlen,
                0 <= prev <= i,
                prev as int == 0 || is_border(s, i as int, prev as int),
                forall|b: int| prev + 1 < b < i + 2 ==> !#[trigger] is_border(s, i + 1, b),
            decreases prev,
        {
            let ghost oldprev = prev as int;
            proof {
                let nxt = prefix_array@[prev - 1] as int;
                assert(is_longest_border(s, prev - 1, nxt));
                assert forall|b: int| nxt + 1 < b < i + 2 implies !#[trigger] is_border(
                    s,
                    i + 1,
                    b,
                ) by {
                    if b <= oldprev + 1 && is_border(s, i + 1, b) {
                        lemma_border_shrink(s, i as int, b);
                        if b == oldprev + 1 {
                            assert(s[oldprev] == s[i as int]);
                        } else {
                            assert(b - 1 >= 1);
                            assert(is_border(s, i as int, b - 1));
                            lemma_border_of_border(s, i as int, oldprev, b - 1);
                        }
                    }
                }
                if nxt > 0 {
                    lemma_border_trans(s, i as int, oldprev, nxt);
                }
            }
            prev = prefix_array[prev - 1];
        }
        let cp = string.get_char(prev);
        if cp == ci {
            proof {
                lemma_border_extend(s, i as int, prev as int);
            }
            prev += 1;
            prefix_array.push(prev);
            proof {
                assert(is_longest_border(s, i as int, prev as int));
            }
        } else {
            proof {
                assert(prev == 0);
                assert forall|b: int| 0 < b < i + 1 implies !#[trigger] is_border(s, i + 1, b) by {
                    if b == 1 && is_border(s, i + 1, 1) {
                        assert(s.subrange(0, 1)[0] == s.subrange(i as int, i + 1)[0]);
                    }
                }
                assert(is_longest_border(s, i as int, 0));
            }
            prefix_array.push(prev);
        }
        i += 1;
    }
    prefix_array
}

} // verus!
