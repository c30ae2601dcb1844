//! The Z-function of a string: for every position, the length of the
//! longest common prefix of the string and its suffix starting there,
//! computed with the usual match window ("Z-box") reuse.

use vstd::prelude::*;
use vstd::string::StrSliceExecFns;

verus! {

/// `v` is the Z-value at `i`: the suffix at `i` matches the prefix for
/// exactly `v` symbols — either the text ends there or the next symbols
/// differ.
pub open spec fn z_value(s: Seq<char>, i: int, v: int) -> bool {
    &&& 0 <= v
    &&& i + v <= s.len()
    &&& s.subrange(i, i + v) == s.subrange(0, v)
    &&& i + v < s.len() ==> s[v] != s[i + v]
}

/// Compute the Z-function.  Entry `0` is left at `0`; every other entry is
/// exactly the longest common prefix of the whole string and the suffix
/// starting at that entry's position.
#[verifier::loop_isolation(false)]
pub fn z_function(string: &str) -> (r: Vec<usize>)
    ensures
        r@.len() == string@.len(),
        string@.len() > 0 ==> r@[0] == 0,
        forall|i: int| 1 <= i < r@.len() ==> z_value(string@, i, #[trigger] r@[i] as int),
{
    let ghost s = string@;
    let strlen = string.unicode_len();
    let mut z_array: Vec<usize> = Vec::new();
    let mut k: usize = 0;
    while k < strlen
        invariant
            0 <= k <= strlen,
            z_array@.len() == k,
            forall|j: int| 0 <= j < k ==> z_array@[j] == 0,
        decreases strlen - k,
    {
        z_array.push(0);
        k += 1;
    }

    let mut left: usize = 0;
    let mut right: usize = 0;
    let mut i: usize = 1;
    while i < strlen
        invariant
            strlen == s.len(),
            z_array@.len() == strlen,
            1 <= i,
            strlen > 0 ==> i <= strlen,
            strlen == 0 ==> i == 1,
            strlen > 0 ==> z_array@[0] == 0,
            forall|j: int| 1 <= j < i && j < strlen ==> z_value(s, j, #[trigger] z_array@[j] as int),
            strlen > 0 ==> left <= right + 1 && right < strlen && left < i,
            left == 0 ==> right == 0,
            strlen > 0 ==> s.subrange(left as int, right + 1) =~= s.subrange(
                0,
                right + 1 - left,
            ),
        decreases strlen - i,
    {
        let ci = string.get_char(i);
        let mut zi: usize = 0;
        if i <= right {
            let reuse = z_array[i - left];
            zi = if right - i + 1 < reuse {
                right - i + 1
            } else {
                reuse
            };
            proof {
                // Inside the match window the suffix at `i` mirrors the
                // suffix at `i - left` of the prefix, which is known to
                // match the prefix for `reuse` symbols.
                assert(1 <= i - left < i);
                assert(reuse == z_array@[i - left]);
                assert(z_value(s, i - left, z_array@[i - left] as int));
                assert(z_value(s, i - left, reuse as int));
                assert forall|j: int| 0 <= j < zi implies #[trigger] s[i + j] == s[j] by {
                    assert(s.subrange(left as int, right + 1)[i - left + j] == s.subrange(
                        0,
                        right + 1 - left,
                    )[i - left + j]);
                    assert(s[i + j] == s[i - left + j]);
                    assert(s.subrange(i - left, i - left + reuse)[j] == s.subrange(
                        0,
                        reuse as int,
                    )[j]);
                }
            }
        }
        proof {
            assert forall|j: int| 0 <= j < zi implies #[trigger] s.subrange(i as int, i + zi)[j]
                == s.subrange(0, zi as int)[j] by {
                assert(s[i + j] == s[j]);
            }
            assert(s.subrange(i as int, i + zi) =~= s.subrange(0, zi as int));
        }
        while i + zi < strlen && string.get_char(zi) == string.get_char(i + zi)
            invariant
                1 <= i < strlen,
                0 <= zi,
                i + zi <= strlen,
                s.subrange(i as int, i + zi) =~= s.subrange(0, zi as int),
            decreases strlen - i - zi,
        {
            proof {
                assert forall|j: int|
                    0 <= j < zi + 1 implies #[trigger] s.subrange(i as int, i + zi + 1)[j]
                    == s.subrange(0, zi + 1)[j] by {
                    if j < zi {
                        assert(s.subrange(i as int, i + zi)[j] == s.subrange(0, zi as int)[j]);
                    }
                }
                assert(s.subrange(i as int, i + zi + 1) =~= s.subrange(0, zi + 1));
            }
            zi += 1;
        }
        z_array[i] = zi;
        proof {
            assert(z_value(s, i as int, zi as int));
        }
        if i + zi - 1 > right {
            left = i;
            right = i + zi - 1;
            proof {
                assert(s.subrange(left as int, right + 1) =~= s.subrange(0, right + 1 - left));
            }
        }
        i += 1;
    }
    z_array
}

} // verus!
