//! Knuth–Morris–Pratt matching: all positions where the pattern occurs in
//! the text, found in one pass with the prefix function of the pattern
//! followed by a sentinel symbol.

use crate::string::prefix_function::is_border;
use crate::string::prefix_function::is_longest_border;
use crate::string::prefix_function::prefix_function;
use vstd::prelude::*;
use vstd::string::StrSliceExecFns;
use vstd::string::StringExecFns;

verus! {

/// The pattern occurs in the text at position `j`.
pub open spec fn is_occurrence(t: Seq<char>, p: Seq<char>, j: int) -> bool {
    &&& 0 <= j
    &&& j + p.len() <= t.len()
    &&& t.subrange(j, j + p.len()) == p
}

/// The first `k` symbols of the pattern match the text just before
/// position `i`.
pub open spec fn partial_match(t: Seq<char>, p: Seq<char>, i: int, k: int) -> bool {
    &&& 0 <= k <= p.len()
    &&& k <= i <= t.len()
    &&& t.subrange(i - k, i) == p.subrange(0, k)
}

/// `k` is the longest partial match ending just before position `i`.
pub open spec fn best_match(t: Seq<char>, p: Seq<char>, i: int, k: int) -> bool {
    &&& partial_match(t, p, i, k)
    &&& forall|k2: int| k < k2 <= p.len() && k2 <= i ==> !#[trigger] partial_match(t, p, i, k2)
}

/// Advance the matcher by one text symbol: from the longest match ending
/// before `index` to the longest match ending before `index + 1`, walking
/// the prefix-function chain of the sentinel-extended pattern.
#[verifier::loop_isolation(false)]
fn kmp_next(
    prefix_array: &Vec<usize>,
    pattern: &str,
    text: &str,
    prev: usize,
    index: usize,
) -> (r: usize)
    requires
        !pattern@.contains('#'),
        prefix_array@.len() == pattern@.len() + 1,
        forall|j: int|
            0 <= j < prefix_array@.len() ==> is_longest_border(
                pattern@.push('#'),
                j,
                #[trigger] prefix_array@[j] as int,
            ),
        (index as int) < text@.len(),
        best_match(text@, pattern@, index as int, prev as int),
    ensures
        best_match(text@, pattern@, index + 1, r as int),
{
    let ghost t = text@;
    let ghost p = pattern@;
    let ghost pc = pattern@.push('#');
    let m = prefix_array.len() - 1;
    let mut prev = prev;
    proof {
        assert forall|k2: int|
            prev + 1 < k2 <= p.len() && k2 <= index + 1 implies !#[trigger] partial_match(
            t,
            p,
            index + 1,
            k2,
        ) by {
            if partial_match(t, p, index + 1, k2) {
                lemma_match_shrink(t, p, index as int, k2);
            }
        }
    }
    while prev > 0 && (prev >= m || text.get_char(index) != pattern.get_char(prev))
        invariant
            0 <= prev,
            prev as int <= index,
            prev <= m,
            partial_match(t, p, index as int, prev as int),
            forall|k2: int|
                prev + 1 < k2 <= p.len() && k2 <= index + 1 ==> !#[trigger] partial_match(
                    t,
                    p,
                    index + 1,
                    k2,
                ),
        decreases prev,
    {
        let ghost oldprev = prev as int;
        proof {
            let nxt = prefix_array@[prev - 1] as int;
            assert(is_longest_border(pc, prev - 1, nxt));
            // Rule out the one candidate the step abandons, then bound the
            // rest by the stored maximum.
            assert forall|k2: int|
                nxt + 1 < k2 <= p.len() && k2 <= index + 1 implies !#[trigger] partial_match(
                t,
                p,
                index + 1,
                k2,
            ) by {
                if k2 <= oldprev + 1 && partial_match(t, p, index + 1, k2) {
                    lemma_match_shrink(t, p, index as int, k2);
                    if k2 == oldprev + 1 {
                        assert(t.subrange(index - oldprev, index as int)[oldprev] == p.subrange(
                            0,
                            oldprev + 1,
                        )[oldprev]);
                        assert(p.subrange(0, k2)[k2 - 1] == p[k2 - 1]);
                        assert(false);
                    } else {
                        lemma_suffix_border(t, p, pc, index as int, oldprev, k2 - 1);
                        assert(!is_border(pc, (prev - 1) + 1, k2 - 1));
                        assert(false);
                    }
                }
            }
            if nxt > 0 {
                lemma_border_gives_match(t, p, pc, index as int, oldprev, nxt);
            } else {
                assert(t.subrange(index as int, index as int) =~= p.subrange(0, 0));
            }
        }
        prev = prefix_array[prev - 1];
    }
    let take = prev < m && text.get_char(index) == pattern.get_char(prev);
    if take {
        proof {
            lemma_match_extend(t, p, index as int, prev as int);
        }
        prev + 1
    } else {
        proof {
            // the chain walk only stops early on a usable symbol match, so
            // here the match length is zero
            assert(prev == 0);
            assert forall|k2: int| 0 < k2 <= p.len() && k2 <= index + 1 implies !#[trigger] partial_match(
                t,
                p,
                index + 1,
                k2,
            ) by {
                if k2 == 1 && partial_match(t, p, index + 1, 1) {
                    assert(t.subrange(index + 1 - 1, index + 1)[0] == p.subrange(0, 1)[0]);
                    assert(m >= 1);
                    assert(false);
                }
            }
            assert(t.subrange(index + 1, index + 1) =~= p.subrange(0, 0));
        }
        0
    }
}

/// A partial match one symbol longer shrinks to a partial match at the
/// previous position whose next pattern symbol is the new text symbol.
proof fn lemma_match_shrink(t: Seq<char>, p: Seq<char>, index: int, k2: int)
    requires
        0 <= index < t.len(),
        partial_match(t, p, index + 1, k2),
        1 <= k2,
    ensures
        partial_match(t, p, index, k2 - 1),
        t[index] == p[k2 - 1],
{
    assert(t.subrange(index + 1 - k2, index + 1)[k2 - 1] == p.subrange(0, k2)[k2 - 1]);
    assert forall|j: int| 0 <= j < k2 - 1 implies #[trigger] t.subrange(
        index - (k2 - 1),
        index,
    )[j] == p.subrange(0, k2 - 1)[j] by {
        assert(t.subrange(index + 1 - k2, index + 1)[j] == p.subrange(0, k2)[j]);
    }
    assert(t.subrange(index - (k2 - 1), index) =~= p.subrange(0, k2 - 1));
}

/// A partial match extended by one matching symbol.
proof fn lemma_match_extend(t: Seq<char>, p: Seq<char>, index: int, k: int)
    requires
        0 <= index < t.len(),
        partial_match(t, p, index, k),
        k < p.len(),
        t[index] == p[k],
    ensures
        partial_match(t, p, index + 1, k + 1),
{
    assert forall|j: int| 0 <= j < k + 1 implies #[trigger] t.subrange(
        index + 1 - (k + 1),
        index + 1,
    )[j] == p.subrange(0, k + 1)[j] by {
        if j < k {
            assert(t.subrange(index - k, index)[j] == p.subrange(0, k)[j]);
        }
    }
    assert(t.subrange(index + 1 - (k + 1), index + 1) =~= p.subrange(0, k + 1));
}

/// Two partial matches at the same position make the shorter a border of
/// the longer pattern prefix, read inside the sentinel-extended pattern.
proof fn lemma_suffix_border(t: Seq<char>, p: Seq<char>, pc: Seq<char>, index: int, long: int, short: int)
    requires
        pc == p.push('#'),
        0 <= index <= t.len(),
        partial_match(t, p, index, long),
        partial_match(t, p, index, short),
        0 <= short < long,
    ensures
        is_border(pc, long, short),
{
    assert forall|j: int| 0 <= j < short implies #[trigger] pc.subrange(0, short)[j] == pc.subrange(
        long - short,
        long,
    )[j] by {
        assert(t.subrange(index - short, index)[j] == p.subrange(0, short)[j]);
        assert(t.subrange(index - long, index)[long - short + j] == p.subrange(
            0,
            long,
        )[long - short + j]);
        assert(t[index - short + j] == p[j]);
        assert(t[index - short + j] == p[long - short + j]);
    }
    assert(pc.subrange(0, short) =~= pc.subrange(long - short, long));
}

/// A border of a matched pattern prefix is itself a partial match.
proof fn lemma_border_gives_match(t: Seq<char>, p: Seq<char>, pc: Seq<char>, index: int, long: int, short: int)
    requires
        pc == p.push('#'),
        0 <= index <= t.len(),
        partial_match(t, p, index, long),
        long <= p.len(),
        is_border(pc, long, short),
        1 <= short,
    ensures
        partial_match(t, p, index, short),
{
    assert forall|j: int| 0 <= j < short implies #[trigger] t.subrange(index - short, index)[j]
        == p.subrange(0, short)[j] by {
        assert(pc.subrange(0, short)[j] == pc.subrange(long - short, long)[j]);
        assert(t.subrange(index - long, index)[long - short + j] == p.subrange(
            0,
            long,
        )[long - short + j]);
    }
    assert(t.subrange(index - short, index) =~= p.subrange(0, short));
}

/// All positions where the pattern occurs in the text, in increasing order.
/// The sentinel `'#'` must not occur in the pattern.  An empty pattern
/// yields one entry per text symbol, the position just after it.
#[verifier::loop_isolation(false)]
pub fn kmp(pattern: &str, text: &str) -> (r: Vec<usize>)
    requires
        !pattern@.contains('#'),
    ensures
        pattern@.len() >= 1 ==> forall|x: int|
            0 <= x < r@.len() ==> is_occurrence(text@, pattern@, #[trigger] r@[x] as int),
        forall|x: int, y: int| 0 <= x < y < r@.len() ==> r@[x] < r@[y],
        pattern@.len() >= 1 ==> forall|j: int|
            #[trigger] is_occurrence(text@, pattern@, j) ==> r@.contains(j as usize),
        pattern@.len() == 0 ==> r@.len() == text@.len() && forall|x: int|
            0 <= x < r@.len() ==> r@[x] == x + 1,
{
    let ghost t = text@;
    let ghost p = pattern@;
    let ghost pc = pattern@.push('#');
    let pattern_len = pattern.unicode_len();
    let text_len = text.unicode_len();

    let mut answer: Vec<usize> = Vec::new();

    if pattern_len > text_len {
        proof {
            assert forall|j: int| #[trigger] is_occurrence(t, p, j) implies answer@.contains(
                j as usize,
            ) by {}
        }
        return answer;
    }

    // The prefix function of pattern + sentinel; the sentinel matches
    // nothing, so the entry after the full pattern is zero.
    let mut extended = pattern.to_owned();
    extended.append("#");
    let prefix_array = prefix_function(extended.as_str());
    proof {
        reveal_strlit("#");
        assert("#"@ =~= seq!['#']);
        assert(extended@ =~= pc);
        assert(prefix_array@.len() == p.len() + 1);
        let v = prefix_array@[p.len() as int] as int;
        assert(is_longest_border(pc, p.len() as int, v));
        if v >= 1 {
            assert(pc.subrange(0, v)[v - 1] == pc.subrange(
                p.len() as int + 1 - v,
                p.len() as int + 1,
            )[v - 1]);
            assert(pc[v - 1] == pc[p.len() as int]);
            assert(p[v - 1] == '#');
            assert(p.contains('#'));
            assert(false);
        }
    }
    let mut curr = prefix_array[pattern_len];
    proof {
        assert(curr == 0);
        assert(t.subrange(0, 0) =~= p.subrange(0, 0));
        assert(best_match(t, p, 0, 0));
    }

    let mut i: usize = 0;
    while i < text_len
        invariant
            t.len() == text_len,
            p.len() == pattern_len,
            pattern_len <= text_len,
            !p.contains('#'),
            prefix_array@.len() == pattern_len + 1,
            forall|j: int|
                0 <= j < prefix_array@.len() ==> is_longest_border(
                    pc,
                    j,
                    #[trigger] prefix_array@[j] as int,
                ),
            pc == p.push('#'),
            0 <= i <= text_len,
            best_match(t, p, i as int, curr as int),
            forall|x: int|
                0 <= x < answer@.len() ==> is_occurrence(t, p, #[trigger] answer@[x] as int)
                    && answer@[x] + pattern_len <= i,
            forall|x: int, y: int| 0 <= x < y < answer@.len() ==> answer@[x] < answer@[y],
            pattern_len >= 1 ==> forall|j: int|
                #[trigger] is_occurrence(t, p, j) && j + pattern_len <= i ==> answer@.contains(
                    j as usize,
                ),
            pattern_len == 0 ==> answer@.len() == i && forall|x: int|
                0 <= x < answer@.len() ==> answer@[x] == x + 1,
        decreases text_len - i,
    {
        curr = kmp_next(&prefix_array, pattern, text, curr, i);
        let ghost a0 = answer@;
        if curr == pattern_len {
            answer.push(i + 1 - pattern_len);
            proof {
                assert(partial_match(t, p, i + 1, pattern_len as int));
                assert(t.subrange(i + 1 - pattern_len, i + 1) == p.subrange(0, p.len() as int));
                assert(p.subrange(0, p.len() as int) =~= p);
                assert(is_occurrence(t, p, i + 1 - pattern_len));
                assert forall|j: int|
                    pattern_len >= 1 && #[trigger] is_occurrence(t, p, j) && j + pattern_len <= i
                        + 1 implies answer@.contains(j as usize) by {
                    if j + pattern_len <= i {
                        assert(a0.contains(j as usize));
                        let x = choose|x: int| 0 <= x < a0.len() && a0[x] == j as usize;
                        assert(answer@[x] == j as usize);
                    } else {
                        assert(j == i + 1 - pattern_len);
                        assert(answer@[answer@.len() - 1] == j as usize);
                    }
                }
            }
        } else {
            proof {
                assert forall|j: int|
                    pattern_len >= 1 && #[trigger] is_occurrence(t, p, j) && j + pattern_len <= i
                        + 1 implies answer@.contains(j as usize) by {
                    if j + pattern_len == i + 1 {
                        assert(t.subrange(j, j + pattern_len) == p);
                        assert(p.subrange(0, p.len() as int) =~= p);
                        assert(partial_match(t, p, i + 1, pattern_len as int));
                        assert(!partial_match(t, p, i + 1, pattern_len as int));
                    } else {
                        assert(a0.contains(j as usize));
                    }
                }
            }
        }
        i += 1;
    }
    proof {
        assert forall|j: int|
            pattern_len >= 1 && #[trigger] is_occurrence(t, p, j) implies answer@.contains(
            j as usize,
        ) by {
            assert(j + pattern_len <= i);
        }
    }
    answer
}

} // verus!
