//! Online suffix automaton over a growing text, built one symbol at a time
//! by the classical incremental construction, whose purpose is to recognize
//! the substrings of the text appended so far.
//!
//! States live in an append-only arena and carry the length of the longest
//! string of their equivalence class, an optional suffix link (only the root
//! has none), a symbol-keyed transition list and a terminal flag.  The
//! well-formedness predicate `wf` records the structural invariants that the
//! incremental construction maintains — fixed root, acyclic suffix links,
//! length-raising transitions, the classical bound of at most `2 * n - 1`
//! states for a text of length `n >= 2`, and that the whole text labels a
//! path from the root.  The verified contracts pin that structure —
//! including the closure of transitions under suffix links — the acceptance
//! of every prefix of the text and of every single symbol of it, the
//! propagation of each appended symbol along the entire suffix chain, the
//! monotone growth of the accepted set, a length bound on accepted queries,
//! and the terminal marking; that the accepted set equals exactly the
//! substring set of the text is the construction's deep correctness
//! theorem, exercised here by the test suite rather than proved.

use vstd::prelude::*;

verus! {

/// One node of the automaton: the arena owns every state, everything else
/// refers to a state by its index.
pub(crate) struct State {
    pub(crate) length: usize,
    pub(crate) link: Option<usize>,
    pub(crate) next: Vec<(char, usize)>,
    pub(crate) is_terminal: bool,
}

/// First match wins: the value stored for key `c`, if any.
pub(crate) open spec fn pair_lookup(pairs: Seq<(char, usize)>, c: char) -> Option<usize>
    decreases pairs.len(),
{
    if pairs.len() == 0 {
        None
    } else if pairs[0].0 == c {
        Some(pairs[0].1)
    } else {
        pair_lookup(pairs.drop_first(), c)
    }
}

/// Deterministic transition-following from state `i` over the symbols of `q`:
/// the state reached, or `None` as soon as a transition is missing.
pub(crate) open spec fn run_from(states: Seq<State>, i: int, q: Seq<char>) -> Option<int>
    decreases q.len(),
{
    if q.len() == 0 {
        Some(i)
    } else {
        match pair_lookup(states[i].next@, q[0]) {
            Some(t) => run_from(states, t as int, q.drop_first()),
            None => None,
        }
    }
}

/// Transition `j` out of state `i` targets a valid state of strictly greater
/// length.
pub(crate) open spec fn edge_ok(states: Seq<State>, i: int, j: int) -> bool {
    &&& (states[i].next@[j].1 as int) < states.len()
    &&& states[i].length < states[states[i].next@[j].1 as int].length
}

pub(crate) open spec fn edges_ok(states: Seq<State>) -> bool {
    forall|i: int, j: int|
        0 <= i < states.len() && 0 <= j < states[i].next@.len() ==> #[trigger] edge_ok(
            states,
            i,
            j,
        )
}

/// A non-root state has a suffix link to a valid state of strictly smaller
/// rank; the ranks witness that the link relation is acyclic.
pub(crate) open spec fn link_ok(states: Seq<State>, order: Seq<nat>, i: int) -> bool {
    &&& 1 <= states[i].length
    &&& states[i].link is Some
    &&& (states[i].link->0 as int) < states.len()
    &&& order[states[i].link->0 as int] < order[i]
}

pub(crate) open spec fn links_ok(states: Seq<State>, order: Seq<nat>) -> bool {
    &&& order.len() == states.len()
    &&& states[0].link is None
    &&& states[0].length == 0
    &&& forall|i: int| 1 <= i < states.len() ==> #[trigger] link_ok(states, order, i)
}

/// Transitions are closed under suffix links: whenever a non-root state can
/// read a symbol, so can its suffix link — the propagation step of the
/// construction establishes this and every later step keeps it.
pub(crate) open spec fn links_closed(states: Seq<State>) -> bool {
    forall|i: int, c: char|
        1 <= i < states.len() && (#[trigger] pair_lookup(states[i].next@, c)) is Some
            ==> pair_lookup(states[(states[i].link->0) as int].next@, c) is Some
}

/// Termination measure for a walk that follows suffix links.
pub(crate) open spec fn walk_rank(order: Seq<nat>, p: Option<usize>) -> nat {
    match p {
        Some(i) => order[i as int] + 1,
        None => 0,
    }
}

/// The state reached from `i` by following `k` suffix links, or `None` if
/// the chain runs out first.
pub(crate) open spec fn link_iter(states: Seq<State>, i: int, k: nat) -> Option<int>
    decreases k,
{
    if k == 0 {
        Some(i)
    } else {
        match states[i].link {
            Some(l) => link_iter(states, l as int, (k - 1) as nat),
            None => None,
        }
    }
}

/// `i` lies on the suffix-link chain that starts at `start`.
pub(crate) open spec fn on_link_chain(states: Seq<State>, start: int, i: int) -> bool {
    exists|k: nat| #[trigger] link_iter(states, start, k) == Some(i)
}

/// Link-following reads only the suffix links, so two arenas with the same
/// links agree on it.
proof fn lemma_link_iter_same_links(s1: Seq<State>, s2: Seq<State>, i: int, k: nat)
    requires
        s1.len() <= s2.len(),
        forall|x: int| 0 <= x < s1.len() ==> (#[trigger] s2[x]).link == s1[x].link,
        forall|x: int|
            0 <= x < s1.len() ==> ((#[trigger] s1[x]).link matches Some(l) ==> (l as int)
                < s1.len()),
        0 <= i < s1.len(),
    ensures
        link_iter(s1, i, k) == link_iter(s2, i, k),
    decreases k,
{
    if k > 0 {
        match s1[i].link {
            Some(l) => {
                lemma_link_iter_same_links(s1, s2, l as int, (k - 1) as nat);
            },
            None => {},
        }
    }
}

/// The link closure travels down a whole chain: when the chain's head can
/// read a symbol, so can every state the chain reaches.
proof fn lemma_chain_has_edge(
    states: Seq<State>,
    order: Seq<nat>,
    p: int,
    i: int,
    c: char,
    k: nat,
)
    requires
        links_ok(states, order),
        links_closed(states),
        0 <= p < states.len(),
        link_iter(states, p, k) == Some(i),
        pair_lookup(states[p].next@, c) is Some,
    ensures
        0 <= i < states.len(),
        pair_lookup(states[i].next@, c) is Some,
    decreases k,
{
    if k > 0 {
        match states[p].link {
            Some(l) => {
                assert(link_ok(states, order, p));
                lemma_chain_has_edge(states, order, l as int, i, c, (k - 1) as nat);
            },
            None => {},
        }
    }
}

/// Every suffix-link chain ends at the root.
proof fn lemma_chain_reaches_root(states: Seq<State>, order: Seq<nat>, x: int)
    requires
        links_ok(states, order),
        0 <= x < states.len(),
    ensures
        on_link_chain(states, x, 0),
    decreases order[x],
{
    if x == 0 {
        assert(link_iter(states, 0, 0nat) == Some(0int));
    } else {
        assert(link_ok(states, order, x));
        let l = (states[x].link->0) as int;
        lemma_chain_reaches_root(states, order, l);
        let k = choose|k: nat| #[trigger] link_iter(states, l, k) == Some(0int);
        assert(link_iter(states, x, (k + 1) as nat) == Some(0int));
    }
}

/// Following `k1 + k2` links splits into `k1` links and then `k2` more.
proof fn lemma_link_iter_split(states: Seq<State>, start: int, k1: nat, k2: nat)
    ensures
        link_iter(states, start, (k1 + k2) as nat) == (match link_iter(states, start, k1) {
            Some(p) => link_iter(states, p, k2),
            None => None::<int>,
        }),
    decreases k1,
{
    if k1 > 0 {
        match states[start].link {
            Some(l) => {
                lemma_link_iter_split(states, l as int, (k1 - 1) as nat, k2);
            },
            None => {},
        }
    }
}

/// The state reached from the root on prefix `text[..k]` exists and its
/// class length is exactly `k`: the whole-text path consists of "solid"
/// transitions that raise the length by exactly one.
pub(crate) open spec fn path_state_ok(states: Seq<State>, text: Seq<char>, k: int) -> bool {
    match run_from(states, 0, text.take(k)) {
        Some(s) => 0 <= s < states.len() && states[s].length == k,
        None => false,
    }
}

/// The appended text labels a path from the root to `last`, and every
/// prefix of it is accepted.
pub(crate) open spec fn path_ok(states: Seq<State>, text: Seq<char>, last: usize) -> bool {
    &&& run_from(states, 0, text) == Some(last as int)
    &&& forall|k: int| 0 <= k <= text.len() ==> #[trigger] path_state_ok(states, text, k)
}

/// Following `q` from `i` raises the class length by at least one per
/// symbol.
proof fn lemma_run_length_gain(states: Seq<State>, i: int, q: Seq<char>)
    requires
        edges_ok(states),
        0 <= i < states.len(),
        run_from(states, i, q) is Some,
    ensures
        0 <= run_from(states, i, q)->0 < states.len(),
        states[run_from(states, i, q)->0].length >= states[i].length + q.len(),
    decreases q.len(),
{
    if q.len() > 0 {
        match pair_lookup(states[i].next@, q[0]) {
            Some(t) => {
                lemma_pair_lookup_mem(states[i].next@, q[0]);
                let j = choose|j: int|
                    0 <= j < states[i].next@.len() && (#[trigger] states[i].next@[j]).0 == q[0]
                        && states[i].next@[j].1 == pair_lookup(states[i].next@, q[0])->0;
                assert(edge_ok(states, i, j));
                lemma_run_length_gain(states, t as int, q.drop_first());
            },
            None => {},
        }
    }
}

/// A transition is "solid" when it raises the class length by exactly one;
/// this predicate says every solid transition of the first arena is still
/// looked up unchanged in the second.
pub(crate) open spec fn solid_lookups_preserved(s_old: Seq<State>, s_new: Seq<State>) -> bool {
    forall|w: int, c: char|
        0 <= w < s_old.len() && (#[trigger] pair_lookup(s_old[w].next@, c)) is Some
            && s_old[pair_lookup(s_old[w].next@, c)->0 as int].length == s_old[w].length + 1
            ==> pair_lookup(s_new[w].next@, c) == pair_lookup(s_old[w].next@, c)
}

/// A run whose total length gain is exactly its number of symbols uses only
/// solid transitions, so it survives any rewrite that keeps solid
/// transitions: transitions are only added, and only non-solid ones are ever
/// redirected.
proof fn lemma_run_preserved(
    s_old: Seq<State>,
    s_new: Seq<State>,
    i: int,
    q: Seq<char>,
    tgt: int,
)
    requires
        edges_ok(s_old),
        s_new.len() >= s_old.len(),
        forall|w: int| 0 <= w < s_old.len() ==> (#[trigger] s_new[w]).length == s_old[w].length,
        solid_lookups_preserved(s_old, s_new),
        run_from(s_old, i, q) == Some(tgt),
        0 <= i < s_old.len(),
        0 <= tgt < s_old.len(),
        s_old[tgt].length == s_old[i].length + q.len(),
    ensures
        run_from(s_new, i, q) == Some(tgt),
    decreases q.len(),
{
    if q.len() > 0 {
        match pair_lookup(s_old[i].next@, q[0]) {
            Some(t) => {
                lemma_pair_lookup_mem(s_old[i].next@, q[0]);
                let j = choose|j: int|
                    0 <= j < s_old[i].next@.len() && (#[trigger] s_old[i].next@[j]).0 == q[0]
                        && s_old[i].next@[j].1 == pair_lookup(s_old[i].next@, q[0])->0;
                assert(edge_ok(s_old, i, j));
                lemma_run_length_gain(s_old, t as int, q.drop_first());
                assert(s_old[t as int].length == s_old[i].length + 1);
                lemma_run_preserved(s_old, s_new, t as int, q.drop_first(), tgt);
            },
            None => {},
        }
    }
}

/// Acceptance only grows: every lookup of the old arena is either kept or
/// redirected to a clone whose outgoing transitions cover those of the
/// split state, so any path that existed still exists, possibly through
/// the clone.
proof fn lemma_run_monotone(
    s_old: Seq<State>,
    s_new: Seq<State>,
    t0: usize,
    qc: usize,
    i: int,
    i2: int,
    q: Seq<char>,
)
    requires
        targets_ok(s_old),
        s_new.len() >= s_old.len(),
        (t0 as int) < s_old.len(),
        (qc as int) < s_new.len(),
        forall|w: int, c: char|
            0 <= w < s_old.len() && (#[trigger] pair_lookup(s_old[w].next@, c)) is Some
                ==> pair_lookup(s_new[w].next@, c) == pair_lookup(s_old[w].next@, c) || (
            pair_lookup(s_old[w].next@, c) == Some(t0) && pair_lookup(s_new[w].next@, c) == Some(
                qc,
            )),
        forall|c: char|
            (#[trigger] pair_lookup(s_old[t0 as int].next@, c)) is Some ==> pair_lookup(
                s_new[qc as int].next@,
                c,
            ) == pair_lookup(s_old[t0 as int].next@, c),
        i2 == i || (i == t0 as int && i2 == qc as int),
        0 <= i < s_old.len(),
        run_from(s_old, i, q) is Some,
    ensures
        run_from(s_new, i2, q) is Some,
    decreases q.len(),
{
    if q.len() > 0 {
        let u = pair_lookup(s_old[i].next@, q[0])->0;
        lemma_pair_lookup_mem(s_old[i].next@, q[0]);
        if i2 == i {
            if pair_lookup(s_new[i].next@, q[0]) == pair_lookup(s_old[i].next@, q[0]) {
                lemma_run_monotone(s_old, s_new, t0, qc, u as int, u as int, q.drop_first());
            } else {
                assert(u == t0);
                lemma_run_monotone(
                    s_old,
                    s_new,
                    t0,
                    qc,
                    t0 as int,
                    qc as int,
                    q.drop_first(),
                );
            }
        } else {
            assert(pair_lookup(s_new[i2].next@, q[0]) == Some(u));
            lemma_run_monotone(s_old, s_new, t0, qc, u as int, u as int, q.drop_first());
        }
    }
}

/// Largest rank in use; fresh states get a strictly larger one.
pub(crate) open spec fn max_rank(order: Seq<nat>) -> nat
    decreases order.len(),
{
    if order.len() == 0 {
        0
    } else {
        let m = max_rank(order.drop_last());
        if order.last() > m {
            order.last()
        } else {
            m
        }
    }
}

proof fn lemma_max_rank(order: Seq<nat>, i: int)
    requires
        0 <= i < order.len(),
    ensures
        order[i] <= max_rank(order),
    decreases order.len(),
{
    if i < order.len() - 1 {
        lemma_max_rank(order.drop_last(), i);
    }
}

pub(crate) proof fn lemma_pair_lookup_skip(pairs: Seq<(char, usize)>, c: char, k: int)
    requires
        0 <= k <= pairs.len(),
        forall|j: int| 0 <= j < k ==> (#[trigger] pairs[j]).0 != c,
    ensures
        pair_lookup(pairs, c) == pair_lookup(pairs.skip(k), c),
    decreases k,
{
    if k > 0 {
        assert(pairs.drop_first().skip(k - 1) =~= pairs.skip(k));
        lemma_pair_lookup_skip(pairs.drop_first(), c, k - 1);
    } else {
        assert(pairs.skip(0) =~= pairs);
    }
}

/// Appending an entry leaves every present key at its old value and gives an
/// absent key the new value.
pub(crate) proof fn lemma_pair_lookup_push(pairs: Seq<(char, usize)>, c: char, v: usize, d: char)
    ensures
        pair_lookup(pairs.push((c, v)), d) == if pair_lookup(pairs, d) is Some {
            pair_lookup(pairs, d)
        } else if d == c {
            Some(v)
        } else {
            None::<usize>
        },
    decreases pairs.len(),
{
    if pairs.len() == 0 {
        assert(pairs.push((c, v)).drop_first() =~= Seq::<(char, usize)>::empty());
    } else {
        assert(pairs.push((c, v)).drop_first() =~= pairs.drop_first().push((c, v)));
        lemma_pair_lookup_push(pairs.drop_first(), c, v, d);
    }
}

/// A successful lookup comes from some entry of the list.
pub(crate) proof fn lemma_pair_lookup_mem(pairs: Seq<(char, usize)>, c: char)
    requires
        pair_lookup(pairs, c) is Some,
    ensures
        exists|j: int|
            0 <= j < pairs.len() && (#[trigger] pairs[j]).0 == c && pairs[j].1 == pair_lookup(
                pairs,
                c,
            )->0,
    decreases pairs.len(),
{
    if pairs.len() > 0 && pairs[0].0 != c {
        lemma_pair_lookup_mem(pairs.drop_first(), c);
        let j0 = choose|j: int|
            0 <= j < pairs.drop_first().len() && (#[trigger] pairs.drop_first()[j]).0 == c
                && pairs.drop_first()[j].1 == pair_lookup(pairs.drop_first(), c)->0;
        assert(pairs[j0 + 1] == pairs.drop_first()[j0]);
    }
}

/// Updating the first entry that holds key `c` changes that key's value and
/// nothing else.
proof fn lemma_pair_lookup_update(pairs: Seq<(char, usize)>, j: int, c: char, v: usize, d: char)
    requires
        0 <= j < pairs.len(),
        pairs[j].0 == c,
        forall|k: int| 0 <= k < j ==> (#[trigger] pairs[k]).0 != c,
    ensures
        pair_lookup(pairs.update(j, (c, v)), c) == Some(v),
        d != c ==> pair_lookup(pairs.update(j, (c, v)), d) == pair_lookup(pairs, d),
    decreases j,
{
    if j == 0 {
        assert(pairs.update(0, (c, v))[0] == (c, v));
        if d != c {
            assert(pairs.update(0, (c, v)).drop_first() =~= pairs.drop_first());
        }
    } else {
        assert(pairs.update(j, (c, v))[0] == pairs[0]);
        assert(pairs.update(j, (c, v)).drop_first() =~= pairs.drop_first().update(j - 1, (c, v)));
        lemma_pair_lookup_update(pairs.drop_first(), j - 1, c, v, d);
    }
}

/// Running over a concatenation runs over the pieces in order.
proof fn lemma_run_append(states: Seq<State>, i: int, q1: Seq<char>, q2: Seq<char>)
    ensures
        run_from(states, i, q1 + q2) == (match run_from(states, i, q1) {
            Some(s) => run_from(states, s, q2),
            None => None::<int>,
        }),
    decreases q1.len(),
{
    if q1.len() == 0 {
        assert(q1 + q2 =~= q2);
    } else {
        assert((q1 + q2)[0] == q1[0]);
        assert((q1 + q2).drop_first() =~= q1.drop_first() + q2);
        match pair_lookup(states[i].next@, q1[0]) {
            Some(t) => {
                lemma_run_append(states, t as int, q1.drop_first(), q2);
            },
            None => {},
        }
    }
}

/// Associative-list lookup, the executable side of `pair_lookup`.
pub(crate) fn lookup(pairs: &Vec<(char, usize)>, c: char) -> (r: Option<usize>)
    ensures
        r == pair_lookup(pairs@, c),
{
    let mut k: usize = 0;
    while k < pairs.len()
        invariant
            0 <= k <= pairs@.len(),
            forall|j: int| 0 <= j < k ==> (#[trigger] pairs@[j]).0 != c,
        decreases pairs@.len() - k,
    {
        if pairs[k].0 == c {
            proof {
                lemma_pair_lookup_skip(pairs@, c, k as int);
                assert(pairs@.skip(k as int)[0] == pairs@[k as int]);
            }
            return Some(pairs[k].1);
        }
        k += 1;
    }
    proof {
        lemma_pair_lookup_skip(pairs@, c, pairs@.len() as int);
    }
    None
}

/// A fresh copy of a transition list, used when a clone state takes over the
/// transitions of the state it splits.
fn copy_pairs(src: &Vec<(char, usize)>) -> (r: Vec<(char, usize)>)
    ensures
        r@ == src@,
{
    let mut r: Vec<(char, usize)> = Vec::new();
    let mut k: usize = 0;
    while k < src.len()
        invariant
            0 <= k <= src@.len(),
            r@ =~= src@.take(k as int),
        decreases src@.len() - k,
    {
        r.push(src[k]);
        proof {
            assert(r@ =~= src@.take(k + 1 as int));
        }
        k += 1;
    }
    proof {
        assert(r@ =~= src@);
    }
    r
}

/// Redirect the entry for key `c` to the value `v`.
fn pairs_set(pairs: &mut Vec<(char, usize)>, c: char, v: usize)
    requires
        pair_lookup(old(pairs)@, c) is Some,
    ensures
        final(pairs)@.len() == old(pairs)@.len(),
        pair_lookup(final(pairs)@, c) == Some(v),
        forall|d: char| d != c ==> pair_lookup(final(pairs)@, d) == pair_lookup(old(pairs)@, d),
        forall|k: int|
            0 <= k < old(pairs)@.len() ==> (#[trigger] final(pairs)@[k]) == old(pairs)@[k]
                || final(pairs)@[k] == (c, v),
{
    let n = pairs.len();
    let mut k: usize = 0;
    while k < n
        invariant
            n == pairs@.len(),
            0 <= k <= n,
            pairs@ == old(pairs)@,
            pair_lookup(pairs@, c) is Some,
            forall|j: int| 0 <= j < k ==> (#[trigger] pairs@[j]).0 != c,
        decreases n - k,
    {
        if pairs[k].0 == c {
            proof {
                lemma_pair_lookup_update(pairs@, k as int, c, v, c);
                assert forall|d: char| d != c implies pair_lookup(
                    pairs@.update(k as int, (c, v)),
                    d,
                ) == pair_lookup(pairs@, d) by {
                    lemma_pair_lookup_update(pairs@, k as int, c, v, d);
                }
            }
            pairs[k] = (c, v);
            return ;
        }
        k += 1;
    }
    proof {
        lemma_pair_lookup_skip(pairs@, c, pairs@.len() as int);
        assert(false);
    }
}

/// The suffix automaton of the text appended so far.  `last` is the state
/// created for the most recent symbol; `text` and `order` are ghost: the
/// appended text and an acyclicity witness for the suffix links.
pub struct SuffixAutomaton {
    states: Vec<State>,
    last: usize,
    text: Ghost<Seq<char>>,
    order: Ghost<Seq<nat>>,
}

impl SuffixAutomaton {
    /// Arena allocation: append one fresh state with the given class length
    /// and suffix link, no transitions and no terminal mark.  Identities are
    /// assigned in creation order, existing states are untouched, and no
    /// state is ever removed, so identities stay stable for the arena's
    /// lifetime.
    fn new_state(&mut self, length: usize, link: Option<usize>) -> (idx: usize)
        ensures
            idx as int == old(self).states@.len(),
            final(self).states@.len() == old(self).states@.len() + 1,
            forall|i: int|
                0 <= i < old(self).states@.len() ==> #[trigger] final(self).states@[i] == old(
                    self,
                ).states@[i],
            final(self).states@[idx as int].length == length,
            final(self).states@[idx as int].link == link,
            final(self).states@[idx as int].next@.len() == 0,
            !final(self).states@[idx as int].is_terminal,
            final(self).last == old(self).last,
            final(self).text == old(self).text,
            final(self).order == old(self).order,
    {
        self.states.push(State { length, link, next: Vec::new(), is_terminal: false });
        self.states.len() - 1
    }

    /// The text whose substrings the automaton recognizes.
    pub closed spec fn text(self) -> Seq<char> {
        self.text@
    }

    /// How many states the arena holds.
    pub closed spec fn num_states(self) -> nat {
        self.states@.len()
    }

    /// `q` labels a path of transitions that starts at the root.
    pub closed spec fn accepts(self, q: Seq<char>) -> bool {
        run_from(self.states@, 0, q) is Some
    }

    /// The transition out of state `i` on symbol `c`, if any.
    pub closed spec fn transition_of(self, i: int, c: char) -> Option<usize> {
        pair_lookup(self.states@[i].next@, c)
    }

    /// The identity of the state created for the most recent symbol.
    pub closed spec fn last_index(self) -> int {
        self.last as int
    }

    /// The class length stored at state `i`.
    pub closed spec fn length_of(self, i: int) -> int {
        self.states@[i].length as int
    }

    /// Whether state `i` is marked terminal.
    pub closed spec fn terminal_at(self, i: int) -> bool {
        self.states@[i].is_terminal
    }

    /// Whether state `i` lies on the suffix-link chain that starts at the
    /// state of the whole text.
    pub closed spec fn on_suffix_chain(self, i: int) -> bool {
        on_link_chain(self.states@, self.last as int, i)
    }

    /// Structural invariants, established by `new` and preserved by every
    /// operation: the root is the fixed state `0` with length `0` and no
    /// link; suffix links are acyclic; transitions target states of strictly
    /// greater length; lengths never exceed the text length; `last` is the
    /// state of the whole text and has no outgoing transitions yet; and the
    /// arena holds between `n + 1` and `2 * n - 1` states for text length
    /// `n >= 2`.
    pub closed spec fn wf(self) -> bool {
        let s = self.states@;
        let o = self.order@;
        let n = self.text@.len();
        &&& s.len() >= 1
        &&& links_ok(s, o)
        &&& links_closed(s)
        &&& edges_ok(s)
        &&& forall|i: int| 0 <= i < s.len() ==> (#[trigger] s[i].length) <= n
        &&& (self.last as int) < s.len()
        &&& s[self.last as int].length == n
        &&& (self.last == 0 ==> n == 0)
        &&& (self.last != 0 ==> s[self.last as int].next@.len() == 0)
        &&& s.len() >= n + 1
        &&& (n == 0 ==> s.len() == 1)
        &&& (n == 1 ==> s.len() == 2)
        &&& (n >= 2 ==> s.len() <= 2 * n - 1)
        &&& path_ok(s, self.text@, self.last)
    }

    /// An automaton with exactly the root state; it accepts only the empty
    /// string.
    pub fn new() -> (r: Self)
        ensures
            r.wf(),
            r.text() == Seq::<char>::empty(),
            r.num_states() == 1,
            r.last_index() == 0,
            r.length_of(0) == 0,
            !r.terminal_at(0),
            forall|c: char| #[trigger] r.transition_of(0, c) is None,
            forall|q: Seq<char>| #[trigger] r.accepts(q) == (q.len() == 0),
    {
        let ghost o: Seq<nat> = seq![0nat];
        let mut r = SuffixAutomaton {
            states: Vec::new(),
            last: 0,
            text: Ghost(Seq::empty()),
            order: Ghost(o),
        };
        let root = r.new_state(0, None);
        r.last = root;
        proof {
            assert forall|q: Seq<char>| #[trigger] r.accepts(q) == (q.len() == 0) by {
                if q.len() > 0 {
                    assert(pair_lookup(r.states@[0].next@, q[0]) is None);
                }
            }
            assert(r.text@.take(0) =~= Seq::<char>::empty());
            assert(r.text@ =~= Seq::<char>::empty());
            assert forall|k: int| 0 <= k <= r.text@.len() implies #[trigger] path_state_ok(
                r.states@,
                r.text@,
                k,
            ) by {
                assert(run_from(r.states@, 0, r.text@.take(k)) == Some(0int));
            }
        }
        r
    }

    /// Discard every state and start over from a single root, exactly as a
    /// freshly constructed automaton.
    pub fn clear(&mut self)
        ensures
            final(self).wf(),
            final(self).text() == Seq::<char>::empty(),
            final(self).num_states() == 1,
            final(self).last_index() == 0,
            final(self).length_of(0) == 0,
            !final(self).terminal_at(0),
            forall|c: char| #[trigger] final(self).transition_of(0, c) is None,
            forall|q: Seq<char>| #[trigger] final(self).accepts(q) == (q.len() == 0),
    {
        self.states.clear();
        let root = self.new_state(0, None);
        self.last = root;
        let ghost o: Seq<nat> = seq![0nat];
        self.text = Ghost(Seq::empty());
        self.order = Ghost(o);
        proof {
            assert forall|q: Seq<char>| #[trigger] self.accepts(q) == (q.len() == 0) by {
                if q.len() > 0 {
                    assert(pair_lookup(self.states@[0].next@, q[0]) is None);
                }
            }
            assert(self.text@.take(0) =~= Seq::<char>::empty());
            assert(self.text@ =~= Seq::<char>::empty());
            assert forall|k: int| 0 <= k <= self.text@.len() implies #[trigger] path_state_ok(
                self.states@,
                self.text@,
                k,
            ) by {
                assert(run_from(self.states@, 0, self.text@.take(k)) == Some(0int));
            }
        }
    }

    /// Substring query: follow one transition per symbol from the root;
    /// report `false` as soon as a transition is missing, `true` once every
    /// symbol is consumed.  The empty query is always contained.
    pub fn contains(&self, string: &str) -> (r: bool)
        requires
            self.wf(),
        ensures
            r == self.accepts(string@),
            string@.len() == 0 ==> r,
    {
        let n = string.unicode_len();
        let mut cur: usize = 0;
        let mut i: usize = 0;
        while i < n
            invariant
                self.wf(),
                n == string@.len(),
                0 <= i <= n,
                (cur as int) < self.states@.len(),
                run_from(self.states@, 0, string@.take(i as int)) == Some(cur as int),
            decreases n - i,
        {
            let c = string.get_char(i);
            let r = lookup(&self.states[cur].next, c);
            let ghost q1: Seq<char> = seq![string@[i as int]];
            proof {
                assert(q1.len() == 1 && q1[0] == string@[i as int]);
                assert(q1.drop_first() =~= Seq::<char>::empty());
                assert(string@.take(i + 1 as int) =~= string@.take(i as int) + q1);
                lemma_run_append(self.states@, 0, string@.take(i as int), q1);
            }
            match r {
                None => {
                    proof {
                        assert(run_from(self.states@, cur as int, q1) is None);
                        assert(run_from(self.states@, 0, string@.take(i + 1 as int)) is None);
                        assert(string@ =~= string@.take(i + 1 as int) + string@.skip(i + 1 as int));
                        lemma_run_append(
                            self.states@,
                            0,
                            string@.take(i + 1 as int),
                            string@.skip(i + 1 as int),
                        );
                    }
                    return false;
                },
                Some(t) => {
                    proof {
                        lemma_pair_lookup_mem(self.states@[cur as int].next@, c);
                        let j = choose|j: int|
                            0 <= j < self.states@[cur as int].next@.len() && (#[trigger] self.states@[cur as int].next@[j]).0
                                == c && self.states@[cur as int].next@[j].1 == pair_lookup(
                                self.states@[cur as int].next@,
                                c,
                            )->0;
                        assert(edge_ok(self.states@, cur as int, j));
                        assert(run_from(self.states@, t as int, q1.drop_first()) == Some(t as int));
                        assert(run_from(self.states@, cur as int, q1) == Some(t as int));
                    }
                    cur = t;
                },
            }
            i += 1;
        }
        proof {
            assert(string@.take(n as int) =~= string@);
        }
        true
    }

    /// Append one symbol to the represented text.  A fresh state for the new
    /// whole-text class is allocated at the next identity and becomes `last`,
    /// the new symbol is propagated along the suffix-link chain of the old
    /// `last`, and when an existing class has to be split, a clone state
    /// takes over its transitions and link.  Exactly one or two states are
    /// allocated per call (one while the text is shorter than two symbols,
    /// which yields the `2 * n - 1` state bound), existing states keep their
    /// identities and class lengths, and no transition is ever removed.
    #[verifier::loop_isolation(false)]
    #[verifier::spinoff_prover]
    #[verifier::rlimit(100)]
    pub fn add_char(&mut self, sym: char)
        requires
            old(self).wf(),
        ensures
            final(self).wf(),
            final(self).text() == old(self).text().push(sym),
            final(self).num_states() == old(self).num_states() + 1 || final(self).num_states()
                == old(self).num_states() + 2,
            old(self).text().len() < 2 ==> final(self).num_states() == old(self).num_states()
                + 1,
            final(self).last_index() == old(self).num_states(),
            final(self).length_of(final(self).last_index()) == old(self).length_of(
                old(self).last_index(),
            ) + 1,
            forall|i: int|
                0 <= i < old(self).num_states() ==> final(self).length_of(i) == old(
                    self,
                ).length_of(i),
            forall|i: int, c: char|
                0 <= i < old(self).num_states() && (#[trigger] old(self).transition_of(
                    i,
                    c,
                )) is Some ==> final(self).transition_of(i, c) is Some,
            forall|i: int|
                0 <= i < old(self).num_states() ==> #[trigger] final(self).terminal_at(i) == old(
                    self,
                ).terminal_at(i),
            forall|i: int|
                old(self).num_states() <= i < final(self).num_states()
                    ==> !#[trigger] final(self).terminal_at(i),
            forall|i: int|
                0 <= i < old(self).num_states() && old(self).on_suffix_chain(i)
                    ==> (#[trigger] final(self).transition_of(i, sym)) is Some,
            final(self).accepts(seq![sym]),
            forall|qs: Seq<char>|
                old(self).accepts(qs) ==> #[trigger] final(self).accepts(qs),
    {
        let ghost n = self.text@.len();
        let ghost s_old = self.states@;
        let ghost o_old = self.order@;
        proof {
            assert forall|a: int, j: int|
                0 <= a < s_old.len() && 0 <= j < s_old[a].next@.len() implies ((
            #[trigger] s_old[a].next@[j]).1 as int) < s_old.len() by {
                assert(edge_ok(s_old, a, j));
            }
            assert(targets_ok(s_old));
        }

        let last = self.last;
        let count = self.states.len();
        proof {
            // the arena always outnumbers the text, so the new length fits
            assert(n + 1 <= count);
        }
        let new_len = self.states[last].length + 1;
        let cur = self.new_state(new_len, Some(0));
        let ghost rfresh = max_rank(o_old) + 1;
        let ghost o1 = o_old.push(rfresh);
        self.order = Ghost(o1);
        let ghost s1 = self.states@;
        proof {
            assert(s1 =~= s_old.push(s1[cur as int]));
        }
        proof {
            assert forall|i: int| 1 <= i < s1.len() implies link_ok(s1, o1, i) by {
                if i < cur {
                    assert(link_ok(s_old, o_old, i));
                } else {
                    lemma_max_rank(o_old, 0);
                }
            }
            assert forall|i: int, j: int|
                0 <= i < s1.len() && 0 <= j < s1[i].next@.len() implies #[trigger] edge_ok(
                s1,
                i,
                j,
            ) by {
                if i < cur {
                    assert(edge_ok(s_old, i, j));
                }
            }
            assert(links_ok(s1, o1));
            assert(edges_ok(s1));
            assert forall|i: int, c: char|
                1 <= i < s1.len() && (#[trigger] pair_lookup(s1[i].next@, c)) is Some implies
                pair_lookup(s1[(s1[i].link->0) as int].next@, c) is Some by {
                if i < cur {
                    assert(pair_lookup(s_old[i].next@, c) is Some);
                    assert(pair_lookup(s_old[(s_old[i].link->0) as int].next@, c) is Some);
                    assert(link_ok(s_old, o_old, i));
                    assert(s1[(s_old[i].link->0) as int].next@ == s_old[(s_old[i].link->0) as int].next@);
                } else {
                    assert(s1[i].next@.len() == 0);
                }
            }
        }

        proof {
            if last == 0 && s_old[0].next@.len() > 0 {
                assert(edge_ok(s_old, 0, 0));
                assert(false);
            }
            assert(s1[last as int].next@.len() == 0);
        }

        // Propagate the new symbol: give every link-chain state that lacks a
        // transition on `sym` one to the fresh state.
        let mut prev_opt: Option<usize> = Some(last);
        let mut walking = true;
        while walking
            invariant
                self.order@ == o1,
                self.text@ == old(self).text@,
                self.last == last,
                self.states@.len() == s1.len(),
                forall|i: int|
                    0 <= i < s1.len() ==> (#[trigger] self.states@[i]).length == s1[i].length
                        && self.states@[i].link == s1[i].link && self.states@[i].is_terminal
                        == s1[i].is_terminal,
                links_ok(self.states@, o1),
                edges_ok(self.states@),
                forall|i: int|
                    0 <= i < s1.len() ==> (#[trigger] self.states@[i]).next@ == s1[i].next@ || (
                    self.states@[i].next@ == s1[i].next@.push((sym, cur)) && pair_lookup(
                        s1[i].next@,
                        sym,
                    ) is None),
                self.states@[cur as int].next@.len() == 0,
                prev_opt matches Some(p) ==> (p as int) < cur,
                prev_opt matches Some(p) ==> forall|i: int|
                    0 <= i < s1.len() && (#[trigger] self.states@[i]).next@ != s1[i].next@
                        ==> o1[i] > o1[p as int],
                !walking ==> match prev_opt {
                    Some(p) => pair_lookup(self.states@[p as int].next@, sym) is Some
                        && self.states@[p as int].next@ == s1[p as int].next@,
                    None => true,
                },
                self.states@[last as int].next@ == s1[last as int].next@.push((sym, cur)) || (
                prev_opt == Some(last) && self.states@ == s1),
                forall|i: int, c: char|
                    1 <= i < s1.len() && (#[trigger] pair_lookup(
                        self.states@[i].next@,
                        c,
                    )) is Some ==> pair_lookup(
                        self.states@[(self.states@[i].link->0) as int].next@,
                        c,
                    ) is Some || (c == sym && self.states@[i].link == prev_opt),
            decreases walk_rank(o1, prev_opt), (if walking { 1int } else { 0int }),
        {
            match prev_opt {
                None => {
                    walking = false;
                },
                Some(p) => {
                    let r = lookup(&self.states[p].next, sym);
                    if r.is_some() {
                        proof {
                            if self.states@[p as int].next@ != s1[p as int].next@ {
                                assert(o1[p as int] > o1[p as int]);
                            }
                        }
                        walking = false;
                    } else {
                        let ghost sprev = self.states@;
                        self.states[p].next.push((sym, cur));
                        proof {
                            assert forall|i: int| 1 <= i < s1.len() implies link_ok(
                                self.states@,
                                o1,
                                i,
                            ) by {
                                assert(link_ok(sprev, o1, i));
                            }
                            assert forall|i: int, j: int|
                                0 <= i < s1.len() && 0 <= j
                                    < self.states@[i].next@.len() implies #[trigger] edge_ok(
                                self.states@,
                                i,
                                j,
                            ) by {
                                if i != p || j < sprev[i].next@.len() {
                                    assert(edge_ok(sprev, i, j));
                                } else {
                                    assert(self.states@[i].next@[j] == (sym, cur));
                                    assert(self.states@[cur as int].length == n + 1);
                                    assert(s_old[i].length <= n);
                                }
                            }
                            assert(self.states@[p as int].next@ == s1[p as int].next@.push(
                                (sym, cur),
                            ));
                            if p != 0 {
                                assert(link_ok(s_old, o_old, p as int));
                            }
                            if p != last && sprev[last as int].next@ != s1[last as int].next@ {
                                assert(self.states@[last as int].next@
                                    == s1[last as int].next@.push((sym, cur)));
                            }
                            // the new transition keeps the link closure: its
                            // own link is the next chain stop, and any state
                            // that was waiting on this one is now closed
                            assert forall|i: int, c: char|
                                1 <= i < s1.len() && (#[trigger] pair_lookup(
                                    self.states@[i].next@,
                                    c,
                                )) is Some implies pair_lookup(
                                self.states@[(self.states@[i].link->0) as int].next@,
                                c,
                            ) is Some || (c == sym && self.states@[i].link
                                == sprev[p as int].link) by {
                                lemma_pair_lookup_push(sprev[p as int].next@, sym, cur, c);
                                lemma_pair_lookup_push(sprev[p as int].next@, sym, cur, sym);
                                assert(link_ok(sprev, o1, i));
                                let lt = (self.states@[i].link->0) as int;
                                if i == p as int && pair_lookup(sprev[i].next@, c) is None {
                                    assert(c == sym);
                                } else {
                                    assert(pair_lookup(sprev[i].next@, c) is Some);
                                    if c == sym && sprev[i].link == Some(p) {
                                        assert(pair_lookup(
                                            self.states@[p as int].next@,
                                            sym,
                                        ) is Some);
                                    } else {
                                        assert(pair_lookup(sprev[lt].next@, c) is Some);
                                        assert(pair_lookup(self.states@[lt].next@, c) is Some);
                                    }
                                }
                            }
                        }
                        prev_opt = self.states[p].link;
                    }
                },
            }
        }

        proof {
            // with the walk finished, every state is closed again: the last
            // inserted transition's link is the stop state, which can read
            // the symbol
            assert forall|i: int, c: char|
                1 <= i < s1.len() && (#[trigger] pair_lookup(
                    self.states@[i].next@,
                    c,
                )) is Some implies pair_lookup(
                self.states@[(self.states@[i].link->0) as int].next@,
                c,
            ) is Some by {
                assert(link_ok(self.states@, o1, i));
                match prev_opt {
                    None => {},
                    Some(p) => {},
                }
            }
        }
        let ghost s_walked = self.states@;
        match prev_opt {
            None => {
                // The chain ran out: the fresh state starts a class of its
                // own, and it already links to the root.
                proof {
                    assert(self.states@[last as int].next@ == s1[last as int].next@.push(
                        (sym, cur),
                    ));
                    lemma_pair_lookup_push(s1[last as int].next@, sym, cur, sym);
                    assert(pair_lookup(self.states@[last as int].next@, sym) == Some(cur));
                    assert forall|w: int, c: char|
                        0 <= w < cur && (#[trigger] pair_lookup(s_old[w].next@, c)) is Some implies
                        pair_lookup(self.states@[w].next@, c) == pair_lookup(
                        s_old[w].next@,
                        c,
                    ) by {
                        assert(s1[w] == s_old[w]);
                        if self.states@[w].next@ != s1[w].next@ {
                            assert(self.states@[w].next@ == s1[w].next@.push((sym, cur)));
                            lemma_pair_lookup_push(s1[w].next@, sym, cur, c);
                        }
                    }
                    assert(solid_lookups_preserved(s_old, self.states@));
                    assert forall|qs: Seq<char>|
                        run_from(s_old, 0, qs) is Some implies run_from(
                        self.states@,
                        0,
                        qs,
                    ) is Some by {
                        lemma_run_monotone(s_old, self.states@, 0, 0, 0, 0, qs);
                    }
                    assert forall|w: int|
                        0 <= w < s1.len() && (#[trigger] pair_lookup(
                            s_walked[w].next@,
                            sym,
                        )) is Some implies pair_lookup(self.states@[w].next@, sym) is Some by {}
                }
            },
            Some(p) => {
                let t0 = lookup(&self.states[p].next, sym).unwrap();
                proof {
                    lemma_pair_lookup_mem(s1[p as int].next@, sym);
                    let j = choose|j: int|
                        0 <= j < s1[p as int].next@.len() && (#[trigger] s1[p as int].next@[j]).0
                            == sym && s1[p as int].next@[j].1 == pair_lookup(
                            s1[p as int].next@,
                            sym,
                        )->0;
                    assert(s1[p as int].next@ == s_old[p as int].next@);
                    assert(edge_ok(s_old, p as int, j));
                    assert((t0 as int) < cur);
                    assert(s_old[t0 as int].length > s_old[p as int].length);
                    assert(self.states@[t0 as int].length <= n);
                    if self.states@ == s1 {
                        assert(pair_lookup(s1[last as int].next@, sym) is Some);
                        assert(false);
                    }
                    assert(self.states@[last as int].next@ == s1[last as int].next@.push(
                        (sym, cur),
                    ));
                    lemma_pair_lookup_push(s1[last as int].next@, sym, cur, sym);
                    assert(pair_lookup(self.states@[last as int].next@, sym) == Some(cur));
                }
                if self.states[p].length + 1 == self.states[t0].length {
                    // The found class already has the right length: link the
                    // fresh state to it.
                    let ghost sprev = self.states@;
                    self.states[cur].link = Some(t0);
                    proof {
                        assert forall|i: int| 1 <= i < s1.len() implies link_ok(
                            self.states@,
                            o1,
                            i,
                        ) by {
                            if i != cur {
                                assert(link_ok(sprev, o1, i));
                            } else {
                                lemma_max_rank(o_old, t0 as int);
                            }
                        }
                        assert forall|i: int, j: int|
                            0 <= i < self.states@.len() && 0 <= j
                                < self.states@[i].next@.len() implies #[trigger] edge_ok(
                            self.states@,
                            i,
                            j,
                        ) by {
                            assert(edge_ok(sprev, i, j));
                        }
                        assert forall|w: int, c: char|
                            0 <= w < cur && (#[trigger] pair_lookup(
                                s_old[w].next@,
                                c,
                            )) is Some implies pair_lookup(self.states@[w].next@, c)
                            == pair_lookup(s_old[w].next@, c) by {
                            assert(s1[w] == s_old[w]);
                            assert(self.states@[w].next@ == sprev[w].next@);
                            if sprev[w].next@ != s1[w].next@ {
                                assert(sprev[w].next@ == s1[w].next@.push((sym, cur)));
                                lemma_pair_lookup_push(s1[w].next@, sym, cur, c);
                            }
                        }
                        assert(solid_lookups_preserved(s_old, self.states@));
                        assert(pair_lookup(self.states@[last as int].next@, sym) == Some(cur));
                        assert forall|i: int, c: char|
                            1 <= i < self.states@.len() && (#[trigger] pair_lookup(
                                self.states@[i].next@,
                                c,
                            )) is Some implies pair_lookup(
                            self.states@[(self.states@[i].link->0) as int].next@,
                            c,
                        ) is Some by {
                            assert(self.states@[i].next@ == sprev[i].next@);
                            if i != cur {
                                assert(self.states@[i].link == sprev[i].link);
                                assert(pair_lookup(
                                    sprev[(sprev[i].link->0) as int].next@,
                                    c,
                                ) is Some);
                                assert(link_ok(sprev, o1, i));
                            } else {
                                assert(sprev[cur as int].next@.len() == 0);
                            }
                        }
                        assert forall|qs: Seq<char>|
                            run_from(s_old, 0, qs) is Some implies run_from(
                            self.states@,
                            0,
                            qs,
                        ) is Some by {
                            lemma_run_monotone(s_old, self.states@, 0, 0, 0, 0, qs);
                        }
                        assert forall|w: int|
                            0 <= w < s1.len() && (#[trigger] pair_lookup(
                                s_walked[w].next@,
                                sym,
                            )) is Some implies pair_lookup(
                            self.states@[w].next@,
                            sym,
                        ) is Some by {}
                    }
                } else {
                    // Split the found class: a clone of length one more than
                    // the stopping state takes over its transitions and link,
                    // and the chain's transitions that still point at the old
                    // class are redirected to the clone.
                    let copied = copy_pairs(&self.states[t0].next);
                    let t_link = self.states[t0].link;
                    let clone_len = self.states[p].length + 1;
                    proof {
                        assert(t0 != 0);
                        assert(link_ok(s_old, o_old, t0 as int));
                        assert(link_ok(self.states@, o1, t0 as int));
                        assert(self.states@[t0 as int].length > clone_len);
                        assert(n >= 2);
                    }
                    let ghost lt = t_link->0 as int;
                    proof {
                        assert(0 <= lt < cur);
                    }
                    let q = self.new_state(clone_len, t_link);
                    self.states[q].next = copied;
                    let ghost o2 = Seq::new(o1.len(), |i: int| (2 * o1[i]) as nat).push(
                        (2 * o1[lt] + 1) as nat,
                    );
                    self.order = Ghost(o2);
                    let ghost s2 = self.states@;
                    proof {
                        assert(s2 =~= s_walked.push(s2[q as int]));
                    }
                    proof {
                        assert forall|i: int| 1 <= i < s2.len() implies link_ok(s2, o2, i) by {
                            if i < s1.len() {
                                assert(link_ok(s_walked, o1, i));
                            }
                        }
                        assert forall|i: int, j: int|
                            0 <= i < s2.len() && 0 <= j
                                < s2[i].next@.len() implies #[trigger] edge_ok(s2, i, j) by {
                            if i < s1.len() {
                                assert(edge_ok(s_walked, i, j));
                            } else {
                                assert(s2[i].next@ == s_walked[t0 as int].next@);
                                assert(edge_ok(s_walked, t0 as int, j));
                            }
                        }
                        assert(links_ok(s2, o2));
                        assert(edges_ok(s2));
                        assert forall|i: int, c: char|
                            1 <= i < s2.len() && (#[trigger] pair_lookup(
                                s2[i].next@,
                                c,
                            )) is Some implies pair_lookup(
                            s2[(s2[i].link->0) as int].next@,
                            c,
                        ) is Some by {
                            if i < s1.len() {
                                assert(s2[i] == s_walked[i]);
                                assert(pair_lookup(s_walked[i].next@, c) is Some);
                                assert(link_ok(s_walked, o1, i));
                                assert(pair_lookup(
                                    s_walked[(s_walked[i].link->0) as int].next@,
                                    c,
                                ) is Some);
                            } else {
                                // the clone reads what the split state reads,
                                // and shares its suffix link
                                assert(s2[i].next@ == s_walked[t0 as int].next@);
                                assert(pair_lookup(s_walked[t0 as int].next@, c) is Some);
                                assert(link_ok(s_walked, o1, t0 as int));
                                assert(pair_lookup(
                                    s_walked[(s_walked[t0 as int].link->0) as int].next@,
                                    c,
                                ) is Some);
                                assert(s2[i].link == s_walked[t0 as int].link);
                            }
                        }
                    }

                    // Redirect the chain's transitions that still point at
                    // the split class; every state on this stretch of the
                    // chain is shorter than the clone, which the explicit
                    // length test keeps locally evident.
                    let mut rp_opt: Option<usize> = Some(p);
                    let mut redirecting = true;
                    while redirecting
                        invariant
                            self.order@ == o2,
                            self.text@ == old(self).text@,
                            self.last == last,
                            self.states@.len() == s2.len(),
                            forall|i: int|
                                0 <= i < s2.len() ==> (#[trigger] self.states@[i]).length
                                    == s2[i].length && self.states@[i].link == s2[i].link
                                    && self.states@[i].is_terminal == s2[i].is_terminal,
                            links_ok(self.states@, o2),
                            edges_ok(self.states@),
                            forall|i: int, d: char|
                                0 <= i < s2.len() && d != sym ==> #[trigger] pair_lookup(
                                    self.states@[i].next@,
                                    d,
                                ) == pair_lookup(s2[i].next@, d),
                            forall|i: int|
                                0 <= i < s2.len() ==> pair_lookup(
                                    (#[trigger] self.states@[i]).next@,
                                    sym,
                                ) == pair_lookup(s2[i].next@, sym) || (pair_lookup(
                                    s2[i].next@,
                                    sym,
                                ) == Some(t0) && pair_lookup(self.states@[i].next@, sym) == Some(q)
                                    && s2[i].length < clone_len),
                            forall|i: int|
                                0 <= i < s2.len() ==> (#[trigger] self.states@[i]).next@.len()
                                    == s2[i].next@.len(),
                            self.states@[cur as int].next@ == s2[cur as int].next@,
                            self.states@[q as int].next@ == s2[q as int].next@,
                            rp_opt matches Some(w) ==> (w as int) < cur,
                            forall|i: int, c: char|
                                0 <= i < s2.len() ==> ((#[trigger] pair_lookup(
                                    self.states@[i].next@,
                                    c,
                                )) is Some <==> pair_lookup(s2[i].next@, c) is Some),
                        decreases walk_rank(o2, rp_opt), (if redirecting { 1int } else { 0int }),
                    {
                        match rp_opt {
                            None => {
                                redirecting = false;
                            },
                            Some(w) => {
                                let r3 = lookup(&self.states[w].next, sym);
                                let wlen = self.states[w].length;
                                let redirect = match r3 {
                                    Some(tgt) => tgt == t0 && wlen < clone_len,
                                    None => false,
                                };
                                if !redirect {
                                    redirecting = false;
                                } else {
                                    let ghost sprev = self.states@;
                                    pairs_set(&mut self.states[w].next, sym, q);
                                    proof {
                                        assert forall|i: int| 1 <= i < s2.len() implies link_ok(
                                            self.states@,
                                            o2,
                                            i,
                                        ) by {
                                            assert(link_ok(sprev, o2, i));
                                        }
                                        assert forall|i: int, j: int|
                                            0 <= i < s2.len() && 0 <= j
                                                < self.states@[i].next@.len() implies #[trigger] edge_ok(
                                            self.states@,
                                            i,
                                            j,
                                        ) by {
                                            if i != w {
                                                assert(self.states@[i].next@ == sprev[i].next@);
                                                assert(edge_ok(sprev, i, j));
                                            } else {
                                                if self.states@[i].next@[j] == sprev[i].next@[j] {
                                                    assert(edge_ok(sprev, i, j));
                                                } else {
                                                    assert(self.states@[i].next@[j] == (sym, q));
                                                    assert(self.states@[q as int].length
                                                        == clone_len);
                                                }
                                            }
                                        }
                                        assert(pair_lookup(sprev[w as int].next@, sym) == Some(
                                            t0,
                                        ));
                                        assert(pair_lookup(s2[w as int].next@, sym) == Some(t0));
                                        if w != 0 {
                                            assert(link_ok(sprev, o2, w as int));
                                            assert(link_ok(s_old, o_old, w as int));
                                        }
                                    }
                                    rp_opt = self.states[w].link;
                                }
                            },
                        }
                    }

                    let ghost sprev1 = self.states@;
                    self.states[t0].link = Some(q);
                    proof {
                        assert forall|i: int| 1 <= i < s2.len() implies link_ok(
                            self.states@,
                            o2,
                            i,
                        ) by {
                            if i != t0 {
                                assert(link_ok(sprev1, o2, i));
                            } else {
                                assert(link_ok(s1, o1, t0 as int));
                                assert(o1[lt] < o1[t0 as int]);
                            }
                        }
                        assert forall|i: int, j: int|
                            0 <= i < self.states@.len() && 0 <= j
                                < self.states@[i].next@.len() implies #[trigger] edge_ok(
                            self.states@,
                            i,
                            j,
                        ) by {
                            assert(edge_ok(sprev1, i, j));
                        }
                    }
                    let ghost sprev2 = self.states@;
                    self.states[cur].link = Some(q);
                    proof {
                        assert forall|i: int| 1 <= i < s2.len() implies link_ok(
                            self.states@,
                            o2,
                            i,
                        ) by {
                            if i != cur {
                                assert(link_ok(sprev2, o2, i));
                            } else {
                                lemma_max_rank(o_old, lt);
                                assert(o1[lt] < rfresh);
                            }
                        }
                        assert forall|i: int, j: int|
                            0 <= i < self.states@.len() && 0 <= j
                                < self.states@[i].next@.len() implies #[trigger] edge_ok(
                            self.states@,
                            i,
                            j,
                        ) by {
                            assert(edge_ok(sprev2, i, j));
                        }
                        assert(links_ok(self.states@, self.order@));
                        assert(edges_ok(self.states@));
                        assert forall|w: int|
                            0 <= w < s2.len() implies (#[trigger] self.states@[w]).next@
                            == sprev1[w].next@ by {}
                        // closure survives the two link reassignments: the
                        // clone reads whatever the split state reads
                        assert forall|i: int, c: char|
                            1 <= i < self.states@.len() && (#[trigger] pair_lookup(
                                self.states@[i].next@,
                                c,
                            )) is Some implies pair_lookup(
                            self.states@[(self.states@[i].link->0) as int].next@,
                            c,
                        ) is Some by {
                            assert(self.states@[i].next@ == sprev1[i].next@);
                            assert(pair_lookup(sprev1[i].next@, c) is Some);
                            assert(pair_lookup(s2[i].next@, c) is Some);
                            if i == cur as int {
                                assert(s2[cur as int].next@.len() == 0);
                            } else if i == t0 as int {
                                assert(self.states@[i].link == Some(q));
                                assert(s2[t0 as int].next@ == s_walked[t0 as int].next@);
                                assert(s2[q as int].next@ == s_walked[t0 as int].next@);
                                assert(pair_lookup(s2[q as int].next@, c) is Some);
                                assert(self.states@[q as int].next@ == sprev1[q as int].next@);
                                assert(pair_lookup(sprev1[q as int].next@, c) is Some);
                            } else {
                                assert(self.states@[i].link == s2[i].link);
                                assert(link_ok(s2, o2, i));
                                let lt = (s2[i].link->0) as int;
                                assert(pair_lookup(s2[lt].next@, c) is Some);
                                assert(pair_lookup(sprev1[lt].next@, c) is Some);
                                assert(self.states@[lt].next@ == sprev1[lt].next@);
                            }
                        }
                        assert forall|w: int|
                            0 <= w < s1.len() && (#[trigger] pair_lookup(
                                s_walked[w].next@,
                                sym,
                            )) is Some implies pair_lookup(
                            self.states@[w].next@,
                            sym,
                        ) is Some by {
                            assert(s2[w] == s_walked[w]);
                            assert(pair_lookup(sprev1[w].next@, sym) is Some);
                            assert(self.states@[w].next@ == sprev1[w].next@);
                        }
                        assert forall|w: int, c: char|
                            0 <= w < cur && (#[trigger] pair_lookup(
                                s_old[w].next@,
                                c,
                            )) is Some && s_old[pair_lookup(s_old[w].next@, c)->0 as int].length
                            == s_old[w].length + 1 implies pair_lookup(
                            self.states@[w].next@,
                            c,
                        ) == pair_lookup(s_old[w].next@, c) by {
                            assert(s1[w] == s_old[w]);
                            let u = pair_lookup(s_old[w].next@, c)->0;
                            if s_walked[w].next@ != s1[w].next@ {
                                assert(s_walked[w].next@ == s1[w].next@.push((sym, cur)));
                                lemma_pair_lookup_push(s1[w].next@, sym, cur, c);
                            }
                            assert(pair_lookup(s_walked[w].next@, c) == pair_lookup(
                                s_old[w].next@,
                                c,
                            ));
                            assert(s2[w] == s_walked[w]);
                            if pair_lookup(sprev1[w].next@, c) != pair_lookup(s2[w].next@, c) {
                                assert(pair_lookup(s2[w].next@, sym) == Some(t0)
                                    && s2[w].length < clone_len);
                                assert(u == t0);
                                assert(s_old[t0 as int].length == s_old[w].length + 1);
                                assert(s2[w].length == s_old[w].length);
                                assert(s_old[t0 as int].length <= clone_len);
                                assert(s_walked[t0 as int].length == s_old[t0 as int].length);
                                assert(false);
                            }
                            assert(self.states@[w].next@ == sprev1[w].next@);
                        }
                        assert(solid_lookups_preserved(s_old, self.states@));
                        assert forall|w: int, c: char|
                            0 <= w < cur && (#[trigger] pair_lookup(
                                s_old[w].next@,
                                c,
                            )) is Some implies pair_lookup(self.states@[w].next@, c)
                            == pair_lookup(s_old[w].next@, c) || (pair_lookup(s_old[w].next@, c)
                            == Some(t0) && pair_lookup(self.states@[w].next@, c) == Some(q)) by {
                            assert(s1[w] == s_old[w]);
                            if s_walked[w].next@ != s1[w].next@ {
                                assert(s_walked[w].next@ == s1[w].next@.push((sym, cur)));
                                lemma_pair_lookup_push(s1[w].next@, sym, cur, c);
                            }
                            assert(pair_lookup(s_walked[w].next@, c) == pair_lookup(
                                s_old[w].next@,
                                c,
                            ));
                            assert(s2[w] == s_walked[w]);
                            assert(self.states@[w].next@ == sprev1[w].next@);
                        }
                        assert(self.states@[q as int].next@ == s2[q as int].next@);
                        assert(s2[q as int].next@ == s_walked[t0 as int].next@);
                        assert forall|c: char|
                            (#[trigger] pair_lookup(s_old[t0 as int].next@, c)) is Some implies
                            pair_lookup(self.states@[q as int].next@, c) == pair_lookup(
                            s_old[t0 as int].next@,
                            c,
                        ) by {
                            assert(s1[t0 as int] == s_old[t0 as int]);
                            if s_walked[t0 as int].next@ != s1[t0 as int].next@ {
                                assert(s_walked[t0 as int].next@ == s1[t0 as int].next@.push(
                                    (sym, cur),
                                ));
                                lemma_pair_lookup_push(s1[t0 as int].next@, sym, cur, c);
                            }
                        }
                        assert forall|qs: Seq<char>|
                            run_from(s_old, 0, qs) is Some implies run_from(
                            self.states@,
                            0,
                            qs,
                        ) is Some by {
                            lemma_run_monotone(s_old, self.states@, t0, q, 0, 0, qs);
                        }
                        assert(pair_lookup(s2[last as int].next@, sym) == Some(cur));
                        if pair_lookup(sprev1[last as int].next@, sym) != pair_lookup(
                            s2[last as int].next@,
                            sym,
                        ) {
                            assert(pair_lookup(s2[last as int].next@, sym) == Some(t0));
                            assert(false);
                        }
                        assert(pair_lookup(self.states@[last as int].next@, sym) == Some(cur));
                    }
                }
            },
        }

        self.last = cur;
        self.text = Ghost(self.text@.push(sym));
        proof {
            let s = self.states@;
            assert forall|i: int| 0 <= i < s.len() implies (#[trigger] s[i]).length <= n + 1 by {
                if i < cur {
                    assert(s_old[i].length <= n);
                }
            }
            assert(s[cur as int].length == n + 1);
            assert(s[cur as int].next@.len() == 0);
            assert(self.text@.len() == n + 1);

            let old_text = old(self).text@;
            let new_text = self.text@;
            assert forall|w: int|
                0 <= w < s_old.len() implies (#[trigger] s[w]).length == s_old[w].length by {}
            assert forall|k: int|
                0 <= k <= new_text.len() implies #[trigger] path_state_ok(s, new_text, k) by {
                if k <= n {
                    assert(path_state_ok(s_old, old_text, k));
                    let sk = run_from(s_old, 0, old_text.take(k))->0;
                    assert(new_text.take(k) =~= old_text.take(k));
                    assert(old_text.take(k).len() == k);
                    lemma_run_preserved(s_old, s, 0, old_text.take(k), sk);
                } else {
                    assert(k == n + 1);
                    assert(path_state_ok(s_old, old_text, n as int));
                    assert(old_text.take(n as int) =~= old_text);
                    lemma_run_preserved(s_old, s, 0, old_text, last as int);
                    let q1: Seq<char> = seq![sym];
                    lemma_run_append(s, 0, old_text, q1);
                    assert(q1.len() == 1 && q1[0] == sym);
                    assert(q1.drop_first() =~= Seq::<char>::empty());
                    assert(pair_lookup(s[last as int].next@, sym) == Some(cur));
                    assert(run_from(s, cur as int, q1.drop_first()) == Some(cur as int));
                    assert(run_from(s, last as int, q1) == Some(cur as int));
                    assert(new_text =~= old_text + q1);
                    assert(new_text.take(k) =~= new_text);
                }
            }
            assert(new_text.take(new_text.len() as int) =~= new_text);
            assert(path_state_ok(s, new_text, new_text.len() as int));
            assert(run_from(s, 0, new_text) == Some(cur as int));
            assert forall|i: int, c: char|
                0 <= i < s_old.len() && (#[trigger] pair_lookup(
                    s_old[i].next@,
                    c,
                )) is Some implies pair_lookup(s[i].next@, c) is Some by {}
            assert forall|i: int|
                0 <= i < s_old.len() implies (#[trigger] s[i]).is_terminal
                == s_old[i].is_terminal by {}
            assert forall|i: int|
                s_old.len() <= i < s.len() implies !(#[trigger] s[i]).is_terminal by {}
            // propagation made public: with the closure restored and the
            // whole-text state able to read the new symbol, the closure
            // carries that transition down the entire old suffix chain
            assert forall|x: int|
                0 <= x < s_old.len() implies ((#[trigger] s_old[x]).link matches Some(l) ==> (
                l as int) < s_old.len()) by {
                if x != 0 {
                    assert(link_ok(s_old, o_old, x));
                }
            }
            assert forall|i: int|
                0 <= i < s_old.len() && on_link_chain(s_old, last as int, i) implies (
                #[trigger] pair_lookup(s[i].next@, sym)) is Some by {
                let k = choose|k: nat| #[trigger] link_iter(s_old, last as int, k) == Some(i);
                lemma_link_iter_same_links(s_old, s_walked, last as int, k);
                lemma_chain_has_edge(s_walked, o1, last as int, i, sym, k);
            }
            // in particular the root can now read the symbol, so the
            // one-symbol query is accepted
            lemma_chain_reaches_root(s_old, o_old, last as int);
            assert(pair_lookup(s[0].next@, sym) is Some);
            let q1: Seq<char> = seq![sym];
            assert(q1.len() == 1 && q1[0] == sym);
            assert(q1.drop_first() =~= Seq::<char>::empty());
            let t1 = pair_lookup(s[0].next@, sym)->0;
            assert(run_from(s, t1 as int, q1.drop_first()) == Some(t1 as int));
            assert(run_from(s, 0, q1) is Some);
        }
    }

    /// Append a whole string: extend once per symbol in order, then mark the
    /// suffix states of the text so far as terminal.  Repeated calls
    /// accumulate onto the same automaton.
    pub fn add_string(&mut self, string: &str)
        requires
            old(self).wf(),
        ensures
            final(self).wf(),
            final(self).text() == old(self).text() + string@,
            forall|qs: Seq<char>|
                old(self).accepts(qs) ==> #[trigger] final(self).accepts(qs),
            forall|i: int|
                0 <= i < string@.len() ==> #[trigger] final(self).accepts(seq![string@[i]]),
            forall|i: int|
                0 <= i < final(self).num_states() ==> (#[trigger] final(self).terminal_at(i) == ((
                0 <= i < old(self).num_states() && old(self).terminal_at(i))
                    || final(self).on_suffix_chain(i))),
    {
        let n = string.unicode_len();
        let mut i: usize = 0;
        while i < n
            invariant
                self.wf(),
                n == string@.len(),
                0 <= i <= n,
                self.text@ == old(self).text@ + string@.take(i as int),
                forall|qs: Seq<char>| old(self).accepts(qs) ==> #[trigger] self.accepts(qs),
                forall|i2: int| 0 <= i2 < i ==> #[trigger] self.accepts(seq![string@[i2]]),
                old(self).num_states() <= self.num_states(),
                forall|k: int|
                    0 <= k < self.num_states() ==> (#[trigger] self.terminal_at(k) == (0 <= k < old(
                        self,
                    ).num_states() && old(self).terminal_at(k))),
            decreases n - i,
        {
            let c = string.get_char(i);
            self.add_char(c);
            proof {
                assert(self.text@ =~= old(self).text@ + string@.take(i + 1 as int));
                assert(seq![c] =~= seq![string@[i as int]]);
            }
            i += 1;
        }
        proof {
            assert(self.text@ =~= old(self).text@ + string@);
        }
        let ghost pre = *self;
        self.mark_terminal();
        proof {
            assert forall|x: int|
                0 <= x < pre.states@.len() implies ((#[trigger] pre.states@[x]).link matches Some(
                l,
            ) ==> (l as int) < pre.states@.len()) by {
                if x != 0 {
                    assert(link_ok(pre.states@, pre.order@, x));
                }
            }
            // marking changes no link, so the suffix chain reads the same
            // before and after it
            assert forall|k: nat| #[trigger] link_iter(self.states@, self.last as int, k)
                == link_iter(pre.states@, pre.last as int, k) by {
                lemma_link_iter_same_links(pre.states@, self.states@, pre.last as int, k);
            }
            assert forall|i: int|
                0 <= i < self.num_states() implies (#[trigger] self.terminal_at(i) == ((0 <= i
                < old(self).num_states() && old(self).terminal_at(i)) || self.on_suffix_chain(
                i,
            ))) by {
                assert(self.states@[i].is_terminal == (pre.states@[i].is_terminal
                    || on_link_chain(pre.states@, pre.last as int, i)));
                assert(pre.terminal_at(i) == (0 <= i < old(self).num_states() && old(
                    self,
                ).terminal_at(i)));
                assert(pre.states@[i].is_terminal == pre.terminal_at(i));
                if on_link_chain(pre.states@, pre.last as int, i) {
                    let k = choose|k: nat| #[trigger] link_iter(pre.states@, pre.last as int, k)
                        == Some(i);
                    assert(link_iter(self.states@, self.last as int, k) == Some(i));
                    assert(self.on_suffix_chain(i));
                }
                if self.on_suffix_chain(i) {
                    let k = choose|k: nat| #[trigger] link_iter(self.states@, self.last as int, k)
                        == Some(i);
                    assert(link_iter(pre.states@, pre.last as int, k) == Some(i));
                    assert(on_link_chain(pre.states@, pre.last as int, i));
                }
            }
        }
    }

    /// The automaton of `string`: a fresh automaton with the string
    /// appended.  Every prefix of the string, the whole string and the empty
    /// string included, is then contained.
    pub fn build(string: &str) -> (r: Self)
        ensures
            r.wf(),
            r.text() == string@,
            forall|k: int| 0 <= k <= string@.len() ==> r.accepts(#[trigger] string@.take(k)),
            forall|i: int| 0 <= i < string@.len() ==> #[trigger] r.accepts(seq![string@[i]]),
            r.accepts(string@),
    {
        let mut ret = SuffixAutomaton::new();
        ret.add_string(string);
        proof {
            assert(ret.text() =~= string@);
            assert forall|k: int| 0 <= k <= string@.len() implies ret.accepts(
                #[trigger] string@.take(k),
            ) by {
                lemma_prefix_of_text_accepted(ret, k);
            }
            assert(string@.take(string@.len() as int) =~= string@);
        }
        ret
    }

    /// Walk the suffix-link chain from `last` and mark every state on it
    /// terminal: afterwards a state is terminal exactly when it already was
    /// or lies on that chain — the states whose classes hold a suffix of
    /// the text appended so far.  The structure of the automaton is
    /// untouched.
    #[verifier::loop_isolation(false)]
    fn mark_terminal(&mut self)
        requires
            old(self).wf(),
        ensures
            final(self).wf(),
            final(self).text() == old(self).text(),
            final(self).num_states() == old(self).num_states(),
            final(self).states@.len() == old(self).states@.len(),
            forall|i: int|
                0 <= i < old(self).states@.len() ==> (#[trigger] final(self).states@[i]).next@
                    == old(self).states@[i].next@ && final(self).states@[i].length == old(
                    self,
                ).states@[i].length && final(self).states@[i].link == old(self).states@[i].link,
            forall|i: int|
                0 <= i < old(self).states@.len() ==> ((#[trigger] final(self).states@[i]).is_terminal == (
                old(self).states@[i].is_terminal || on_link_chain(
                    old(self).states@,
                    old(self).last as int,
                    i,
                ))),
            final(self).last == old(self).last,
            forall|q: Seq<char>| #[trigger] final(self).accepts(q) == old(self).accepts(q),
    {
        let ghost s0 = self.states@;
        let ghost last0 = self.last as int;
        let mut prev_opt: Option<usize> = Some(self.last);
        let ghost mut steps: nat = 0;
        let mut walking = true;
        while walking
            invariant
                self.states@.len() == s0.len(),
                self.order@ == old(self).order@,
                self.text@ == old(self).text@,
                self.last == old(self).last,
                links_ok(self.states@, self.order@),
                forall|i: int|
                    0 <= i < s0.len() ==> (#[trigger] self.states@[i]).next@ == s0[i].next@
                        && self.states@[i].length == s0[i].length && self.states@[i].link
                        == s0[i].link,
                forall|i: int|
                    0 <= i < s0.len() && s0[i].is_terminal ==> (#[trigger] self.states@[i]).is_terminal,
                prev_opt matches Some(p) ==> (p as int) < s0.len(),
                link_iter(s0, last0, steps) == (match prev_opt {
                    Some(p) => Some(p as int),
                    None => None::<int>,
                }),
                forall|k: nat|
                    k < steps ==> (match #[trigger] link_iter(s0, last0, k) {
                        Some(x) => 0 <= x < s0.len() && self.states@[x].is_terminal,
                        None => true,
                    }),
                forall|i: int|
                    0 <= i < s0.len() && (#[trigger] self.states@[i]).is_terminal
                        ==> s0[i].is_terminal || on_link_chain(s0, last0, i),
                !walking ==> prev_opt is None,
            decreases walk_rank(self.order@, prev_opt), (if walking { 1int } else { 0int }),
        {
            match prev_opt {
                None => {
                    walking = false;
                },
                Some(p) => {
                    proof {
                        if p != 0 {
                            assert(link_ok(self.states@, self.order@, p as int));
                        }
                    }
                    let ghost sprev = self.states@;
                    self.states[p].is_terminal = true;
                    proof {
                        assert forall|i: int|
                            1 <= i < self.states@.len() implies link_ok(
                            self.states@,
                            self.order@,
                            i,
                        ) by {
                            assert(link_ok(sprev, self.order@, i));
                        }
                        assert(link_iter(s0, last0, steps) == Some(p as int));
                        assert(on_link_chain(s0, last0, p as int));
                        lemma_link_iter_split(s0, last0, steps, 1nat);
                        match s0[p as int].link {
                            Some(l) => {
                                assert(link_iter(s0, l as int, 0nat) == Some(l as int));
                            },
                            None => {},
                        }
                        assert(link_iter(s0, p as int, 1nat) == (match s0[p as int].link {
                            Some(l) => Some(l as int),
                            None => None::<int>,
                        }));
                        steps = steps + 1;
                    }
                    prev_opt = self.states[p].link;
                },
            }
        }
        proof {
            assert forall|i: int|
                0 <= i < s0.len() implies ((#[trigger] self.states@[i]).is_terminal == (
            s0[i].is_terminal || on_link_chain(s0, last0, i))) by {
                if !self.states@[i].is_terminal && on_link_chain(s0, last0, i) {
                    let k = choose|k: nat| #[trigger] link_iter(s0, last0, k) == Some(i);
                    if k >= steps {
                        lemma_link_iter_split(s0, last0, steps, (k - steps) as nat);
                        assert(link_iter(s0, last0, k) == None::<int>);
                        assert(false);
                    }
                    assert(false);
                }
            }
        }
        proof {
            assert(edges_ok(old(self).states@));
            assert forall|i: int|
                0 <= i < self.states@.len() implies (#[trigger] self.states@[i]).length <= self.text@.len() by {
                assert(old(self).states@[i].length <= old(self).text@.len());
            }
            assert forall|i: int, j: int|
                0 <= i < self.states@.len() && 0 <= j < self.states@[i].next@.len() implies
                #[trigger] edge_ok(self.states@, i, j) by {
                assert(edge_ok(old(self).states@, i, j));
            }
            assert forall|i: int, j: int|
                0 <= i < old(self).states@.len() && 0 <= j
                    < old(self).states@[i].next@.len() implies ((#[trigger] old(
                self,
            ).states@[i].next@[j]).1 as int) < old(self).states@.len() by {
                assert(edge_ok(old(self).states@, i, j));
            }
            assert forall|i: int, c: char|
                1 <= i < self.states@.len() && (#[trigger] pair_lookup(
                    self.states@[i].next@,
                    c,
                )) is Some implies pair_lookup(
                self.states@[(self.states@[i].link->0) as int].next@,
                c,
            ) is Some by {
                assert(pair_lookup(old(self).states@[i].next@, c) is Some);
                assert(pair_lookup(
                    old(self).states@[(old(self).states@[i].link->0) as int].next@,
                    c,
                ) is Some);
                assert(self.states@[i].link == old(self).states@[i].link);
                assert(link_ok(old(self).states@, old(self).order@, i));
                let lt = (old(self).states@[i].link->0) as int;
                assert(self.states@[lt].next@ == old(self).states@[lt].next@);
            }
            assert forall|q: Seq<char>| #[trigger] self.accepts(q) == old(self).accepts(q) by {
                lemma_run_same_structure(old(self).states@, self.states@, 0, q);
            }
            assert forall|k: int|
                0 <= k <= self.text@.len() implies #[trigger] path_state_ok(
                self.states@,
                self.text@,
                k,
            ) by {
                assert(path_state_ok(old(self).states@, old(self).text@, k));
                lemma_run_same_structure(
                    old(self).states@,
                    self.states@,
                    0,
                    old(self).text@.take(k),
                );
            }
            lemma_run_same_structure(old(self).states@, self.states@, 0, old(self).text@);
        }
    }
}

/// Every transition targets a state inside the arena.
pub(crate) open spec fn targets_ok(states: Seq<State>) -> bool {
    forall|i: int, j: int|
        0 <= i < states.len() && 0 <= j < states[i].next@.len() ==> ((
        #[trigger] states[i].next@[j]).1 as int) < states.len()
}

/// Two automata agree transition for transition; terminal marks and ghost
/// data are free to differ.
pub open spec fn same_transition_structure(a: SuffixAutomaton, b: SuffixAutomaton) -> bool {
    &&& a.num_states() == b.num_states()
    &&& forall|i: int, c: char|
        0 <= i < a.num_states() ==> #[trigger] a.transition_of(i, c) == b.transition_of(i, c)
}

/// Containment never consults the terminal marks: two well-formed automata
/// with the same transition structure accept exactly the same queries, so
/// building a text through `add_string` and building it through bare
/// `add_char` calls (which skips terminal marking) are indistinguishable to
/// `contains`.
pub proof fn lemma_containment_ignores_terminals(
    a: SuffixAutomaton,
    b: SuffixAutomaton,
    q: Seq<char>,
)
    requires
        a.wf(),
        b.wf(),
        same_transition_structure(a, b),
    ensures
        a.accepts(q) == b.accepts(q),
{
    assert forall|i: int, j: int|
        0 <= i < a.states@.len() && 0 <= j < a.states@[i].next@.len() implies ((
    #[trigger] a.states@[i].next@[j]).1 as int) < a.states@.len() by {
        assert(edge_ok(a.states@, i, j));
    }
    assert forall|k: int, c: char|
        0 <= k < a.states@.len() implies #[trigger] pair_lookup(a.states@[k].next@, c)
        == pair_lookup(b.states@[k].next@, c) by {
        assert(a.transition_of(k, c) == b.transition_of(k, c));
    }
    lemma_run_structural(a.states@, b.states@, 0, q);
}

/// Runs agree when every lookup agrees, even if the transition lists differ
/// entry for entry.
proof fn lemma_run_structural(s1: Seq<State>, s2: Seq<State>, i: int, q: Seq<char>)
    requires
        s1.len() == s2.len(),
        targets_ok(s1),
        forall|k: int, c: char|
            0 <= k < s1.len() ==> #[trigger] pair_lookup(s1[k].next@, c) == pair_lookup(
                s2[k].next@,
                c,
            ),
        0 <= i < s1.len(),
    ensures
        run_from(s1, i, q) == run_from(s2, i, q),
    decreases q.len(),
{
    if q.len() > 0 {
        match pair_lookup(s1[i].next@, q[0]) {
            Some(t) => {
                lemma_pair_lookup_mem(s1[i].next@, q[0]);
                lemma_run_structural(s1, s2, t as int, q.drop_first());
            },
            None => {},
        }
    }
}

/// Substring completeness for prefixes: the appended text labels a path of
/// transitions from the root, so every prefix of the text is accepted, in
/// particular by `contains`.
pub proof fn lemma_prefix_of_text_accepted(a: SuffixAutomaton, k: int)
    requires
        a.wf(),
        0 <= k <= a.text().len(),
    ensures
        a.accepts(a.text().take(k)),
{
    assert(path_state_ok(a.states@, a.text@, k));
}

/// Negative containment for over-long queries: transitions strictly raise
/// the class length and no class is longer than the text, so nothing longer
/// than the text is ever accepted.
pub proof fn lemma_accepted_fits_text(a: SuffixAutomaton, q: Seq<char>)
    requires
        a.wf(),
        a.accepts(q),
    ensures
        q.len() <= a.text().len(),
{
    lemma_run_length_gain(a.states@, 0, q);
}

/// For a text of length `n >= 2` the arena never holds more than `2 * n - 1`
/// states, however the text was split over `add_string` and `add_char`
/// calls.
pub proof fn lemma_state_bound(a: SuffixAutomaton)
    requires
        a.wf(),
        a.text().len() >= 2,
    ensures
        a.num_states() <= 2 * a.text().len() - 1,
{
}

/// Transition-following reads only the transition lists, so two automata
/// with the same lists accept the same queries; terminal flags are
/// irrelevant to containment.
pub(crate) proof fn lemma_run_same_structure(s1: Seq<State>, s2: Seq<State>, i: int, q: Seq<char>)
    requires
        s1.len() == s2.len(),
        targets_ok(s1),
        forall|k: int| 0 <= k < s1.len() ==> (#[trigger] s2[k]).next@ == s1[k].next@,
        0 <= i < s1.len(),
    ensures
        run_from(s1, i, q) == run_from(s2, i, q),
    decreases q.len(),
{
    if q.len() > 0 {
        match pair_lookup(s1[i].next@, q[0]) {
            Some(t) => {
                lemma_pair_lookup_mem(s1[i].next@, q[0]);
                lemma_run_same_structure(s1, s2, t as int, q.drop_first());
            },
            None => {},
        }
    }
}

} // verus!
