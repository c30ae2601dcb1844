//! Prefix tree over an arena of nodes addressed by index.  A word is
//! contained when the path labelled by its symbols exists and ends at a node
//! marked terminal; `add_string` grows the path for a word and marks its
//! end, and stores exactly the words added: each node carries, as ghost
//! data, the unique word that reaches it.

use crate::string::suffix_automaton::lemma_pair_lookup_mem;
use crate::string::suffix_automaton::lemma_pair_lookup_push;
use crate::string::suffix_automaton::lookup;
use crate::string::suffix_automaton::pair_lookup;
use vstd::prelude::*;

verus! {

/// One node: child edges keyed by symbol, whether a stored word ends here,
/// and — as ghost data — the word spelled by the path from the root.
pub(crate) struct Node {
    pub(crate) to: Vec<(char, usize)>,
    pub(crate) is_terminal: bool,
    pub(crate) word: Ghost<Seq<char>>,
}

/// Child-following from node `i` over the symbols of `q`.
pub(crate) open spec fn descend(nodes: Seq<Node>, i: int, q: Seq<char>) -> Option<int>
    decreases q.len(),
{
    if q.len() == 0 {
        Some(i)
    } else {
        match pair_lookup(nodes[i].to@, q[0]) {
            Some(t) => descend(nodes, t as int, q.drop_first()),
            None => None,
        }
    }
}

/// Every edge leads to a node further right in the arena (nodes are created
/// in path order, so the edge relation is acyclic and targets stay in
/// bounds) and extends the source's word by the edge's symbol.
pub(crate) open spec fn node_ok(nodes: Seq<Node>, i: int, j: int) -> bool {
    &&& (nodes[i].to@[j].1 as int) < nodes.len()
    &&& i < nodes[i].to@[j].1 as int
    &&& nodes[nodes[i].to@[j].1 as int].word@ == nodes[i].word@.push(nodes[i].to@[j].0)
}

pub(crate) open spec fn nodes_ok(nodes: Seq<Node>) -> bool {
    &&& nodes.len() >= 1
    &&& nodes[0].word@ == Seq::<char>::empty()
    &&& forall|i: int, j: int|
        0 <= i < nodes.len() && 0 <= j < nodes[i].to@.len() ==> #[trigger] node_ok(nodes, i, j)
    &&& forall|x: int|
        0 <= x < nodes.len() ==> #[trigger] descend(nodes, 0, nodes[x].word@) == Some(x)
}

/// The prefix tree; node `0` is the root.
pub struct Trie {
    nodes: Vec<Node>,
}

impl Trie {
    /// Structural invariant: the root exists, every edge points to a later
    /// node and spells one more symbol, and every node is reached from the
    /// root by its own word.
    pub closed spec fn wf(self) -> bool {
        nodes_ok(self.nodes@)
    }

    /// `q` is one of the stored words: its path exists and ends terminal.
    pub closed spec fn accepts_word(self, q: Seq<char>) -> bool {
        match descend(self.nodes@, 0, q) {
            Some(s) => 0 <= s < self.nodes@.len() && self.nodes@[s].is_terminal,
            None => false,
        }
    }

    /// An empty trie: just the root, storing no word.
    pub fn new() -> (r: Self)
        ensures
            r.wf(),
            forall|q: Seq<char>| !#[trigger] r.accepts_word(q),
    {
        let mut nodes: Vec<Node> = Vec::new();
        nodes.push(Node { to: Vec::new(), is_terminal: false, word: Ghost(Seq::empty()) });
        let r = Trie { nodes };
        proof {
            assert forall|q: Seq<char>| !#[trigger] r.accepts_word(q) by {
                if q.len() > 0 {
                    assert(pair_lookup(r.nodes@[0].to@, q[0]) is None);
                }
            }
            assert(descend(r.nodes@, 0, r.nodes@[0].word@) == Some(0int));
        }
        r
    }

    /// The trie of a single word: it stores that word and nothing else.
    pub fn build(string: &str) -> (r: Self)
        ensures
            r.wf(),
            r.accepts_word(string@),
            forall|q: Seq<char>| #[trigger] r.accepts_word(q) == (q == string@),
    {
        let mut ret = Trie::new();
        ret.add_string(string);
        ret
    }

    /// Allocate a fresh node with no edges and no terminal mark, reached by
    /// the given word.
    fn new_node(&mut self, word: Ghost<Seq<char>>) -> (idx: usize)
        ensures
            final(self).nodes@.len() == old(self).nodes@.len() + 1,
            forall|k: int|
                0 <= k < old(self).nodes@.len() ==> #[trigger] final(self).nodes@[k] == old(
                    self,
                ).nodes@[k],
            final(self).nodes@[idx as int].to@.len() == 0,
            !final(self).nodes@[idx as int].is_terminal,
            final(self).nodes@[idx as int].word@ == word@,
            idx as int == old(self).nodes@.len(),
    {
        self.nodes.push(Node { to: Vec::new(), is_terminal: false, word });
        self.nodes.len() - 1
    }

    /// Store a word: descend from the root, creating missing nodes along the
    /// way, and mark the final node terminal.  The set of stored words
    /// gains exactly this word: every previously stored word stays stored,
    /// and nothing else becomes stored.
    #[verifier::loop_isolation(false)]
    pub fn add_string(&mut self, string: &str)
        requires
            old(self).wf(),
        ensures
            final(self).wf(),
            final(self).accepts_word(string@),
            forall|q: Seq<char>|
                #[trigger] final(self).accepts_word(q) == (old(self).accepts_word(q) || q
                    == string@),
    {
        let ghost n0 = self.nodes@;
        let n = string.unicode_len();
        let mut vertex: usize = 0;
        let mut i: usize = 0;
        proof {
            assert(string@.take(0) =~= Seq::<char>::empty());
        }
        while i < n
            invariant
                self.wf(),
                n == string@.len(),
                0 <= i <= n,
                (vertex as int) < self.nodes@.len(),
                descend(self.nodes@, 0, string@.take(i as int)) == Some(vertex as int),
                self.nodes@[vertex as int].word@ == string@.take(i as int),
                self.nodes@.len() >= n0.len(),
                forall|k: int|
                    0 <= k < n0.len() ==> (#[trigger] self.nodes@[k]).is_terminal
                        == n0[k].is_terminal && self.nodes@[k].word@ == n0[k].word@,
                forall|k: int|
                    n0.len() <= k < self.nodes@.len() ==> !(#[trigger] self.nodes@[k]).is_terminal,
                forall|k: int, c: char|
                    0 <= k < n0.len() && (#[trigger] pair_lookup(n0[k].to@, c)) is Some
                        ==> pair_lookup(self.nodes@[k].to@, c) == pair_lookup(n0[k].to@, c),
            decreases n - i,
        {
            let c = string.get_char(i);
            let r = lookup(&self.nodes[vertex].to, c);
            let ghost nprev = self.nodes@;
            let ghost q1: Seq<char> = seq![string@[i as int]];
            let step: usize = match r {
                Some(t) => {
                    proof {
                        lemma_pair_lookup_mem(self.nodes@[vertex as int].to@, c);
                        let j = choose|j: int|
                            0 <= j < self.nodes@[vertex as int].to@.len() && (
                            #[trigger] self.nodes@[vertex as int].to@[j]).0 == c
                                && self.nodes@[vertex as int].to@[j].1 == pair_lookup(
                                self.nodes@[vertex as int].to@,
                                c,
                            )->0;
                        assert(node_ok(self.nodes@, vertex as int, j));
                        assert(self.nodes@[t as int].word@ == string@.take(i as int).push(
                            string@[i as int],
                        ));
                    }
                    t
                },
                None => {
                    let new_node = self.new_node(
                        Ghost(string@.take(i as int).push(string@[i as int])),
                    );
                    let ghost nmid = self.nodes@;
                    self.nodes[vertex].to.push((c, new_node));
                    proof {
                        assert forall|k: int, j: int|
                            0 <= k < self.nodes@.len() && 0 <= j
                                < self.nodes@[k].to@.len() implies #[trigger] node_ok(
                            self.nodes@,
                            k,
                            j,
                        ) by {
                            if k != vertex as int || j < nprev[k].to@.len() {
                                assert(node_ok(nprev, k, j));
                            } else {
                                assert(self.nodes@[k].to@[j] == (c, new_node));
                            }
                        }
                        assert forall|k: int, d: char|
                            0 <= k < self.nodes@.len() && (#[trigger] pair_lookup(
                                nmid[k].to@,
                                d,
                            )) is Some implies pair_lookup(self.nodes@[k].to@, d) == pair_lookup(
                            nmid[k].to@,
                            d,
                        ) by {
                            if k == vertex as int {
                                lemma_pair_lookup_push(nmid[k].to@, c, new_node, d);
                            }
                        }
                        lemma_pair_lookup_push(nmid[vertex as int].to@, c, new_node, c);
                        assert(pair_lookup(self.nodes@[vertex as int].to@, c) == Some(new_node));
                    }
                    new_node
                },
            };
            proof {
                assert(q1.len() == 1 && q1[0] == string@[i as int]);
                assert(q1.drop_first() =~= Seq::<char>::empty());
                assert(string@.take(i + 1 as int) =~= string@.take(i as int) + q1);
                assert(string@.take(i + 1 as int) =~= string@.take(i as int).push(
                    string@[i as int],
                ));
                lemma_descend_monotone(nprev, self.nodes@, 0, string@.take(i as int));
                lemma_descend_append(self.nodes@, 0, string@.take(i as int), q1);
                assert(pair_lookup(self.nodes@[vertex as int].to@, string@[i as int]) == Some(
                    step,
                ));
                assert(descend(self.nodes@, step as int, q1.drop_first()) == Some(step as int));
                assert(descend(self.nodes@, vertex as int, q1) == Some(step as int));
                assert(descend(self.nodes@, 0, string@.take(i + 1 as int)) == Some(step as int));
                // every node is still reached by its word: old nodes by
                // monotonicity, a fresh node by the path just extended
                assert forall|x: int|
                    0 <= x < self.nodes@.len() implies #[trigger] descend(
                    self.nodes@,
                    0,
                    self.nodes@[x].word@,
                ) == Some(x) by {
                    if x < nprev.len() {
                        assert(descend(nprev, 0, nprev[x].word@) == Some(x));
                        lemma_descend_monotone(nprev, self.nodes@, 0, nprev[x].word@);
                        assert(self.nodes@[x].word@ == nprev[x].word@);
                    } else {
                        assert(self.nodes@[x].word@ == string@.take(i + 1 as int));
                    }
                }
            }
            vertex = step;
            i += 1;
        }
        let ghost nfin = self.nodes@;
        let ghost vend = vertex as int;
        self.nodes[vertex].is_terminal = true;
        proof {
            assert forall|k: int, j: int|
                0 <= k < self.nodes@.len() && 0 <= j < self.nodes@[k].to@.len() implies
                #[trigger] node_ok(self.nodes@, k, j) by {
                assert(node_ok(nfin, k, j));
            }
            assert(string@.take(n as int) =~= string@);
            assert forall|k: int, c: char|
                0 <= k < self.nodes@.len() implies #[trigger] pair_lookup(self.nodes@[k].to@, c)
                == pair_lookup(nfin[k].to@, c) by {}
            assert forall|x: int|
                0 <= x < self.nodes@.len() implies #[trigger] descend(
                self.nodes@,
                0,
                self.nodes@[x].word@,
            ) == Some(x) by {
                assert(descend(nfin, 0, nfin[x].word@) == Some(x));
                lemma_descend_same_edges(nfin, self.nodes@, 0, nfin[x].word@);
            }
            lemma_descend_same_edges(nfin, self.nodes@, 0, string@);
            assert(final(self).accepts_word(string@));
            assert forall|q: Seq<char>|
                #[trigger] final(self).accepts_word(q) == (old(self).accepts_word(q) || q
                    == string@) by {
                if old(self).accepts_word(q) {
                    lemma_descend_monotone(n0, nfin, 0, q);
                    lemma_descend_same_edges(nfin, self.nodes@, 0, q);
                }
                if final(self).accepts_word(q) {
                    let x = descend(self.nodes@, 0, q)->0;
                    lemma_descend_word(self.nodes@, 0, q, x);
                    assert(Seq::<char>::empty() + q =~= q);
                    assert(self.nodes@[x].word@ == q);
                    if x != vend {
                        // terminal only at old nodes: the word addresses it
                        // in the old trie too
                        assert(nfin[x].is_terminal);
                        assert(0 <= x < n0.len());
                        assert(n0[x].word@ == q);
                        assert(descend(n0, 0, n0[x].word@) == Some(x));
                        assert(old(self).accepts_word(q));
                    } else {
                        assert(q == string@);
                    }
                }
            }
        }
    }

    /// Word query: follow one edge per symbol from the root; the word is
    /// contained exactly when the whole path exists and its final node is
    /// terminal.
    pub fn contains(&self, string: &str) -> (r: bool)
        requires
            self.wf(),
        ensures
            r == self.accepts_word(string@),
    {
        let n = string.unicode_len();
        let mut vertex: usize = 0;
        let mut i: usize = 0;
        while i < n
            invariant
                self.wf(),
                n == string@.len(),
                0 <= i <= n,
                (vertex as int) < self.nodes@.len(),
                descend(self.nodes@, 0, string@.take(i as int)) == Some(vertex as int),
            decreases n - i,
        {
            let c = string.get_char(i);
            let r = lookup(&self.nodes[vertex].to, c);
            let ghost q1: Seq<char> = seq![string@[i as int]];
            proof {
                assert(q1.len() == 1 && q1[0] == string@[i as int]);
                assert(q1.drop_first() =~= Seq::<char>::empty());
                assert(string@.take(i + 1 as int) =~= string@.take(i as int) + q1);
                lemma_descend_append(self.nodes@, 0, string@.take(i as int), q1);
            }
            match r {
                None => {
                    proof {
                        assert(descend(self.nodes@, 0, string@.take(i + 1 as int)) is None);
                        assert(string@ =~= string@.take(i + 1 as int) + string@.skip(i + 1 as int));
                        lemma_descend_append(
                            self.nodes@,
                            0,
                            string@.take(i + 1 as int),
                            string@.skip(i + 1 as int),
                        );
                    }
                    return false;
                },
                Some(t) => {
                    proof {
                        lemma_pair_lookup_mem(self.nodes@[vertex as int].to@, c);
                        let j = choose|j: int|
                            0 <= j < self.nodes@[vertex as int].to@.len() && (
                            #[trigger] self.nodes@[vertex as int].to@[j]).0 == c
                                && self.nodes@[vertex as int].to@[j].1 == pair_lookup(
                                self.nodes@[vertex as int].to@,
                                c,
                            )->0;
                        assert(node_ok(self.nodes@, vertex as int, j));
                        assert(descend(self.nodes@, t as int, q1.drop_first()) == Some(t as int));
                        assert(descend(self.nodes@, vertex as int, q1) == Some(t as int));
                    }
                    vertex = t;
                },
            }
            i += 1;
        }
        proof {
            assert(string@.take(n as int) =~= string@);
        }
        self.nodes[vertex].is_terminal
    }
}

/// Descending over a concatenation descends over the pieces in order.
proof fn lemma_descend_append(nodes: Seq<Node>, i: int, q1: Seq<char>, q2: Seq<char>)
    ensures
        descend(nodes, i, q1 + q2) == (match descend(nodes, i, q1) {
            Some(s) => descend(nodes, s, q2),
            None => None::<int>,
        }),
    decreases q1.len(),
{
    if q1.len() == 0 {
        assert(q1 + q2 =~= q2);
    } else {
        assert((q1 + q2)[0] == q1[0]);
        assert((q1 + q2).drop_first() =~= q1.drop_first() + q2);
        match pair_lookup(nodes[i].to@, q1[0]) {
            Some(t) => {
                lemma_descend_append(nodes, t as int, q1.drop_first(), q2);
            },
            None => {},
        }
    }
}

/// Growing a trie only adds edges, so every path that existed before still
/// exists and ends at the same node.
proof fn lemma_descend_monotone(n1: Seq<Node>, n2: Seq<Node>, i: int, q: Seq<char>)
    requires
        nodes_ok(n1),
        n2.len() >= n1.len(),
        forall|k: int, c: char|
            0 <= k < n1.len() && (#[trigger] pair_lookup(n1[k].to@, c)) is Some ==> pair_lookup(
                n2[k].to@,
                c,
            ) == pair_lookup(n1[k].to@, c),
        0 <= i < n1.len(),
        descend(n1, i, q) is Some,
    ensures
        descend(n2, i, q) == descend(n1, i, q),
    decreases q.len(),
{
    if q.len() > 0 {
        match pair_lookup(n1[i].to@, q[0]) {
            Some(t) => {
                lemma_pair_lookup_mem(n1[i].to@, q[0]);
                let j = choose|j: int|
                    0 <= j < n1[i].to@.len() && (#[trigger] n1[i].to@[j]).0 == q[0]
                        && n1[i].to@[j].1 == pair_lookup(n1[i].to@, q[0])->0;
                assert(node_ok(n1, i, j));
                lemma_descend_monotone(n1, n2, t as int, q.drop_first());
            },
            None => {},
        }
    }
}

/// Descending reads only the edges, not the terminal marks.
proof fn lemma_descend_same_edges(n1: Seq<Node>, n2: Seq<Node>, i: int, q: Seq<char>)
    requires
        nodes_ok(n1),
        n2.len() == n1.len(),
        forall|k: int, c: char|
            0 <= k < n1.len() ==> #[trigger] pair_lookup(n2[k].to@, c) == pair_lookup(
                n1[k].to@,
                c,
            ),
        0 <= i < n1.len(),
    ensures
        descend(n2, i, q) == descend(n1, i, q),
    decreases q.len(),
{
    if q.len() > 0 {
        match pair_lookup(n1[i].to@, q[0]) {
            Some(t) => {
                lemma_pair_lookup_mem(n1[i].to@, q[0]);
                let j = choose|j: int|
                    0 <= j < n1[i].to@.len() && (#[trigger] n1[i].to@[j]).0 == q[0]
                        && n1[i].to@[j].1 == pair_lookup(n1[i].to@, q[0])->0;
                assert(node_ok(n1, i, j));
                lemma_descend_same_edges(n1, n2, t as int, q.drop_first());
            },
            None => {},
        }
    }
}

/// Following `q` from node `i` lands on the node whose word extends `i`'s
/// word by `q`.
proof fn lemma_descend_word(nodes: Seq<Node>, i: int, q: Seq<char>, x: int)
    requires
        nodes_ok(nodes),
        0 <= i < nodes.len(),
        descend(nodes, i, q) == Some(x),
    ensures
        0 <= x < nodes.len(),
        nodes[x].word@ == nodes[i].word@ + q,
    decreases q.len(),
{
    if q.len() == 0 {
        assert(nodes[i].word@ + q =~= nodes[i].word@);
    } else {
        match pair_lookup(nodes[i].to@, q[0]) {
            Some(t) => {
                lemma_pair_lookup_mem(nodes[i].to@, q[0]);
                let j = choose|j: int|
                    0 <= j < nodes[i].to@.len() && (#[trigger] nodes[i].to@[j]).0 == q[0]
                        && nodes[i].to@[j].1 == pair_lookup(nodes[i].to@, q[0])->0;
                assert(node_ok(nodes, i, j));
                lemma_descend_word(nodes, t as int, q.drop_first(), x);
                assert(nodes[i].word@.push(q[0]) + q.drop_first() =~= nodes[i].word@ + q);
            },
            None => {},
        }
    }
}

} // verus!
