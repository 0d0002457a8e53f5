//! Byte trie for greedy longest matching.
//!
//! The children of a node are kept in a vector sorted by byte and searched
//! by bisection, rather than a 256-entry array per node.

use vstd::prelude::*;

verus! {

/// A node: its children by byte, and the code of the block that ends here.
#[derive(Debug, Clone)]
pub struct TrieNode {
    pub children: Vec<(u8, usize)>,
    pub code: Option<u32>,
}

/// Trie of byte blocks; node 0 is the root.
#[derive(Clone)]
pub struct Trie {
    pub nodes: Vec<TrieNode>,
    /// The block that leads from the root to each node.
    pub paths: Ghost<Seq<Seq<u8>>>,
}

/// Longest prefix of `input`, among its first `l` non-empty prefixes, that
/// `dict` holds, with its code and length.
pub open spec fn longest_known(dict: Map<Seq<u8>, u32>, input: Seq<u8>, l: nat) -> Option<(u32, nat)>
    decreases l,
{
    if l == 0 {
        None
    } else if dict.contains_key(input.take(l as int)) {
        Some((dict[input.take(l as int)], l))
    } else {
        longest_known(dict, input, (l - 1) as nat)
    }
}

/// What [`longest_known`] finds is a prefix of length `1..=l` that `dict` holds.
pub proof fn lemma_longest_known(dict: Map<Seq<u8>, u32>, input: Seq<u8>, l: nat)
    ensures
        longest_known(dict, input, l) matches Some((c, k)) ==> {
            &&& 1 <= k <= l
            &&& dict.contains_key(input.take(k as int))
            &&& dict[input.take(k as int)] == c
            &&& forall|j: nat| k < j <= l ==> !dict.contains_key(#[trigger] input.take(j as int))
        },
        longest_known(dict, input, l) is None ==> forall|k: nat|
            1 <= k <= l ==> !dict.contains_key(#[trigger] input.take(k as int)),
    decreases l,
{
    if l > 0 {
        lemma_longest_known(dict, input, (l - 1) as nat);
    }
}

impl Trie {
    pub open spec fn children(&self, i: int) -> Seq<(u8, usize)> {
        self.nodes@[i].children@
    }

    pub open spec fn wf(&self) -> bool {
        let n = self.nodes@.len();
        let paths = self.paths@;
        &&& 1 <= n
        &&& paths.len() == n
        &&& paths[0] == Seq::<u8>::empty()
        &&& forall|i: int, j: int|
            #![trigger self.children(i)[j]]
            0 <= i < n && 0 <= j < self.children(i).len() ==> {
                let c = self.children(i)[j];
                &&& 0 < c.1 < n
                &&& paths[c.1 as int] == paths[i].push(c.0)
            }
        &&& forall|i: int, j: int, k: int|
            #![trigger self.children(i)[j], self.children(i)[k]]
            0 <= i < n && 0 <= j < k < self.children(i).len() ==> self.children(i)[j].0
                < self.children(i)[k].0
        &&& forall|m: int|
            #![trigger paths[m]]
            1 <= m < n ==> paths[m].len() > 0 && exists|p: int, j: int|
                0 <= p < n && 0 <= j < self.children(p).len() && (#[trigger] self.children(p)[j]).0
                    == paths[m].last() && self.children(p)[j].1 == m
        &&& forall|a: int, b: int|
            #![trigger paths[a], paths[b]]
            0 <= a < n && 0 <= b < n && a != b ==> paths[a] != paths[b]
    }

    /// The node that a block leads to, if any.
    pub open spec fn has_node(&self, s: Seq<u8>) -> bool {
        exists|m: int| 0 <= m < self.nodes@.len() && self.paths@[m] == s
    }

    pub open spec fn node_of(&self, s: Seq<u8>) -> int {
        choose|m: int| 0 <= m < self.nodes@.len() && self.paths@[m] == s
    }

    /// The code of a block, if it is in the trie.
    pub open spec fn lookup(&self, s: Seq<u8>) -> Option<u32> {
        if self.has_node(s) {
            self.nodes@[self.node_of(s)].code
        } else {
            None
        }
    }

    pub proof fn lemma_children_sorted(&self, i: int)
        requires
            self.wf(),
            0 <= i < self.nodes@.len(),
        ensures
            forall|j: int, k: int|
                0 <= j < k < self.nodes@[i].children@.len() ==> self.nodes@[i].children@[j].0
                    < self.nodes@[i].children@[k].0,
    {
        assert forall|j: int, k: int|
            0 <= j < k < self.nodes@[i].children@.len() implies self.nodes@[i].children@[j].0
            < self.nodes@[i].children@[k].0 by {
            assert(self.children(i)[j].0 < self.children(i)[k].0);
        }
    }

    /// A trie with the same shape as a well-formed one, codes aside, is well formed.
    pub proof fn lemma_same_shape(&self, other: &Trie)
        requires
            other.wf(),
            self.nodes@.len() == other.nodes@.len(),
            self.paths@ == other.paths@,
            forall|k: int| 0 <= k < self.nodes@.len() ==> #[trigger] self.children(k) == other.children(k),
        ensures
            self.wf(),
    {
        let n = self.nodes@.len();
        let paths = self.paths@;
        assert forall|i: int, j: int|
            0 <= i < n && 0 <= j < self.children(i).len() implies {
            let c = #[trigger] self.children(i)[j];
            &&& 0 < c.1 < n
            &&& paths[c.1 as int] == paths[i].push(c.0)
        } by {
            assert(self.children(i)[j] == other.children(i)[j]);
        }
        assert forall|i: int, j: int, k: int|
            0 <= i < n && 0 <= j < k < self.children(i).len() implies (#[trigger] self.children(i)[j]).0
            < (#[trigger] self.children(i)[k]).0 by {
            assert(self.children(i)[j] == other.children(i)[j]);
            assert(self.children(i)[k] == other.children(i)[k]);
        }
        assert forall|m: int| 1 <= m < n implies (#[trigger] paths[m]).len() > 0 && exists|p: int, j: int|
            0 <= p < n && 0 <= j < self.children(p).len() && (#[trigger] self.children(p)[j]).0
                == paths[m].last() && self.children(p)[j].1 == m by {
            let (p, j) = choose|p: int, j: int|
                0 <= p < n && 0 <= j < other.children(p).len() && (#[trigger] other.children(
                    p,
                )[j]).0 == other.paths@[m].last() && other.children(p)[j].1 == m;
            assert(self.children(p)[j] == other.children(p)[j]);
        }
    }

    /// The blocks of the trie with their codes.
    pub open spec fn as_map(&self) -> Map<Seq<u8>, u32> {
        Map::new(|s: Seq<u8>| self.lookup(s) is Some, |s: Seq<u8>| self.lookup(s)->0)
    }

    pub proof fn lemma_node_of(&self, s: Seq<u8>, m: int)
        requires
            self.wf(),
            0 <= m < self.nodes@.len(),
            self.paths@[m] == s,
        ensures
            self.has_node(s),
            self.node_of(s) == m,
            self.lookup(s) == self.nodes@[m].code,
    {
        let k = self.node_of(s);
        assert(self.paths@[k] == s);
    }

    /// With no node for `t`, no block that extends `t` has a node either.
    pub proof fn lemma_no_extension(&self, t: Seq<u8>, s: Seq<u8>)
        requires
            self.wf(),
            !self.has_node(t),
            t.len() <= s.len(),
            s.take(t.len() as int) == t,
        ensures
            !self.has_node(s),
        decreases s.len() - t.len(),
    {
        if s.len() == t.len() {
            assert(s =~= t);
        } else {
            let s1 = s.drop_last();
            assert(s1.take(t.len() as int) =~= t);
            self.lemma_no_extension(t, s1);
            if self.has_node(s) {
                let m = self.node_of(s);
                assert(self.paths@[m] == s);
                if m == 0 {
                    assert(s.len() == 0);
                } else {
                    let (p, j) = choose|p: int, j: int|
                        0 <= p < self.nodes@.len() && 0 <= j < self.children(p).len() && (
                        #[trigger] self.children(p)[j]).0 == self.paths@[m].last() && self.children(
                            p,
                        )[j].1 == m;
                    assert(self.paths@[m] == self.paths@[p].push(s.last()));
                    assert(self.paths@[p] =~= s1);
                }
            }
        }
    }

    /// An empty trie: only the root.
    pub fn new() -> (r: Trie)
        ensures
            r.wf(),
            r.nodes@.len() == 1,
            r.paths@ == seq![Seq::<u8>::empty()],
            forall|s: Seq<u8>| #[trigger] r.lookup(s) is None,
            r.as_map() == Map::<Seq<u8>, u32>::empty(),
    {
        let mut nodes: Vec<TrieNode> = Vec::new();
        nodes.push(TrieNode { children: Vec::new(), code: None });
        let paths: Ghost<Seq<Seq<u8>>> = Ghost(Seq::<Seq<u8>>::empty().push(Seq::<u8>::empty()));
        let r = Trie { nodes, paths };
        proof {
            assert(r.paths@ =~= seq![Seq::<u8>::empty()]);
            assert forall|s: Seq<u8>| #[trigger] r.lookup(s) is None by {
                if r.has_node(s) {
                    r.lemma_node_of(s, r.node_of(s));
                }
            }
            assert(r.as_map() =~= Map::<Seq<u8>, u32>::empty());
        }
        r
    }

    /// Position of `b` among sorted children, or where it would go.
    fn find_child(children: &Vec<(u8, usize)>, b: u8) -> (r: Result<usize, usize>)
        requires
            forall|j: int, k: int|
                0 <= j < k < children@.len() ==> children@[j].0 < children@[k].0,
        ensures
            match r {
                Ok(pos) => pos < children@.len() && children@[pos as int].0 == b,
                Err(pos) => pos <= children@.len() && (forall|j: int|
                    0 <= j < pos ==> children@[j].0 < b) && (forall|j: int|
                    pos <= j < children@.len() ==> children@[j].0 > b),
            },
    {
        let mut lo: usize = 0;
        let mut hi: usize = children.len();
        while lo < hi
            invariant
                lo <= hi <= children@.len(),
                forall|j: int, k: int|
                    0 <= j < k < children@.len() ==> children@[j].0 < children@[k].0,
                forall|j: int| 0 <= j < lo ==> children@[j].0 < b,
                forall|j: int| hi <= j < children@.len() ==> children@[j].0 > b,
            decreases hi - lo,
        {
            let mid = lo + (hi - lo) / 2;
            let c = children[mid].0;
            if c == b {
                return Ok(mid);
            } else if c < b {
                lo = mid + 1;
            } else {
                hi = mid;
            }
        }
        Err(lo)
    }

    /// Child of node `atual` by byte `b`.
    pub fn child_of(&self, atual: usize, b: u8) -> (r: Option<usize>)
        requires
            self.wf(),
            atual < self.nodes@.len(),
        ensures
            match r {
                Some(c) => c < self.nodes@.len() && self.paths@[c as int] == self.paths@[atual as int].push(
                    b,
                ),
                None => !self.has_node(self.paths@[atual as int].push(b)),
            },
    {
        let children = &self.nodes[atual].children;
        proof {
            self.lemma_children_sorted(atual as int);
        }
        match Self::find_child(children, b) {
            Ok(pos) => {
                proof {
                    assert(self.children(atual as int)[pos as int] == children@[pos as int]);
                }
                Some(children[pos].1)
            },
            Err(pos) => {
                proof {
                    let s = self.paths@[atual as int].push(b);
                    if self.has_node(s) {
                        let m = self.node_of(s);
                        assert(self.paths@[m] == s);
                        assert(m != 0);
                        let (p, j) = choose|p: int, j: int|
                            0 <= p < self.nodes@.len() && 0 <= j < self.children(p).len() && (
                            #[trigger] self.children(p)[j]).0 == self.paths@[m].last()
                                && self.children(p)[j].1 == m;
                        assert(self.paths@[m] == self.paths@[p].push(b));
                        assert(self.paths@[p] =~= self.paths@[m].drop_last());
                        assert(self.paths@[atual as int] =~= self.paths@[m].drop_last());
                        assert(p == atual);
                        assert(self.children(p)[j].0 == b);
                    }
                }
                None
            },
        }
    }

    /// The child of node `atual` by byte `b`, created empty if it is missing.
    /// Nodes already there keep their index, path and code.
    pub fn descend(&mut self, atual: usize, b: u8) -> (r: usize)
        requires
            old(self).wf(),
            atual < old(self).nodes@.len(),
        ensures
            final(self).wf(),
            r < final(self).nodes@.len(),
            final(self).paths@[r as int] == old(self).paths@[atual as int].push(b),
            old(self).has_node(old(self).paths@[atual as int].push(b)) ==> final(self).nodes@.len()
                == old(self).nodes@.len() && r < old(self).nodes@.len(),
            !old(self).has_node(old(self).paths@[atual as int].push(b)) ==> final(self).nodes@.len()
                == old(self).nodes@.len() + 1 && r == old(self).nodes@.len(),
            final(self).paths@.take(old(self).nodes@.len() as int) == old(self).paths@,
            forall|k: int|
                0 <= k < old(self).nodes@.len() ==> #[trigger] final(self).nodes@[k].code
                    == old(self).nodes@[k].code,
            forall|s: Seq<u8>| #[trigger] final(self).lookup(s) == old(self).lookup(s),
    {
        match self.child_of(atual, b) {
            Some(c) => {
                proof {
                    self.lemma_node_of(self.paths@[atual as int].push(b), c as int);
                    assert(self.paths@.take(self.nodes@.len() as int) =~= self.paths@);
                }
                c
            },
            None => {
                let idx = self.nodes.len();
                let ghost old_t = *self;
                let ghost newpath = self.paths@[atual as int].push(b);
                proof {
                    self.lemma_children_sorted(atual as int);
                }
                let pos = match Self::find_child(&self.nodes[atual].children, b) {
                    Ok(p) => {
                        proof {
                            assert(self.children(atual as int)[p as int].0 == b);
                            let c = self.children(atual as int)[p as int];
                            assert(self.paths@[c.1 as int] == newpath);
                            self.lemma_node_of(newpath, c.1 as int);
                        }
                        p
                    },
                    Err(p) => p,
                };
                self.nodes.push(TrieNode { children: Vec::new(), code: None });
                let mut node = TrieNode { children: Vec::new(), code: None };
                self.nodes.set_and_swap(atual, &mut node);
                node.children.insert(pos, (b, idx));
                self.nodes.set_and_swap(atual, &mut node);
                proof {
                    self.paths@ = old_t.paths@.push(newpath);
                    assert(self.nodes@.len() == old_t.nodes@.len() + 1);
                    assert(forall|k: int|
                        0 <= k < old_t.nodes@.len() && k != atual ==> self.nodes@[k]
                            == old_t.nodes@[k]);
                    assert(self.children(atual as int) == old_t.children(atual as int).insert(
                        pos as int,
                        (b, idx),
                    ));
                    self.lemma_insert_child(old_t, atual as int, pos as int, b, idx);
                    assert(self.paths@.take(old_t.nodes@.len() as int) =~= old_t.paths@);
                }
                idx
            },
        }
    }

    /// Inserts `bloco` with `code`; any earlier code of the same block is replaced.
    pub fn insert(&mut self, bloco: &[u8], code: u32)
        requires
            old(self).wf(),
        ensures
            final(self).wf(),
            final(self).as_map() == old(self).as_map().insert(bloco@, code),
            forall|s: Seq<u8>|
                #[trigger] final(self).lookup(s) == if s == bloco@ {
                    Some(code)
                } else {
                    old(self).lookup(s)
                },
    {
        let mut atual: usize = 0;
        let mut i: usize = 0;
        proof {
            assert(bloco@.take(0) =~= Seq::<u8>::empty());
        }
        while i < bloco.len()
            invariant
                self.wf(),
                i <= bloco@.len(),
                atual < self.nodes@.len(),
                self.paths@[atual as int] == bloco@.take(i as int),
                forall|s: Seq<u8>| #[trigger] self.lookup(s) == old(self).lookup(s),
            decreases bloco@.len() - i,
        {
            let b = bloco[i];
            proof {
                assert(bloco@.take(i + 1) =~= bloco@.take(i as int).push(b));
            }
            atual = self.descend(atual, b);
            i = i + 1;
        }
        proof {
            assert(bloco@.take(bloco@.len() as int) =~= bloco@);
        }
        let ghost before = *self;
        let mut node = TrieNode { children: Vec::new(), code: None };
        self.nodes.set_and_swap(atual, &mut node);
        node.code = Some(code);
        self.nodes.set_and_swap(atual, &mut node);
        proof {
            assert(self.paths@ == before.paths@);
            assert(forall|k: int|
                0 <= k < self.nodes@.len() && k != atual ==> self.nodes@[k] == before.nodes@[k]);
            assert(forall|k: int|
                0 <= k < self.nodes@.len() ==> #[trigger] self.children(k) == before.children(k));
            self.lemma_same_shape(&before);
            assert forall|s: Seq<u8>| #[trigger]
                self.lookup(s) == if s == bloco@ {
                    Some(code)
                } else {
                    old(self).lookup(s)
                } by {
                assert(before.lookup(s) == old(self).lookup(s));
                if s == bloco@ {
                    self.lemma_node_of(s, atual as int);
                    assert(self.nodes@[atual as int].code == Some(code));
                } else {
                    if self.has_node(s) {
                        let m = self.node_of(s);
                        assert(self.paths@[m] == s);
                        assert(m != atual);
                        before.lemma_node_of(s, m);
                        self.lemma_node_of(s, m);
                    } else {
                        assert(!before.has_node(s));
                    }
                }
            }
            assert(self.as_map() =~= old(self).as_map().insert(bloco@, code));
        }
    }

    /// Adding the child `(b, idx)` at `pos` of node `atual`, with `idx` a new empty node,
    /// keeps the trie well formed and changes no lookup.
    proof fn lemma_insert_child(&self, old_t: Trie, atual: int, pos: int, b: u8, idx: usize)
        requires
            old_t.wf(),
            0 <= atual < old_t.nodes@.len(),
            idx == old_t.nodes@.len(),
            self.nodes@.len() == idx + 1,
            self.paths@ == old_t.paths@.push(old_t.paths@[atual].push(b)),
            !old_t.has_node(old_t.paths@[atual].push(b)),
            0 <= pos <= old_t.children(atual).len(),
            forall|j: int| 0 <= j < pos ==> old_t.children(atual)[j].0 < b,
            forall|j: int| pos <= j < old_t.children(atual).len() ==> old_t.children(atual)[j].0 > b,
            self.children(atual) == old_t.children(atual).insert(pos, (b, idx)),
            self.nodes@[atual].code == old_t.nodes@[atual].code,
            self.children(idx as int) == Seq::<(u8, usize)>::empty(),
            self.nodes@[idx as int].code is None,
            forall|k: int| 0 <= k < idx && k != atual ==> self.nodes@[k] == old_t.nodes@[k],
        ensures
            self.wf(),
            forall|s: Seq<u8>| #[trigger] self.lookup(s) == old_t.lookup(s),
    {
        let n = self.nodes@.len();
        let paths = self.paths@;
        let newpath = old_t.paths@[atual].push(b);
        assert forall|k: int| 0 <= k < idx implies paths[k] == old_t.paths@[k] by {}
        assert forall|k: int| 0 <= k < idx && k != atual implies #[trigger] self.children(k)
            == old_t.children(k) by {}
        assert forall|i: int, j: int|
            0 <= i < n && 0 <= j < self.children(i).len() implies {
            let c = #[trigger] self.children(i)[j];
            &&& 0 < c.1 < n
            &&& paths[c.1 as int] == paths[i].push(c.0)
        } by {
            let c = self.children(i)[j];
            if i == atual {
                assert(paths[i] == old_t.paths@[i]);
                if j < pos {
                    assert(c == old_t.children(i)[j]);
                    assert(paths[c.1 as int] == old_t.paths@[c.1 as int]);
                    assert(0 < c.1 < n);
                    assert(paths[c.1 as int] == paths[i].push(c.0));
                } else if j == pos {
                    assert(c == (b, idx));
                    assert(paths[idx as int] == newpath);
                    assert(0 < c.1 < n);
                    assert(paths[c.1 as int] == paths[i].push(c.0));
                } else {
                    assert(c == old_t.children(i)[j - 1]);
                    assert(paths[c.1 as int] == old_t.paths@[c.1 as int]);
                }
            } else if i < idx {
                assert(c == old_t.children(i)[j]);
                assert(paths[c.1 as int] == old_t.paths@[c.1 as int]);
                assert(paths[i] == old_t.paths@[i]);
            }
        }
        assert forall|i: int, j: int, k: int|
            0 <= i < n && 0 <= j < k < self.children(i).len() implies (#[trigger] self.children(i)[j]).0
            < (#[trigger] self.children(i)[k]).0 by {
            if i == atual {
                let oc = old_t.children(i);
                if j < pos && k < pos {
                    assert(self.children(i)[j] == oc[j] && self.children(i)[k] == oc[k]);
                } else if j < pos && k == pos {
                    assert(self.children(i)[j] == oc[j]);
                } else if j < pos && k > pos {
                    assert(self.children(i)[j] == oc[j] && self.children(i)[k] == oc[k - 1]);
                } else if j == pos {
                    assert(self.children(i)[k] == oc[k - 1]);
                } else {
                    assert(self.children(i)[j] == oc[j - 1] && self.children(i)[k] == oc[k - 1]);
                }
            } else if i < idx {
                assert(self.children(i)[j] == old_t.children(i)[j]);
                assert(self.children(i)[k] == old_t.children(i)[k]);
            }
        }
        assert forall|m: int| 1 <= m < n implies (#[trigger] paths[m]).len() > 0 && exists|p: int, j: int|
            0 <= p < n && 0 <= j < self.children(p).len() && (#[trigger] self.children(p)[j]).0
                == paths[m].last() && self.children(p)[j].1 == m by {
            if m == idx {
                assert(self.children(atual)[pos] == (b, idx));
            } else {
                assert(old_t.paths@[m] == paths[m]);
                let (p, j) = choose|p: int, j: int|
                    0 <= p < old_t.nodes@.len() && 0 <= j < old_t.children(p).len() && (
                    #[trigger] old_t.children(p)[j]).0 == old_t.paths@[m].last()
                        && old_t.children(p)[j].1 == m;
                if p == atual {
                    if j < pos {
                        assert(self.children(p)[j] == old_t.children(p)[j]);
                    } else {
                        assert(self.children(p)[j + 1] == old_t.children(p)[j]);
                    }
                } else {
                    assert(self.children(p)[j] == old_t.children(p)[j]);
                }
            }
        }
        assert forall|a: int, c: int|
            0 <= a < n && 0 <= c < n && a != c implies #[trigger] paths[a] != #[trigger] paths[c] by {
            if a == idx && c < idx {
                if paths[c] == newpath {
                    old_t.lemma_node_of(newpath, c);
                }
            } else if c == idx && a < idx {
                if paths[a] == newpath {
                    old_t.lemma_node_of(newpath, a);
                }
            }
        }
        assert(self.wf());
        assert forall|s: Seq<u8>| #[trigger] self.lookup(s) == old_t.lookup(s) by {
            if s == newpath {
                self.lemma_node_of(s, idx as int);
            } else if old_t.has_node(s) {
                let m = old_t.node_of(s);
                assert(old_t.paths@[m] == s);
                self.lemma_node_of(s, m);
                old_t.lemma_node_of(s, m);
            } else if self.has_node(s) {
                let m = self.node_of(s);
                assert(paths[m] == s);
                assert(m != idx);
                assert(old_t.paths@[m] == s);
            }
        }
    }

    /// Longest block of the trie that is a prefix of `input`, with its code and length.
    pub fn longest_match(&self, input: &[u8]) -> (r: Option<(u32, usize)>)
        requires
            self.wf(),
        ensures
            match longest_known(self.as_map(), input@, input@.len()) {
                Some((c, l)) => r == Some((c, l as usize)),
                None => r is None,
            },
    {
        let ghost look = self.as_map();
        let mut atual: usize = 0;
        let mut melhor: Option<(u32, usize)> = None;
        let mut i: usize = 0;
        while i < input.len()
            invariant_except_break
                self.wf(),
                i <= input@.len(),
                atual < self.nodes@.len(),
                self.paths@[atual as int] == input@.take(i as int),
                look == self.as_map(),
                match longest_known(look, input@, i as nat) {
                    Some((c, l)) => melhor == Some((c, l as usize)),
                    None => melhor is None,
                },
            ensures
                match longest_known(look, input@, input@.len()) {
                    Some((c, l)) => melhor == Some((c, l as usize)),
                    None => melhor is None,
                },
            decreases input@.len() - i,
        {
            let b = input[i];
            proof {
                assert(input@.take(i + 1) =~= input@.take(i as int).push(b));
            }
            match self.child_of(atual, b) {
                Some(c) => {
                    atual = c;
                    proof {
                        self.lemma_node_of(input@.take(i + 1), c as int);
                    }
                    match self.nodes[atual].code {
                        Some(code) => {
                            melhor = Some((code, i + 1));
                        },
                        None => {},
                    }
                },
                None => {
                    proof {
                        assert forall|k: nat| i < k <= input@.len() implies !self.has_node(
                            #[trigger] input@.take(k as int),
                        ) by {
                            assert(input@.take(k as int).take(i + 1) =~= input@.take(i + 1));
                            self.lemma_no_extension(input@.take(i + 1), input@.take(k as int));
                        }
                        self.lemma_longest_unchanged(input@, i as nat, input@.len());
                    }
                    break ;
                }
            }
            i = i + 1;
        }
        melhor
    }

    proof fn lemma_longest_unchanged(&self, input: Seq<u8>, i: nat, l: nat)
        requires
            i <= l <= input.len(),
            forall|k: nat| i < k <= input.len() ==> !self.has_node(#[trigger] input.take(k as int)),
        ensures
            longest_known(self.as_map(), input, l) == longest_known(self.as_map(), input, i),
        decreases l,
    {
        if l > i {
            assert(!self.has_node(input.take(l as int)));
            assert(!self.as_map().contains_key(input.take(l as int)));
            self.lemma_longest_unchanged(input, i, (l - 1) as nat);
        }
    }
}

} // verus!
