//! Candidate blocks of an M2 table, counted on a training corpus.
//!
//! Candidates come from n-grams of 1 to [`MAX_MATCH`] bytes and from words
//! (runs without ASCII whitespace or punctuation, cut at [`MAX_WORD`]
//! bytes), each seen at least [`MIN_FREQ`] times. Both are counted in a byte
//! trie whose nodes carry a count, so every count is exact.

use vstd::prelude::*;
use crate::table::{MAX_MATCH, MAX_WORD, MIN_FREQ};
use crate::trie::Trie;

verus! {

/// `s` occurs in `t` at position `i`.
pub open spec fn occurs_at(t: Seq<u8>, s: Seq<u8>, i: int) -> bool {
    0 <= i && i + s.len() <= t.len() && t.subrange(i, i + s.len()) == s
}

/// Occurrences of `s` in `t` that start before position `k`, overlapping ones included.
pub open spec fn occ(t: Seq<u8>, s: Seq<u8>, k: nat) -> nat
    decreases k,
{
    if k == 0 {
        0
    } else {
        occ(t, s, (k - 1) as nat) + if occurs_at(t, s, k - 1) {
            1nat
        } else {
            0nat
        }
    }
}

/// Occurrences of `s` in `t`.
pub open spec fn ngram_count(t: Seq<u8>, s: Seq<u8>) -> nat {
    occ(t, s, t.len())
}

/// No more occurrences than positions.
pub proof fn lemma_occ_bound(t: Seq<u8>, s: Seq<u8>, k: nat)
    ensures
        occ(t, s, k) <= k,
    decreases k,
{
    if k > 0 {
        lemma_occ_bound(t, s, (k - 1) as nat);
    }
}

/// A trie of byte blocks whose nodes carry a count, the position of one
/// occurrence of their block, and their depth.
pub(crate) struct CountTrie {
    pub(crate) trie: Trie,
    pub(crate) counts: Vec<u64>,
    pub(crate) origin: Vec<usize>,
    pub(crate) depth: Vec<usize>,
}

impl CountTrie {
    /// Number of nodes.
    pub(crate) open spec fn len(&self) -> nat {
        self.trie.nodes@.len()
    }

    /// Block of node `m`.
    pub(crate) open spec fn path(&self, m: int) -> Seq<u8> {
        self.trie.paths@[m]
    }

    /// The trie is well formed, the side vectors follow it, and every block
    /// but the root's occurs in `t` at its origin.
    pub(crate) open spec fn shape_ok(&self, t: Seq<u8>) -> bool {
        &&& self.trie.wf()
        &&& self.counts@.len() == self.len()
        &&& self.origin@.len() == self.len()
        &&& self.depth@.len() == self.len()
        &&& forall|m: int| 0 <= m < self.len() ==> #[trigger] self.depth@[m] == self.path(m).len()
        &&& forall|m: int|
            1 <= m < self.len() ==> occurs_at(t, #[trigger] self.path(m), self.origin@[m] as int)
    }

    /// Every node holds the occurrences before `i` of its block, of at most
    /// [`MAX_MATCH`] bytes, and every such block that occurs before `i` has a node.
    pub(crate) open spec fn counts_ngrams(&self, t: Seq<u8>, i: nat) -> bool {
        &&& self.shape_ok(t)
        &&& forall|m: int|
            1 <= m < self.len() ==> #[trigger] self.counts@[m] == occ(t, self.path(m), i)
                && self.path(m).len() <= MAX_MATCH
        &&& forall|s: Seq<u8>|
            1 <= s.len() <= MAX_MATCH && occ(t, s, i) > 0 ==> #[trigger] self.trie.has_node(s)
    }

    /// An empty counter: the root alone.
    pub(crate) fn new() -> (r: CountTrie)
        ensures
            r.len() == 1,
            r.trie.wf(),
            r.counts@.len() == 1,
            r.origin@.len() == 1,
            r.depth@ == seq![0usize],
            forall|s: Seq<u8>| #[trigger] r.trie.has_node(s) ==> s.len() == 0,
    {
        let trie = Trie::new();
        let mut counts: Vec<u64> = Vec::new();
        counts.push(0);
        let mut origin: Vec<usize> = Vec::new();
        origin.push(0);
        let mut depth: Vec<usize> = Vec::new();
        depth.push(0);
        let r = CountTrie { trie, counts, origin, depth };
        proof {
            assert(r.depth@ =~= seq![0usize]);
            assert forall|s: Seq<u8>| #[trigger] r.trie.has_node(s) implies s.len() == 0 by {
                let m = r.trie.node_of(s);
                assert(r.trie.paths@[m] == s);
            }
        }
        r
    }

    /// The child of node `atual` by byte `b`, created with count 0, origin
    /// `o` and depth `d` when it is missing.
    pub(crate) fn child(&mut self, t: Ghost<Seq<u8>>, atual: usize, b: u8, o: usize, d: usize) -> (r:
        usize)
        requires
            old(self).shape_ok(t@),
            atual < old(self).len(),
            d == old(self).path(atual as int).len() + 1,
            occurs_at(t@, old(self).path(atual as int).push(b), o as int),
        ensures
            final(self).shape_ok(t@),
            r < final(self).len(),
            final(self).path(r as int) == old(self).path(atual as int).push(b),
            old(self).trie.has_node(old(self).path(atual as int).push(b)) ==> final(self).len()
                == old(self).len() && r < old(self).len(),
            !old(self).trie.has_node(old(self).path(atual as int).push(b)) ==> final(self).len()
                == old(self).len() + 1 && r == old(self).len() && final(self).counts@[r as int] == 0,
            forall|m: int| 0 <= m < old(self).len() ==> #[trigger] final(self).path(m) == old(self).path(m),
            forall|m: int|
                0 <= m < old(self).len() ==> #[trigger] final(self).counts@[m] == old(self).counts@[m],
            forall|s: Seq<u8>|
                #[trigger] final(self).trie.has_node(s) <==> (old(self).trie.has_node(s) || s
                    == old(self).path(atual as int).push(b)),
    {
        let ghost old_self = *self;
        let ghost p = self.path(atual as int).push(b);
        let c = self.trie.descend(atual, b);
        let ghost n0 = old_self.len();
        proof {
            assert forall|m: int| 0 <= m < n0 implies #[trigger] self.path(m) == old_self.path(m) by {
                assert(self.trie.paths@.take(n0 as int)[m] == old_self.trie.paths@[m]);
            }
        }
        if c == self.counts.len() {
            self.counts.push(0);
            self.origin.push(o);
            self.depth.push(d);
        }
        proof {
            let n = self.len();
            assert forall|m: int| 0 <= m < n implies #[trigger] self.depth@[m] == self.path(m).len() by {
                if m < n0 {
                    assert(self.depth@[m] == old_self.depth@[m]);
                }
            }
            assert forall|m: int| 1 <= m < n implies occurs_at(
                t@,
                #[trigger] self.path(m),
                self.origin@[m] as int,
            ) by {
                if m < n0 {
                    assert(self.origin@[m] == old_self.origin@[m]);
                    assert(occurs_at(t@, old_self.path(m), old_self.origin@[m] as int));
                    assert(self.path(m) == old_self.path(m));
                } else {
                    assert(m == c);
                    assert(self.path(m) == p);
                    assert(self.origin@[m] == o);
                }
            }
            assert forall|s: Seq<u8>| #[trigger]
                self.trie.has_node(s) <==> (old_self.trie.has_node(s) || s == p) by {
                if self.trie.has_node(s) {
                    let m = self.trie.node_of(s);
                    assert(self.trie.paths@[m] == s);
                    if m < n0 {
                        old_self.trie.lemma_node_of(s, m);
                    }
                }
                if old_self.trie.has_node(s) {
                    let m = old_self.trie.node_of(s);
                    assert(old_self.trie.paths@[m] == s);
                    assert(self.path(m) == s);
                    self.trie.lemma_node_of(s, m);
                }
                if s == p {
                    self.trie.lemma_node_of(s, c as int);
                }
            }
        }
        c
    }

    /// Goes from node `atual`, the block of `d` bytes at `i`, to the node of
    /// the block of `d + 1` bytes at `i`, creating it if missing, and counts
    /// one more occurrence of it.
    pub(crate) fn advance(&mut self, t: Ghost<Seq<u8>>, i: usize, d: usize, atual: usize, byte: u8) -> (c:
        usize)
        requires
            old(self).shape_ok(t@),
            atual < old(self).len(),
            old(self).path(atual as int) == t@.subrange(i as int, (i + d) as int),
            i + d < t@.len(),
            byte == t@[i + d],
            d < MAX_MATCH,
            t@.len() <= usize::MAX,
            forall|m: int|
                1 <= m < old(self).len() && old(self).path(m).len() == d + 1 ==> #[trigger] old(
                    self,
                ).counts@[m] <= i,
        ensures
            walk_moved(*old(self), *final(self), t@, i as nat, d as nat, atual as int, c as int),
    {
        let ghost before = *self;
        let ghost p = t@.subrange(i as int, (i + d + 1) as int);
        proof {
            assert(p =~= self.path(atual as int).push(byte));
            assert(occurs_at(t@, p, i as int));
        }
        let c = self.child(t, atual, byte, i, d + 1);
        proof {
            if before.trie.has_node(p) {
                let k = before.trie.node_of(p);
                assert(before.trie.paths@[k] == p);
                assert(k == c) by {
                    assert(self.path(k) == p);
                    assert(self.trie.paths@[k] == self.trie.paths@[c as int]);
                }
                assert(before.counts@[c as int] <= i);
                assert(self.counts@[c as int] == before.counts@[c as int]);
            }
        }
        let ghost mid = *self;
        self.bump(c);
        proof {
            assert(self.shape_ok(t@));
            assert(self.trie == mid.trie);
            assert(self.counts@[c as int] == mid.counts@[c as int] + 1);
            assert forall|m: int| 0 <= m < before.len() implies #[trigger] self.path(m) == before.path(m) by {
                assert(mid.path(m) == before.path(m));
            }
            assert forall|m: int| 0 <= m < before.len() && m != c implies #[trigger] self.counts@[m]
                == before.counts@[m] by {
                assert(mid.counts@[m] == before.counts@[m]);
            }
            assert forall|s: Seq<u8>| #[trigger] self.trie.has_node(s) <==> (before.trie.has_node(s)
                || s == p) by {
                assert(mid.trie.has_node(s) <==> (before.trie.has_node(s) || s == p));
            }
        }
        c
    }

    /// Adds one to the count of node `c`.
    pub(crate) fn bump(&mut self, c: usize)
        requires
            c < old(self).counts@.len(),
            old(self).counts@[c as int] < u64::MAX,
        ensures
            final(self).trie == old(self).trie,
            final(self).origin == old(self).origin,
            final(self).depth == old(self).depth,
            final(self).counts@ == old(self).counts@.update(c as int, (old(self).counts@[c as int] + 1) as u64),
            forall|t: Seq<u8>| old(self).shape_ok(t) ==> #[trigger] final(self).shape_ok(t),
    {
        let ghost before = *self;
        let v = self.counts[c];
        self.counts.set(c, v + 1);
        proof {
            assert forall|t: Seq<u8>| before.shape_ok(t) implies #[trigger] self.shape_ok(t) by {
                assert forall|m: int| 0 <= m < self.len() implies #[trigger] self.depth@[m] == self.path(
                    m,
                ).len() by {
                    assert(before.depth@[m] == before.path(m).len());
                }
                assert forall|m: int| 1 <= m < self.len() implies occurs_at(
                    t,
                    #[trigger] self.path(m),
                    self.origin@[m] as int,
                ) by {
                    assert(occurs_at(t, before.path(m), before.origin@[m] as int));
                }
            }
        }
    }
}

/// A block occurs at `i` after `i` if and only if it is the bytes at `i`.
proof fn lemma_occ_step(t: Seq<u8>, s: Seq<u8>, i: nat)
    ensures
        occ(t, s, i + 1) == occ(t, s, i) + if occurs_at(t, s, i as int) {
            1nat
        } else {
            0nat
        },
{
}

/// State of the walk that counts the n-grams starting at `i`, `d` bytes in.
pub(crate) open spec fn walk_inv(ct: CountTrie, t: Seq<u8>, i: nat, d: nat, atual: int) -> bool {
    &&& ct.shape_ok(t)
    &&& 0 <= atual < ct.len()
    &&& ct.path(atual) == t.subrange(i as int, (i + d) as int)
    &&& forall|m: int|
        1 <= m < ct.len() ==> #[trigger] ct.counts@[m] == occ(t, ct.path(m), i) + (if ct.path(m).len()
            <= d && occurs_at(t, ct.path(m), i as int) {
            1nat
        } else {
            0nat
        }) && ct.path(m).len() <= MAX_MATCH
    &&& forall|s: Seq<u8>|
        1 <= s.len() <= MAX_MATCH && occ(t, s, i) > 0 ==> #[trigger] ct.trie.has_node(s)
    &&& forall|e: int| 0 <= e <= d ==> #[trigger] ct.trie.has_node(t.subrange(i as int, i + e))
}

/// How the counter changed in one step of the walk: node `c` is the child of
/// `atual` by the next byte, possibly new, and its count went up by one.
pub(crate) open spec fn walk_moved(
    before: CountTrie,
    after: CountTrie,
    t: Seq<u8>,
    i: nat,
    d: nat,
    atual: int,
    c: int,
) -> bool {
    let p = t.subrange(i as int, (i + d + 1) as int);
    &&& after.shape_ok(t)
    &&& 0 <= c < after.len()
    &&& after.path(c) == p
    &&& before.trie.has_node(p) ==> after.len() == before.len() && c < before.len()
        && after.counts@[c] == before.counts@[c] + 1
    &&& !before.trie.has_node(p) ==> after.len() == before.len() + 1 && c == before.len()
        && after.counts@[c] == 1
    &&& forall|m: int| 0 <= m < before.len() ==> #[trigger] after.path(m) == before.path(m)
    &&& forall|m: int|
        0 <= m < before.len() && m != c ==> #[trigger] after.counts@[m] == before.counts@[m]
    &&& forall|s: Seq<u8>| #[trigger] after.trie.has_node(s) <==> (before.trie.has_node(s) || s == p)
}

/// The count of one node after a step of the walk.
proof fn lemma_walk_step_node(
    before: CountTrie,
    after: CountTrie,
    t: Seq<u8>,
    i: nat,
    d: nat,
    atual: int,
    c: int,
    m: int,
)
    requires
        walk_inv(before, t, i, d, atual),
        walk_moved(before, after, t, i, d, atual, c),
        i + d < t.len(),
        d < MAX_MATCH,
        1 <= m < after.len(),
    ensures
        after.counts@[m] == occ(t, after.path(m), i) + (if after.path(m).len() <= d + 1 && occurs_at(
            t,
            after.path(m),
            i as int,
        ) {
            1nat
        } else {
            0nat
        }),
        after.path(m).len() <= MAX_MATCH,
{
    let p = t.subrange(i as int, (i + d + 1) as int);
    assert(occurs_at(t, p, i as int));
    if m == c {
        if before.trie.has_node(p) {
            let cm = before.counts@[c];
            assert(before.path(c) == p);
        } else {
            assert(occ(t, p, i) == 0);
        }
    } else {
        assert(m < before.len());
        let cm = before.counts@[m];
        assert(after.path(m) == before.path(m));
        if after.path(m).len() == d + 1 && occurs_at(t, after.path(m), i as int) {
            assert(after.path(m) == p);
            assert(after.trie.paths@[m] == after.trie.paths@[c]);
        }
    }
}

/// One step of the walk keeps its invariant, one byte further.
proof fn lemma_walk_step(
    before: CountTrie,
    after: CountTrie,
    t: Seq<u8>,
    i: nat,
    d: nat,
    atual: int,
    c: int,
)
    requires
        walk_inv(before, t, i, d, atual),
        walk_moved(before, after, t, i, d, atual, c),
        i + d < t.len(),
        d < MAX_MATCH,
    ensures
        walk_inv(after, t, i, d + 1, c),
{
    let p = t.subrange(i as int, (i + d + 1) as int);
    assert forall|m: int| 1 <= m < after.len() implies #[trigger] after.counts@[m] == occ(
        t,
        after.path(m),
        i,
    ) + (if after.path(m).len() <= d + 1 && occurs_at(t, after.path(m), i as int) {
        1nat
    } else {
        0nat
    }) && after.path(m).len() <= MAX_MATCH by {
        lemma_walk_step_node(before, after, t, i, d, atual, c, m);
    }
    assert forall|s: Seq<u8>| 1 <= s.len() <= MAX_MATCH && occ(t, s, i) > 0 implies #[trigger] after.trie.has_node(
        s,
    ) by {
        assert(before.trie.has_node(s));
    }
    assert forall|e: int| 0 <= e <= d + 1 implies #[trigger] after.trie.has_node(
        t.subrange(i as int, i + e),
    ) by {
        if e == d + 1 {
            assert(t.subrange(i as int, i + e) == p);
        } else {
            assert(before.trie.has_node(t.subrange(i as int, i + e)));
        }
    }
}

/// One byte further in the walk: the node of the longer n-gram gets one more.
fn walk_step(ct: &mut CountTrie, t: &[u8], i: usize, d: usize, atual: usize) -> (c: usize)
    requires
        walk_inv(*old(ct), t@, i as nat, d as nat, atual as int),
        i + d < t@.len(),
        d < MAX_MATCH,
    ensures
        walk_inv(*final(ct), t@, i as nat, (d + 1) as nat, c as int),
{
    let n = t.len();
    assert(i + d < n);
    let byte = t[i + d];
    let ghost before = *ct;
    proof {
        assert forall|m: int| 1 <= m < ct.len() && ct.path(m).len() == d + 1 implies #[trigger] ct.counts@[m]
            <= i by {
            lemma_occ_bound(t@, ct.path(m), i as nat);
        }
    }
    let c = ct.advance(Ghost(t@), i, d, atual, byte);
    proof {
        lemma_walk_step(before, *ct, t@, i as nat, d as nat, atual as int, c as int);
    }
    c
}

/// The walk from `i` is done when it has run out of bytes or of length.
pub(crate) open spec fn walk_limit(t: Seq<u8>, i: nat) -> nat {
    if t.len() - i < MAX_MATCH {
        (t.len() - i) as nat
    } else {
        MAX_MATCH as nat
    }
}

/// At the end of the walk from `i`, the count of node `m` holds up to `i + 1`.
proof fn lemma_walk_done_node(ct: CountTrie, t: Seq<u8>, i: nat, atual: int, m: int)
    requires
        walk_inv(ct, t, i, walk_limit(t, i), atual),
        i < t.len(),
        1 <= m < ct.len(),
    ensures
        ct.counts@[m] == occ(t, ct.path(m), i + 1),
{
    lemma_occ_step(t, ct.path(m), i);
    let cm = ct.counts@[m];
    assert(ct.path(m).len() <= MAX_MATCH);
    if occurs_at(t, ct.path(m), i as int) {
        assert(ct.path(m).len() <= walk_limit(t, i));
    }
}

/// At the end of the walk from `i`, every block that occurs before `i + 1` has a node.
proof fn lemma_walk_done_block(ct: CountTrie, t: Seq<u8>, i: nat, atual: int, s: Seq<u8>)
    requires
        walk_inv(ct, t, i, walk_limit(t, i), atual),
        i < t.len(),
        1 <= s.len() <= MAX_MATCH,
        occ(t, s, i + 1) > 0,
    ensures
        ct.trie.has_node(s),
{
    lemma_occ_step(t, s, i);
    if occ(t, s, i) == 0 {
        assert(occurs_at(t, s, i as int));
        assert(s == t.subrange(i as int, (i + s.len()) as int));
        assert(s.len() <= walk_limit(t, i));
    }
}

/// At the end of the walk from `i`, every count holds up to `i + 1`.
proof fn lemma_walk_done(ct: CountTrie, t: Seq<u8>, i: nat, atual: int)
    requires
        walk_inv(ct, t, i, walk_limit(t, i), atual),
        i < t.len(),
    ensures
        ct.counts_ngrams(t, i + 1),
{
    assert forall|m: int| 1 <= m < ct.len() implies #[trigger] ct.counts@[m] == occ(
        t,
        ct.path(m),
        i + 1,
    ) && ct.path(m).len() <= MAX_MATCH by {
        lemma_walk_done_node(ct, t, i, atual, m);
    }
    assert forall|s: Seq<u8>| 1 <= s.len() <= MAX_MATCH && occ(t, s, i + 1) > 0 implies #[trigger] ct.trie.has_node(
        s,
    ) by {
        lemma_walk_done_block(ct, t, i, atual, s);
    }
}

/// Counts every n-gram of 1 to [`MAX_MATCH`] bytes of `t`.
pub(crate) fn count_ngrams(t: &[u8]) -> (r: CountTrie)
    ensures
        r.counts_ngrams(t@, t@.len()),
{
    let mut ct = CountTrie::new();
    let n = t.len();
    let mut i: usize = 0;
    proof {
        assert forall|s: Seq<u8>| 1 <= s.len() <= MAX_MATCH && occ(t@, s, 0) > 0 implies #[trigger] ct.trie.has_node(
            s,
        ) by {}
    }
    while i < n
        invariant
            n == t@.len(),
            i <= n,
            ct.counts_ngrams(t@, i as nat),
        decreases n - i,
    {
        let lim = if n - i < MAX_MATCH {
            n - i
        } else {
            MAX_MATCH
        };
        let mut atual: usize = 0;
        let mut d: usize = 0;
        proof {
            assert(t@.subrange(i as int, i as int) =~= Seq::<u8>::empty());
            ct.trie.lemma_node_of(Seq::<u8>::empty(), 0);
            assert forall|m: int| 1 <= m < ct.len() implies #[trigger] ct.counts@[m] == occ(
                t@,
                ct.path(m),
                i as nat,
            ) + (if ct.path(m).len() <= 0 && occurs_at(t@, ct.path(m), i as int) {
                1nat
            } else {
                0nat
            }) && ct.path(m).len() <= MAX_MATCH by {}
            assert forall|e: int| 0 <= e <= 0 implies #[trigger] ct.trie.has_node(
                t@.subrange(i as int, i + e),
            ) by {
                assert(t@.subrange(i as int, i + e) =~= Seq::<u8>::empty());
            }
        }
        while d < lim
            invariant
                n == t@.len(),
                i < n,
                lim <= MAX_MATCH,
                i + lim <= n,
                d <= lim,
                walk_inv(ct, t@, i as nat, d as nat, atual as int),
            decreases lim - d,
        {
            atual = walk_step(&mut ct, t, i, d, atual);
            d = d + 1;
        }
        proof {
            lemma_walk_done(ct, t@, i as nat, atual as int);
        }
        i = i + 1;
    }
    ct
}

/// ASCII whitespace (as `u8::is_ascii_whitespace` has it) or ASCII punctuation.
pub open spec fn is_separator(c: u8) -> bool {
    ||| c == 0x20 || c == 0x09 || c == 0x0A || c == 0x0C || c == 0x0D
    ||| 0x21 <= c <= 0x2F
    ||| 0x3A <= c <= 0x40
    ||| 0x5B <= c <= 0x60
    ||| 0x7B <= c <= 0x7E
}

/// `true` for the bytes that end a word.
fn is_sep(c: u8) -> (r: bool)
    ensures
        r == is_separator(c),
{
    c == 0x20 || c == 0x09 || c == 0x0A || c == 0x0C || c == 0x0D || (0x21 <= c && c <= 0x2F) || (0x3A
        <= c && c <= 0x40) || (0x5B <= c && c <= 0x60) || (0x7B <= c && c <= 0x7E)
}

/// First separator at or after `i`, or the end of `t`.
pub open spec fn word_end(t: Seq<u8>, i: nat) -> nat
    decreases t.len() - i,
{
    if i >= t.len() || is_separator(t[i as int]) {
        i
    } else {
        word_end(t, i + 1)
    }
}

/// A word starts at `i`: a byte that is no separator, first or after a separator.
pub open spec fn word_starts(t: Seq<u8>, i: int) -> bool {
    &&& 0 <= i < t.len()
    &&& !is_separator(t[i])
    &&& (i == 0 || is_separator(t[i - 1]))
}

/// The word that starts at `i`, cut at [`MAX_WORD`] bytes.
pub open spec fn word_at(t: Seq<u8>, i: nat) -> Seq<u8> {
    let e = word_end(t, i);
    t.subrange(i as int, if e < i + MAX_WORD {
        e as int
    } else {
        i + MAX_WORD
    })
}

/// Words equal to `w` that start before `k`.
pub open spec fn word_occ(t: Seq<u8>, w: Seq<u8>, k: nat) -> nat
    decreases k,
{
    if k == 0 {
        0
    } else {
        word_occ(t, w, (k - 1) as nat) + if word_starts(t, k - 1) && word_at(t, (k - 1) as nat) == w {
            1nat
        } else {
            0nat
        }
    }
}

/// Words of `t` equal to `w`.
pub open spec fn word_count(t: Seq<u8>, w: Seq<u8>) -> nat {
    word_occ(t, w, t.len())
}

proof fn lemma_word_occ_bound(t: Seq<u8>, w: Seq<u8>, k: nat)
    ensures
        word_occ(t, w, k) <= k,
    decreases k,
{
    if k > 0 {
        lemma_word_occ_bound(t, w, (k - 1) as nat);
    }
}

/// The end of a run of bytes that are no separators.
proof fn lemma_word_end(t: Seq<u8>, ini: nat, j: nat)
    requires
        ini <= j <= t.len(),
        forall|k: int| ini <= k < j ==> !is_separator(#[trigger] t[k]),
        j == t.len() || is_separator(t[j as int]),
    ensures
        word_end(t, ini) == j,
    decreases j - ini,
{
    if ini < j {
        lemma_word_end(t, ini + 1, j);
    }
}

impl CountTrie {
    /// Every node holds the words before `k` equal to its block, of 1 to
    /// [`MAX_WORD`] bytes, and every word before `k` has a node.
    pub(crate) open spec fn counts_words(&self, t: Seq<u8>, k: nat) -> bool {
        &&& self.shape_ok(t)
        &&& forall|m: int|
            1 <= m < self.len() ==> #[trigger] self.counts@[m] == word_occ(t, self.path(m), k)
                && self.path(m).len() <= MAX_WORD
        &&& forall|w: Seq<u8>| word_occ(t, w, k) > 0 ==> #[trigger] self.trie.has_node(w)
    }
}

/// Adds the nodes of the block `t[ini..fim]`, new ones with count 0, and
/// gives the node of the whole block.
fn insert_block(ct: &mut CountTrie, t: &[u8], ini: usize, fim: usize) -> (r: usize)
    requires
        old(ct).shape_ok(t@),
        ini < fim <= t@.len(),
        fim - ini <= MAX_WORD,
        forall|m: int|
            1 <= m < old(ct).len() ==> #[trigger] old(ct).counts@[m] == word_occ(t@, old(ct).path(m), ini as nat)
                && old(ct).path(m).len() <= MAX_WORD,
        forall|w: Seq<u8>| word_occ(t@, w, ini as nat) > 0 ==> #[trigger] old(ct).trie.has_node(w),
    ensures
        final(ct).shape_ok(t@),
        r < final(ct).len(),
        1 <= r,
        final(ct).path(r as int) == t@.subrange(ini as int, fim as int),
        forall|m: int|
            1 <= m < final(ct).len() ==> #[trigger] final(ct).counts@[m] == word_occ(t@, final(ct).path(m), ini as nat)
                && final(ct).path(m).len() <= MAX_WORD,
        forall|w: Seq<u8>| word_occ(t@, w, ini as nat) > 0 ==> #[trigger] final(ct).trie.has_node(w),
{
    let mut atual: usize = 0;
    let mut j: usize = ini;
    proof {
        assert(t@.subrange(ini as int, ini as int) =~= Seq::<u8>::empty());
        assert(ct.trie.paths@[0] == Seq::<u8>::empty());
    }
    while j < fim
        invariant
            ini <= j <= fim <= t@.len(),
            fim - ini <= MAX_WORD,
            ct.shape_ok(t@),
            atual < ct.len(),
            ct.path(atual as int) == t@.subrange(ini as int, j as int),
            j > ini ==> atual >= 1,
            forall|m: int|
                1 <= m < ct.len() ==> #[trigger] ct.counts@[m] == word_occ(t@, ct.path(m), ini as nat)
                    && ct.path(m).len() <= MAX_WORD,
            forall|w: Seq<u8>| word_occ(t@, w, ini as nat) > 0 ==> #[trigger] ct.trie.has_node(w),
        decreases fim - j,
    {
        let byte = t[j];
        let ghost before = *ct;
        let ghost p = t@.subrange(ini as int, j + 1);
        proof {
            assert(p =~= ct.path(atual as int).push(byte));
            assert(occurs_at(t@, p, ini as int));
        }
        let c = ct.child(Ghost(t@), atual, byte, ini, j + 1 - ini);
        proof {
            assert forall|m: int| 1 <= m < ct.len() implies #[trigger] ct.counts@[m] == word_occ(
                t@,
                ct.path(m),
                ini as nat,
            ) && ct.path(m).len() <= MAX_WORD by {
                if m < before.len() {
                    let cm = before.counts@[m];
                    assert(ct.path(m) == before.path(m));
                } else {
                    assert(m == c);
                    assert(!before.trie.has_node(p));
                }
            }
            if c == 0 {
                assert(ct.path(0) == before.path(0));
                assert(before.trie.paths@[0] == Seq::<u8>::empty());
            }
        }
        atual = c;
        j = j + 1;
    }
    atual
}

/// End of the run of bytes that are no separators from `ini`.
fn scan_word(t: &[u8], ini: usize) -> (j: usize)
    requires
        ini < t@.len(),
        !is_separator(t@[ini as int]),
    ensures
        ini < j <= t@.len(),
        forall|k: int| ini <= k < j ==> !is_separator(#[trigger] t@[k]),
        j == t@.len() || is_separator(t@[j as int]),
        j == word_end(t@, ini as nat),
{
    let n = t.len();
    let mut j = ini;
    while j < n && !is_sep(t[j])
        invariant
            ini <= j <= n,
            n == t@.len(),
            forall|k: int| ini <= k < j ==> !is_separator(#[trigger] t@[k]),
        decreases n - j,
    {
        j = j + 1;
    }
    proof {
        lemma_word_end(t@, ini as nat, j as nat);
    }
    j
}

/// Counts the word that starts at `ini` and gives the position after it and
/// the separator that ends it.
#[verifier::spinoff_prover]
#[verifier::rlimit(60)]
fn count_word_at(ct: &mut CountTrie, t: &[u8], ini: usize) -> (next: usize)
    requires
        old(ct).counts_words(t@, ini as nat),
        word_starts(t@, ini as int),
    ensures
        final(ct).counts_words(t@, next as nat),
        ini < next <= t@.len(),
        next == t@.len() || is_separator(t@[next - 1]),
{
    let n = t.len();
    let j = scan_word(t, ini);
    let fim = if j - ini < MAX_WORD {
        j
    } else {
        ini + MAX_WORD
    };
    let ghost w = t@.subrange(ini as int, fim as int);
    proof {
        assert(word_at(t@, ini as nat) == w);
    }
    let node = insert_block(ct, t, ini, fim);
    let ghost mid = *ct;
    proof {
        lemma_word_occ_bound(t@, w, ini as nat);
    }
    ct.bump(node);
    let next = if j < n {
        j + 1
    } else {
        j
    };
    proof {
        lemma_word_counted(mid, *ct, t@, ini as nat, j as nat, next as nat, node as int, w);
    }
    next
}

/// After the word at `ini` is counted at `node`, the counts hold up to `next`.
proof fn lemma_word_counted(
    mid: CountTrie,
    ct: CountTrie,
    t: Seq<u8>,
    ini: nat,
    j: nat,
    next: nat,
    node: int,
    w: Seq<u8>,
)
    requires
        mid.shape_ok(t),
        1 <= node < mid.len(),
        mid.path(node) == w,
        w == word_at(t, ini),
        word_starts(t, ini as int),
        forall|m: int|
            1 <= m < mid.len() ==> #[trigger] mid.counts@[m] == word_occ(t, mid.path(m), ini)
                && mid.path(m).len() <= MAX_WORD,
        forall|x: Seq<u8>| word_occ(t, x, ini) > 0 ==> #[trigger] mid.trie.has_node(x),
        ct.trie == mid.trie,
        ct.origin == mid.origin,
        ct.depth == mid.depth,
        mid.counts@[node] < u64::MAX,
        ct.counts@ == mid.counts@.update(node, (mid.counts@[node] + 1) as u64),
        ct.shape_ok(t),
        ini < j <= t.len(),
        forall|p: int| ini <= p < j ==> !is_separator(#[trigger] t[p]),
        j == t.len() || is_separator(t[j as int]),
        next == if j < t.len() {
            j + 1
        } else {
            j
        },
    ensures
        ct.counts_words(t, next),
{
    assert forall|x: Seq<u8>| #[trigger] word_occ(t, x, next) == word_occ(t, x, ini + 1) by {
        lemma_word_occ_later(t, x, ini, j, next);
    }
    assert forall|m: int| 1 <= m < ct.len() implies #[trigger] ct.counts@[m] == word_occ(
        t,
        ct.path(m),
        next,
    ) && ct.path(m).len() <= MAX_WORD by {
        let cm = mid.counts@[m];
        assert(word_occ(t, ct.path(m), next) == word_occ(t, ct.path(m), ini + 1));
        assert(ct.path(m) == mid.path(m));
        assert(word_occ(t, ct.path(m), ini + 1) == word_occ(t, ct.path(m), ini) + if word_at(t, ini)
            == ct.path(m) {
            1nat
        } else {
            0nat
        });
        if m != node {
            assert(ct.path(m) != w) by {
                if ct.path(m) == w {
                    assert(ct.trie.paths@[m] == ct.trie.paths@[node]);
                }
            }
            assert(ct.counts@[m] == mid.counts@[m]);
        } else {
            assert(ct.counts@[m] == mid.counts@[m] + 1);
        }
    }
    assert forall|x: Seq<u8>| word_occ(t, x, next) > 0 implies #[trigger] ct.trie.has_node(x) by {
        assert(word_occ(t, x, next) == word_occ(t, x, ini + 1));
        if x == w {
            ct.trie.lemma_node_of(w, node);
        } else {
            assert(mid.trie.has_node(x));
        }
    }
}

/// Counts the words of `t`, each cut at [`MAX_WORD`] bytes.
pub(crate) fn count_words(t: &[u8]) -> (r: CountTrie)
    ensures
        r.counts_words(t@, t@.len()),
{
    let mut ct = CountTrie::new();
    let n = t.len();
    let mut i: usize = 0;
    while i < n
        invariant
            n == t@.len(),
            i <= n,
            i == 0 || is_separator(t@[i - 1]) || i == n,
            ct.counts_words(t@, i as nat),
        decreases n - i,
    {
        if is_sep(t[i]) {
            proof {
                assert forall|w: Seq<u8>| #[trigger] word_occ(t@, w, (i + 1) as nat) == word_occ(t@, w, i as nat) by {}
            }
            i = i + 1;
        } else {
            i = count_word_at(&mut ct, t, i);
        }
    }
    ct
}

/// No word starts strictly inside the run `t[ini..j]`, nor at the separator `j`.
proof fn lemma_word_occ_later(t: Seq<u8>, x: Seq<u8>, ini: nat, j: nat, k: nat)
    requires
        ini < j <= t.len(),
        forall|p: int| ini <= p < j ==> !is_separator(#[trigger] t[p]),
        j == t.len() || is_separator(t[j as int]),
        ini < k <= j + 1,
        k <= t.len() || k == j,
    ensures
        word_occ(t, x, k) == word_occ(t, x, ini + 1),
    decreases k - ini,
{
    if k > ini + 1 {
        lemma_word_occ_later(t, x, ini, j, (k - 1) as nat);
        assert(!word_starts(t, k - 1));
    }
}

/// The end of a run is not before its start, nor past the end of `t`.
proof fn lemma_word_end_bounds(t: Seq<u8>, i: nat)
    requires
        i <= t.len(),
    ensures
        i <= word_end(t, i) <= t.len(),
    decreases t.len() - i,
{
    if i < t.len() && !is_separator(t[i as int]) {
        lemma_word_end_bounds(t, i + 1);
    }
}

/// A word has 1 to [`MAX_WORD`] bytes.
pub proof fn lemma_word_len(t: Seq<u8>, w: Seq<u8>, k: nat)
    requires
        word_occ(t, w, k) > 0,
    ensures
        1 <= w.len() <= MAX_WORD,
    decreases k,
{
    if word_occ(t, w, (k - 1) as nat) > 0 {
        lemma_word_len(t, w, (k - 1) as nat);
    } else {
        let i = (k - 1) as nat;
        lemma_word_end_bounds(t, i + 1);
        assert(word_end(t, i) == word_end(t, i + 1));
    }
}

/// ASCII whitespace, as `u8::is_ascii_whitespace` has it: space, tab, line
/// feed, form feed and carriage return.
pub open spec fn ascii_whitespace(c: u8) -> bool {
    c == 0x20 || c == 0x09 || c == 0x0A || c == 0x0C || c == 0x0D
}

/// ASCII punctuation, as `u8::is_ascii_punctuation` has it: the graphic
/// ASCII bytes that are neither letters nor digits.
pub open spec fn ascii_punctuation(c: u8) -> bool {
    &&& 0x21 <= c <= 0x7E
    &&& !(0x30 <= c <= 0x39)
    &&& !(0x41 <= c <= 0x5A)
    &&& !(0x61 <= c <= 0x7A)
}

/// A byte ends a word exactly when it is ASCII whitespace or ASCII punctuation.
pub proof fn lemma_separators_are_whitespace_and_punctuation(c: u8)
    ensures
        is_separator(c) <==> ascii_whitespace(c) || ascii_punctuation(c),
{
}

/// Two copies of a word with one byte between them: two words when that byte
/// is ASCII whitespace or punctuation, otherwise one longer word and no
/// occurrence of the copy.
pub proof fn lemma_words_split_at_separators(s: Seq<u8>, c: u8)
    requires
        1 <= s.len() < MAX_WORD,
        forall|i: int| 0 <= i < s.len() ==> !ascii_whitespace(#[trigger] s[i]) && !ascii_punctuation(s[i]),
    ensures
        word_count(s + seq![c] + s, s) == if ascii_whitespace(c) || ascii_punctuation(c) {
            2nat
        } else {
            0nat
        },
{
    let n = s.len();
    let t = s + seq![c] + s;
    assert(t.len() == 2 * n + 1);
    assert forall|i: int| 0 <= i < n implies t[i] == s[i] && t[n + 1 + i] == s[i] by {}
    assert(t[n as int] == c);
    lemma_separators_are_whitespace_and_punctuation(c);
    assert forall|i: int| 0 <= i < n implies !is_separator(#[trigger] t[i]) by {
        lemma_separators_are_whitespace_and_punctuation(s[i]);
    }
    assert forall|i: int| n + 1 <= i < 2 * n + 1 implies !is_separator(#[trigger] t[i]) by {
        assert(t[i] == s[i - n - 1]);
        lemma_separators_are_whitespace_and_punctuation(s[i - n - 1]);
    }
    assert(word_occ(t, s, 0) == 0);
    if is_separator(c) {
        lemma_word_end(t, 0, n);
        assert(word_starts(t, 0));
        assert(word_at(t, 0) =~= s);
        assert(word_occ(t, s, 1) == 1);
        lemma_word_occ_later(t, s, 0, n, n + 1);
        lemma_word_end(t, n + 1, 2 * n + 1);
        assert(word_starts(t, (n + 1) as int));
        assert(word_at(t, n + 1) =~= s);
        assert(word_occ(t, s, n + 2) == 2);
        if n > 1 {
            lemma_word_occ_later(t, s, n + 1, 2 * n + 1, 2 * n + 1);
        }
    } else {
        assert forall|i: int| 0 <= i < 2 * n + 1 implies !is_separator(#[trigger] t[i]) by {
            if i < n {
            } else if i == n {
            } else {
                assert(t[i] == s[i - n - 1]);
                lemma_separators_are_whitespace_and_punctuation(s[i - n - 1]);
            }
        }
        lemma_word_end(t, 0, 2 * n + 1);
        assert(word_at(t, 0).len() > n);
        assert(word_occ(t, s, 1) == 0);
        lemma_word_occ_later(t, s, 0, 2 * n + 1, 2 * n + 1);
    }
}

} // verus!
