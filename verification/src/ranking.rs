//! Ranking of the candidate blocks of an M2 table: gain, then length, then
//! bytes, and the choice of the first ones that fit the slots.

use vstd::prelude::*;
use crate::table::{MAX_MATCH, MAX_WORD, MIN_FREQ};
use crate::training::{
    CountTrie,
    count_ngrams,
    count_words,
    ngram_count,
    occurs_at,
    word_count,
    lemma_word_len,
};

verus! {

/// Frequency of `s` as a candidate: its n-gram count when it is a frequent
/// n-gram, else its word count when it is a frequent word of two bytes or
/// more, else 0.
pub open spec fn candidate_freq(t: Seq<u8>, s: Seq<u8>) -> nat {
    if 1 <= s.len() <= MAX_MATCH && ngram_count(t, s) >= MIN_FREQ {
        ngram_count(t, s)
    } else if s.len() > 1 && word_count(t, s) >= MIN_FREQ {
        word_count(t, s)
    } else {
        0
    }
}

/// `gain(s) = freq(s) * (8 * len(s) - b)`: the bits a code of `b` bits saves.
pub open spec fn gain(t: Seq<u8>, s: Seq<u8>, b: nat) -> int {
    candidate_freq(t, s) * (8 * s.len() - b)
}

/// `s` is a candidate block for a table of `b` bits: frequent, with positive gain.
pub open spec fn is_candidate(t: Seq<u8>, s: Seq<u8>, b: nat) -> bool {
    candidate_freq(t, s) >= MIN_FREQ && gain(t, s, b) > 0
}

/// Byte-wise order of sequences, a proper prefix first.
pub open spec fn lex_less(a: Seq<u8>, c: Seq<u8>) -> bool
    decreases a.len(),
{
    if a.len() == 0 {
        c.len() > 0
    } else if c.len() == 0 {
        false
    } else if a[0] != c[0] {
        a[0] < c[0]
    } else {
        lex_less(a.skip(1), c.skip(1))
    }
}

/// `s1` ranks before `s2`: greater gain, then longer, then byte-wise smaller.
pub open spec fn ranks_before(t: Seq<u8>, b: nat, s1: Seq<u8>, s2: Seq<u8>) -> bool {
    let g1 = gain(t, s1, b);
    let g2 = gain(t, s2, b);
    ||| g1 > g2
    ||| g1 == g2 && s1.len() > s2.len()
    ||| g1 == g2 && s1.len() == s2.len() && lex_less(s1, s2)
}

/// `blocks` are the first candidates in rank order, as many as `slots`
/// allows: each a candidate, in strict rank order, and every candidate left
/// out ranks after all of them, with the slots full.
pub open spec fn top_ranked(t: Seq<u8>, b: nat, slots: nat, blocks: Seq<Seq<u8>>) -> bool {
    &&& blocks.len() <= slots
    &&& forall|i: int| 0 <= i < blocks.len() ==> is_candidate(t, #[trigger] blocks[i], b)
    &&& forall|i: int, j: int|
        0 <= i < j < blocks.len() ==> ranks_before(t, b, #[trigger] blocks[i], #[trigger] blocks[j])
    &&& forall|s: Seq<u8>|
        is_candidate(t, s, b) && !blocks.contains(s) ==> blocks.len() == slots && forall|i: int|
            0 <= i < blocks.len() ==> ranks_before(t, b, #[trigger] blocks[i], s)
}

/// The byte-wise order is irreflexive, asymmetric and transitive, and any
/// two different sequences are ordered.
pub proof fn lemma_lex_order(a: Seq<u8>, c: Seq<u8>, e: Seq<u8>)
    ensures
        !lex_less(a, a),
        lex_less(a, c) ==> !lex_less(c, a),
        lex_less(a, c) && lex_less(c, e) ==> lex_less(a, e),
        a != c ==> lex_less(a, c) || lex_less(c, a),
    decreases a.len(),
{
    if a.len() > 0 && c.len() > 0 && e.len() > 0 {
        lemma_lex_order(a.skip(1), c.skip(1), e.skip(1));
    } else if a.len() > 0 && c.len() > 0 {
        lemma_lex_order(a.skip(1), c.skip(1), c.skip(1));
    } else if a.len() > 0 {
        lemma_lex_order(a.skip(1), a.skip(1), a.skip(1));
    }
    if a.len() > 0 && c.len() > 0 && a[0] == c[0] && a != c {
        assert(a.skip(1) != c.skip(1)) by {
            if a.skip(1) == c.skip(1) {
                assert(a =~= seq![a[0]] + a.skip(1));
                assert(c =~= seq![c[0]] + c.skip(1));
            }
        }
    }
    if a.len() == 0 && c.len() == 0 {
        assert(a =~= c);
    }
}

/// Rank order is a strict total order on sequences.
pub proof fn lemma_rank_order(t: Seq<u8>, b: nat, s1: Seq<u8>, s2: Seq<u8>, s3: Seq<u8>)
    ensures
        !ranks_before(t, b, s1, s1),
        ranks_before(t, b, s1, s2) ==> !ranks_before(t, b, s2, s1),
        ranks_before(t, b, s1, s2) && ranks_before(t, b, s2, s3) ==> ranks_before(t, b, s1, s3),
        s1 != s2 ==> ranks_before(t, b, s1, s2) || ranks_before(t, b, s2, s1),
{
    lemma_lex_order(s1, s2, s3);
    lemma_lex_order(s2, s1, s1);
}

/// A candidate block: where it occurs in the corpus, its length and its gain.
#[derive(Clone, Copy)]
pub(crate) struct Cand {
    pub(crate) gain: u128,
    pub(crate) pos: usize,
    pub(crate) len: usize,
}

/// The bytes of a candidate.
pub(crate) open spec fn gram(t: Seq<u8>, c: Cand) -> Seq<u8> {
    t.subrange(c.pos as int, c.pos + c.len)
}

/// A candidate of `t` for `b` bits, with its gain.
pub(crate) open spec fn cand_ok(t: Seq<u8>, b: nat, c: Cand) -> bool {
    &&& c.pos + c.len <= t.len()
    &&& is_candidate(t, gram(t, c), b)
    &&& c.gain == gain(t, gram(t, c), b)
}

/// `s` is a frequent n-gram.
pub open spec fn frequent_ngram(t: Seq<u8>, s: Seq<u8>) -> bool {
    1 <= s.len() <= MAX_MATCH && ngram_count(t, s) >= MIN_FREQ
}

/// Occurrences in `t` of its `len` bytes at `pos`, read from the n-gram counter.
fn ngram_count_of(ng: &CountTrie, t: &[u8], pos: usize, len: usize) -> (r: u64)
    requires
        ng.counts_ngrams(t@, t@.len()),
        1 <= len <= MAX_MATCH,
        pos + len <= t@.len(),
    ensures
        r == ngram_count(t@, t@.subrange(pos as int, pos + len)),
{
    let ghost s = t@.subrange(pos as int, pos + len);
    let mut atual: usize = 0;
    let mut k: usize = 0;
    let n = t.len();
    proof {
        assert(t@.subrange(pos as int, pos as int) =~= Seq::<u8>::empty());
    }
    while k < len
        invariant
            n == t@.len(),
            s == t@.subrange(pos as int, pos + len),
            ng.counts_ngrams(t@, t@.len()),
            1 <= len <= MAX_MATCH,
            pos + len <= t@.len(),
            k <= len,
            atual < ng.len(),
            ng.path(atual as int) == t@.subrange(pos as int, pos + k),
        decreases len - k,
    {
        proof {
            assert(t@.subrange(pos as int, pos + k + 1) =~= t@.subrange(pos as int, pos + k).push(
                t@[pos + k],
            ));
        }
        match ng.trie.child_of(atual, t[pos + k]) {
            Some(c) => {
                atual = c;
            },
            None => {
                proof {
                    let pre = t@.subrange(pos as int, pos + k + 1);
                    assert(s.take(pre.len() as int) =~= pre);
                    ng.trie.lemma_no_extension(pre, s);
                    if ngram_count(t@, s) > 0 {
                        assert(ng.trie.has_node(s));
                    }
                }
                return 0;
            },
        }
        k = k + 1;
    }
    proof {
        assert(ng.path(atual as int) == s);
        assert(atual >= 1) by {
            if atual == 0 {
                assert(ng.trie.paths@[0].len() == 0) by {
                    assert(ng.trie.paths@[0] == Seq::<u8>::empty());
                }
            }
        }
        let ca = ng.counts@[atual as int];
    }
    ng.counts[atual]
}

/// Every item is a candidate with its gain, and no two items have the same bytes.
pub(crate) open spec fn cands_ok(t: Seq<u8>, b: nat, v: Seq<Cand>) -> bool {
    &&& forall|i: int| 0 <= i < v.len() ==> cand_ok(t, b, #[trigger] v[i])
    &&& forall|i: int, j: int|
        0 <= i < v.len() && 0 <= j < v.len() && i != j ==> gram(t, #[trigger] v[i]) != gram(
            t,
            #[trigger] v[j],
        )
}

/// `s` is the bytes of some item of `v`.
pub(crate) open spec fn listed(t: Seq<u8>, v: Seq<Cand>, s: Seq<u8>) -> bool {
    exists|i: int| 0 <= i < v.len() && #[trigger] gram(t, v[i]) == s
}

/// Gain of `cnt` occurrences of a block of `len` bytes in `b` bits, when positive.
fn gain_of(cnt: u64, len: usize, b: u8) -> (g: u128)
    requires
        8 * len > b,
        len <= MAX_WORD,
    ensures
        g == cnt * (8 * len - b),
{
    let f = (8 * len - b as usize) as u128;
    assert(cnt as u128 * f <= u64::MAX as u128 * 512) by (nonlinear_arith)
        requires
            f <= 512,
            cnt <= u64::MAX,
    ;
    cnt as u128 * f
}

/// The frequent n-grams with positive gain, one item per node of the counter.
fn collect_ngrams(t: &[u8], b: u8, ng: &CountTrie) -> (r: Vec<Cand>)
    requires
        ng.counts_ngrams(t@, t@.len()),
        1 <= b <= 32,
    ensures
        cands_ok(t@, b as nat, r@),
        forall|i: int| 0 <= i < r@.len() ==> frequent_ngram(t@, #[trigger] gram(t@, r@[i])),
        forall|s: Seq<u8>|
            is_candidate(t@, s, b as nat) && frequent_ngram(t@, s) ==> #[trigger] listed(t@, r@, s),
{
    let mut out: Vec<Cand> = Vec::new();
    let mut m: usize = 1;
    let len_nodes = ng.counts.len();
    while m < len_nodes
        invariant
            len_nodes == ng.len(),
            ng.counts_ngrams(t@, t@.len()),
            1 <= b <= 32,
            1 <= m <= ng.len(),
            cands_ok(t@, b as nat, out@),
            forall|i: int|
                0 <= i < out@.len() ==> frequent_ngram(t@, #[trigger] gram(t@, out@[i])) && exists|k: int|
                    1 <= k < m && gram(t@, out@[i]) == ng.path(k),
            forall|k: int|
                1 <= k < m && is_candidate(t@, ng.path(k), b as nat) && frequent_ngram(t@, ng.path(k))
                    ==> #[trigger] listed(t@, out@, ng.path(k)),
        decreases ng.len() - m,
    {
        let cnt = ng.counts[m];
        let len = ng.depth[m];
        let pos = ng.origin[m];
        let ghost p = ng.path(m as int);
        proof {
            assert(occurs_at(t@, p, pos as int));
            assert(p.len() > 0);
            let cm = ng.counts@[m as int];
            assert(gram(t@, Cand { gain: 0, pos, len }) == p);
        }
        if cnt >= MIN_FREQ as u64 && 8 * len > b as usize {
            let g = gain_of(cnt, len, b);
            let c = Cand { gain: g, pos, len };
            let ghost before = out@;
            proof {
                assert(gram(t@, c) == p);
                assert(frequent_ngram(t@, p));
                assert(candidate_freq(t@, p) == cnt);
                assert forall|i: int| 0 <= i < before.len() implies gram(t@, #[trigger] before[i]) != p by {
                    let k = choose|k: int| 1 <= k < m && gram(t@, before[i]) == ng.path(k);
                    assert(ng.trie.paths@[k] != ng.trie.paths@[m as int]);
                }
            }
            proof {
                assert(len == p.len());
                assert(g > 0) by (nonlinear_arith)
                    requires
                        g == cnt * (8 * len - b),
                        cnt >= 2,
                        8 * len - b >= 1,
                ;
                assert(gain(t@, p, b as nat) == g);
                assert(cand_ok(t@, b as nat, c));
            }
            out.push(c);
            proof {
                assert(out@[before.len() as int] == c);
                assert forall|i: int| 0 <= i < out@.len() implies cand_ok(t@, b as nat, #[trigger] out@[i]) by {
                    if i < before.len() {
                        assert(out@[i] == before[i]);
                    }
                }
                assert forall|i: int, j: int|
                    0 <= i < out@.len() && 0 <= j < out@.len() && i != j implies gram(
                    t@,
                    #[trigger] out@[i],
                ) != gram(t@, #[trigger] out@[j]) by {
                    if i < before.len() && j < before.len() {
                        assert(out@[i] == before[i]);
                        assert(out@[j] == before[j]);
                    } else if i < before.len() {
                        assert(out@[i] == before[i]);
                    } else if j < before.len() {
                        assert(out@[j] == before[j]);
                    }
                }
                assert forall|i: int| 0 <= i < out@.len() implies frequent_ngram(
                    t@,
                    #[trigger] gram(t@, out@[i]),
                ) && exists|k: int| 1 <= k < m + 1 && gram(t@, out@[i]) == ng.path(k) by {
                    if i < before.len() {
                        assert(out@[i] == before[i]);
                        let k = choose|k: int| 1 <= k < m && gram(t@, before[i]) == ng.path(k);
                        assert(1 <= k < m + 1 && gram(t@, out@[i]) == ng.path(k));
                    } else {
                        assert(1 <= m < m + 1 && gram(t@, out@[i]) == ng.path(m as int));
                    }
                }
                assert forall|k: int|
                    1 <= k < m + 1 && is_candidate(t@, ng.path(k), b as nat) && frequent_ngram(
                        t@,
                        ng.path(k),
                    ) implies #[trigger] listed(t@, out@, ng.path(k)) by {
                    if k < m {
                        assert(listed(t@, before, ng.path(k)));
                        let i = choose|i: int| 0 <= i < before.len() && #[trigger] gram(t@, before[i]) == ng.path(k);
                        assert(out@[i] == before[i]);
                    } else {
                        assert(gram(t@, out@[before.len() as int]) == ng.path(k));
                    }
                }
            }
        } else {
            proof {
                if is_candidate(t@, p, b as nat) && frequent_ngram(t@, p) {
                    assert(candidate_freq(t@, p) == cnt);
                    let f = (8 * len - b) as int;
                    assert(cnt * f > 0);
                    assert(f > 0) by (nonlinear_arith)
                        requires
                            cnt * f > 0,
                            cnt >= 0,
                    ;
                    assert(false);
                }
                assert forall|k: int|
                    1 <= k < m + 1 && is_candidate(t@, ng.path(k), b as nat) && frequent_ngram(
                        t@,
                        ng.path(k),
                    ) implies #[trigger] listed(t@, out@, ng.path(k)) by {
                    if k == m {
                        assert(false);
                    }
                }
            }
        }
        m = m + 1;
    }
    proof {
        assert forall|s: Seq<u8>|
            is_candidate(t@, s, b as nat) && frequent_ngram(t@, s) implies #[trigger] listed(t@, out@, s) by {
            assert(ng.trie.has_node(s));
            let k = ng.trie.node_of(s);
            assert(ng.trie.paths@[k] == s);
            if k == 0 {
                assert(ng.trie.paths@[0] == Seq::<u8>::empty());
            }
            assert(ng.path(k) == s);
        }
    }
    out
}

/// Adds the frequent words of two bytes or more, with positive gain, that
/// are not frequent n-grams already.
fn collect_words(t: &[u8], b: u8, ng: &CountTrie, wd: &CountTrie, out: &mut Vec<Cand>)
    requires
        ng.counts_ngrams(t@, t@.len()),
        wd.counts_words(t@, t@.len()),
        1 <= b <= 32,
        cands_ok(t@, b as nat, old(out)@),
        forall|i: int| 0 <= i < old(out)@.len() ==> frequent_ngram(t@, #[trigger] gram(t@, old(out)@[i])),
    ensures
        cands_ok(t@, b as nat, final(out)@),
        final(out)@.len() >= old(out)@.len(),
        final(out)@.take(old(out)@.len() as int) == old(out)@,
        forall|s: Seq<u8>|
            is_candidate(t@, s, b as nat) && !frequent_ngram(t@, s) ==> #[trigger] listed(t@, final(out)@, s),
{
    let ghost out0 = out@;
    let mut m: usize = 1;
    let len_nodes = wd.counts.len();
    proof {
        assert(out@.take(out0.len() as int) =~= out0);
    }
    while m < len_nodes
        invariant
            len_nodes == wd.len(),
            ng.counts_ngrams(t@, t@.len()),
            wd.counts_words(t@, t@.len()),
            1 <= b <= 32,
            1 <= m <= wd.len(),
            cands_ok(t@, b as nat, out@),
            out0.len() <= out@.len(),
            out@.take(out0.len() as int) == out0,
            forall|i: int| 0 <= i < out0.len() ==> frequent_ngram(t@, #[trigger] gram(t@, out0[i])),
            forall|i: int|
                out0.len() <= i < out@.len() ==> !frequent_ngram(t@, #[trigger] gram(t@, out@[i])) && exists|k: int|
                    1 <= k < m && gram(t@, out@[i]) == wd.path(k),
            forall|k: int|
                1 <= k < m && is_candidate(t@, wd.path(k), b as nat) && !frequent_ngram(t@, wd.path(k))
                    ==> #[trigger] listed(t@, out@, wd.path(k)),
        decreases wd.len() - m,
    {
        let cnt = wd.counts[m];
        let len = wd.depth[m];
        let pos = wd.origin[m];
        let ghost p = wd.path(m as int);
        let ghost before = out@;
        proof {
            assert(occurs_at(t@, p, pos as int));
            assert(p.len() > 0);
            let cm = wd.counts@[m as int];
            assert(len == p.len());
            assert(gram(t@, Cand { gain: 0, pos, len }) == p);
        }
        let mut pushed = false;
        if cnt >= MIN_FREQ as u64 && len > 1 && 8 * len > b as usize {
            let ng_freq = if len <= MAX_MATCH {
                ngram_count_of(ng, t, pos, len)
            } else {
                0
            };
            if ng_freq < MIN_FREQ as u64 {
                let g = gain_of(cnt, len, b);
                let c = Cand { gain: g, pos, len };
                proof {
                    assert(!frequent_ngram(t@, p));
                    assert(candidate_freq(t@, p) == cnt);
                    assert(g > 0) by (nonlinear_arith)
                        requires
                            g == cnt * (8 * len - b),
                            cnt >= 2,
                            8 * len - b >= 1,
                    ;
                    assert(cand_ok(t@, b as nat, c));
                    assert forall|i: int| 0 <= i < before.len() implies gram(t@, #[trigger] before[i]) != p by {
                        if i < out0.len() {
                            assert(before[i] == before.take(out0.len() as int)[i]);
                            assert(frequent_ngram(t@, gram(t@, out0[i])));
                        } else {
                            let k = choose|k: int| 1 <= k < m && gram(t@, before[i]) == wd.path(k);
                            assert(wd.trie.paths@[k] != wd.trie.paths@[m as int]);
                        }
                    }
                }
                out.push(c);
                pushed = true;
                proof {
                    assert(out@[before.len() as int] == c);
                    assert forall|i: int| 0 <= i < out@.len() implies cand_ok(t@, b as nat, #[trigger] out@[i]) by {
                        if i < before.len() {
                            assert(out@[i] == before[i]);
                        }
                    }
                    assert forall|i: int, j: int|
                        0 <= i < out@.len() && 0 <= j < out@.len() && i != j implies gram(
                        t@,
                        #[trigger] out@[i],
                    ) != gram(t@, #[trigger] out@[j]) by {
                        if i < before.len() {
                            assert(out@[i] == before[i]);
                        }
                        if j < before.len() {
                            assert(out@[j] == before[j]);
                        }
                    }
                }
            } else {
                proof {
                    assert(frequent_ngram(t@, p));
                }
            }
        } else {
            proof {
                if is_candidate(t@, p, b as nat) && !frequent_ngram(t@, p) {
                    assert(candidate_freq(t@, p) == cnt);
                    let f = (8 * len - b) as int;
                    assert(cnt * f > 0);
                    assert(f > 0) by (nonlinear_arith)
                        requires
                            cnt * f > 0,
                            cnt >= 0,
                    ;
                    assert(false);
                }
            }
        }
        proof {
            assert(out@.take(out0.len() as int) =~= out0) by {
                assert forall|i: int| 0 <= i < out0.len() implies out@[i] == out0[i] by {
                    assert(before[i] == before.take(out0.len() as int)[i]);
                    if pushed {
                        assert(out@[i] == before[i]);
                    }
                }
            }
            assert forall|i: int|
                out0.len() <= i < out@.len() implies !frequent_ngram(t@, #[trigger] gram(t@, out@[i])) && exists|k: int|
                1 <= k < m + 1 && gram(t@, out@[i]) == wd.path(k) by {
                if i < before.len() {
                    if pushed {
                        assert(out@[i] == before[i]);
                    }
                    let k = choose|k: int| 1 <= k < m && gram(t@, before[i]) == wd.path(k);
                    assert(1 <= k < m + 1 && gram(t@, out@[i]) == wd.path(k));
                } else {
                    assert(1 <= m < m + 1 && gram(t@, out@[i]) == wd.path(m as int));
                }
            }
            assert forall|k: int|
                1 <= k < m + 1 && is_candidate(t@, wd.path(k), b as nat) && !frequent_ngram(
                    t@,
                    wd.path(k),
                ) implies #[trigger] listed(t@, out@, wd.path(k)) by {
                if k < m {
                    assert(listed(t@, before, wd.path(k)));
                    let i = choose|i: int| 0 <= i < before.len() && #[trigger] gram(t@, before[i]) == wd.path(k);
                    if pushed {
                        assert(out@[i] == before[i]);
                    }
                } else {
                    assert(pushed);
                    assert(gram(t@, out@[before.len() as int]) == wd.path(k));
                }
            }
        }
        m = m + 1;
    }
    proof {
        assert forall|s: Seq<u8>|
            is_candidate(t@, s, b as nat) && !frequent_ngram(t@, s) implies #[trigger] listed(t@, out@, s) by {
            assert(word_count(t@, s) >= MIN_FREQ);
            assert(wd.trie.has_node(s));
            let k = wd.trie.node_of(s);
            assert(wd.trie.paths@[k] == s);
            if k == 0 {
                assert(wd.trie.paths@[0] == Seq::<u8>::empty());
            }
            assert(wd.path(k) == s);
        }
    }
}

/// Two sequences of the same length that agree on their first `k` bytes
/// compare as what follows.
proof fn lemma_lex_skip(a: Seq<u8>, c: Seq<u8>, k: int)
    requires
        a.len() == c.len(),
        0 <= k <= a.len(),
        a.take(k) == c.take(k),
    ensures
        lex_less(a, c) == lex_less(a.skip(k), c.skip(k)),
    decreases k,
{
    if k > 0 {
        assert(a[0] == a.take(k)[0]);
        assert(c[0] == c.take(k)[0]);
        assert(a.skip(1).take(k - 1) =~= c.skip(1).take(k - 1)) by {
            assert forall|i: int| 0 <= i < k - 1 implies #[trigger] a.skip(1).take(k - 1)[i] == c.skip(1).take(k - 1)[i] by {
                assert(a.take(k)[i + 1] == a[i + 1]);
                assert(c.take(k)[i + 1] == c[i + 1]);
                assert(a.take(k)[i + 1] == c.take(k)[i + 1]);
            }
        }
        lemma_lex_skip(a.skip(1), c.skip(1), k - 1);
        assert(a.skip(1).skip(k - 1) =~= a.skip(k));
        assert(c.skip(1).skip(k - 1) =~= c.skip(k));
    } else {
        assert(a.skip(0) =~= a);
        assert(c.skip(0) =~= c);
    }
}

/// Byte-wise comparison of the `len` bytes at `p1` and at `p2`.
fn lex_less_at(t: &[u8], p1: usize, p2: usize, len: usize) -> (r: bool)
    requires
        p1 + len <= t@.len(),
        p2 + len <= t@.len(),
    ensures
        r == lex_less(t@.subrange(p1 as int, p1 + len), t@.subrange(p2 as int, p2 + len)),
{
    let ghost a = t@.subrange(p1 as int, p1 + len);
    let ghost c = t@.subrange(p2 as int, p2 + len);
    let mut k: usize = 0;
    let n = t.len();
    proof {
        assert(a.take(0) =~= c.take(0));
    }
    while k < len
        invariant
            n == t@.len(),
            k <= len,
            p1 + len <= t@.len(),
            p2 + len <= t@.len(),
            a == t@.subrange(p1 as int, p1 + len),
            c == t@.subrange(p2 as int, p2 + len),
            a.take(k as int) == c.take(k as int),
        decreases len - k,
    {
        let x = t[p1 + k];
        let y = t[p2 + k];
        if x != y {
            proof {
                lemma_lex_skip(a, c, k as int);
                assert(a.skip(k as int)[0] == x);
                assert(c.skip(k as int)[0] == y);
            }
            return x < y;
        }
        proof {
            assert(a.take(k + 1) =~= c.take(k + 1)) by {
                assert forall|i: int| 0 <= i < k + 1 implies #[trigger] a.take(k + 1)[i] == c.take(k + 1)[i] by {
                    if i < k {
                        assert(a.take(k as int)[i] == c.take(k as int)[i]);
                    }
                }
            }
        }
        k = k + 1;
    }
    proof {
        lemma_lex_skip(a, c, len as int);
        assert(a.skip(len as int) =~= Seq::<u8>::empty());
    }
    false
}

/// Rank order between two candidates.
fn cand_before(t: &[u8], b: Ghost<nat>, x: &Cand, y: &Cand) -> (r: bool)
    requires
        cand_ok(t@, b@, *x),
        cand_ok(t@, b@, *y),
    ensures
        r == ranks_before(t@, b@, gram(t@, *x), gram(t@, *y)),
{
    if x.gain > y.gain {
        true
    } else if x.gain < y.gain {
        false
    } else if x.len > y.len {
        true
    } else if x.len < y.len {
        false
    } else {
        lex_less_at(t, x.pos, y.pos, x.len)
    }
}

/// `x` does not rank after `y`.
pub(crate) open spec fn cand_le(t: Seq<u8>, b: nat, x: Cand, y: Cand) -> bool {
    !ranks_before(t, b, gram(t, y), gram(t, x))
}

/// Candidates in rank order, ties allowed.
pub(crate) open spec fn sorted_cands(t: Seq<u8>, b: nat, v: Seq<Cand>) -> bool {
    forall|i: int, j: int| 0 <= i < j < v.len() ==> cand_le(t, b, #[trigger] v[i], #[trigger] v[j])
}

/// Not ranking after is transitive.
proof fn lemma_le_trans(t: Seq<u8>, b: nat, x: Cand, y: Cand, z: Cand)
    requires
        cand_le(t, b, x, y),
        cand_le(t, b, y, z),
    ensures
        cand_le(t, b, x, z),
{
    let gx = gram(t, x);
    let gy = gram(t, y);
    let gz = gram(t, z);
    lemma_rank_order(t, b, gz, gx, gy);
    lemma_rank_order(t, b, gx, gy, gz);
    lemma_rank_order(t, b, gz, gy, gx);
}

/// All items are candidates.
pub(crate) open spec fn all_ok(t: Seq<u8>, b: nat, v: Seq<Cand>) -> bool {
    forall|i: int| 0 <= i < v.len() ==> cand_ok(t, b, #[trigger] v[i])
}

/// Merges two sorted lists of candidates.
fn merge(t: &[u8], b: Ghost<nat>, l: Vec<Cand>, r: Vec<Cand>) -> (out: Vec<Cand>)
    requires
        all_ok(t@, b@, l@),
        all_ok(t@, b@, r@),
        sorted_cands(t@, b@, l@),
        sorted_cands(t@, b@, r@),
    ensures
        all_ok(t@, b@, out@),
        sorted_cands(t@, b@, out@),
        out@.to_multiset() == l@.to_multiset().add(r@.to_multiset()),
{
    broadcast use vstd::multiset::group_multiset_axioms;
    let mut out: Vec<Cand> = Vec::new();
    let mut i: usize = 0;
    let mut j: usize = 0;
    proof {
        assert(l@.take(0) =~= Seq::<Cand>::empty());
        assert(r@.take(0) =~= Seq::<Cand>::empty());
        assert(l@.take(0) == out@);
        assert(r@.take(0) == out@);
        vstd::seq_lib::to_multiset_len(out@);
        vstd::multiset::lemma_multiset_empty_len(out@.to_multiset());
        assert(out@.to_multiset() =~= l@.take(0).to_multiset().add(r@.take(0).to_multiset()));
    }
    while i < l.len() || j < r.len()
        invariant
            i <= l@.len(),
            j <= r@.len(),
            all_ok(t@, b@, l@),
            all_ok(t@, b@, r@),
            sorted_cands(t@, b@, l@),
            sorted_cands(t@, b@, r@),
            all_ok(t@, b@, out@),
            sorted_cands(t@, b@, out@),
            out@.len() > 0 && i < l@.len() ==> cand_le(t@, b@, out@.last(), l@[i as int]),
            out@.len() > 0 && j < r@.len() ==> cand_le(t@, b@, out@.last(), r@[j as int]),
            out@.to_multiset() == l@.take(i as int).to_multiset().add(r@.take(j as int).to_multiset()),
        decreases l@.len() + r@.len() - i - j,
    {
        let take_left = if j >= r.len() {
            true
        } else if i >= l.len() {
            false
        } else {
            !cand_before(t, b, &r[j], &l[i])
        };
        let x = if take_left {
            l[i]
        } else {
            r[j]
        };
        let ghost before = out@;
        proof {
            assert forall|k: int| 0 <= k < before.len() implies cand_le(t@, b@, #[trigger] before[k], x) by {
                if k < before.len() - 1 {
                    assert(cand_le(t@, b@, before[k], before[before.len() - 1]));
                } else {
                    lemma_rank_order(t@, b@, gram(t@, before[k]), gram(t@, before[k]), gram(t@, before[k]));
                }
                lemma_le_trans(t@, b@, before[k], before.last(), x);
            }
            if take_left {
                assert(l@.take(i + 1) =~= l@.take(i as int).push(x));
                if j < r@.len() {
                    assert(cand_le(t@, b@, x, r@[j as int]));
                }
                if i + 1 < l@.len() {
                    assert(cand_le(t@, b@, l@[i as int], l@[i + 1]));
                }
            } else {
                assert(r@.take(j + 1) =~= r@.take(j as int).push(x));
                if i < l@.len() {
                    lemma_rank_order(t@, b@, gram(t@, l@[i as int]), gram(t@, x), gram(t@, x));
                    assert(cand_le(t@, b@, x, l@[i as int]));
                }
                if j + 1 < r@.len() {
                    assert(cand_le(t@, b@, r@[j as int], r@[j + 1]));
                }
            }
        }
        out.push(x);
        proof {
            assert(out@.to_multiset() =~= before.to_multiset().insert(x)) by {
                vstd::seq_lib::to_multiset_build(before, x);
            }
            if take_left {
                vstd::seq_lib::to_multiset_build(l@.take(i as int), x);
            } else {
                vstd::seq_lib::to_multiset_build(r@.take(j as int), x);
            }
            assert forall|p: int, q: int| 0 <= p < q < out@.len() implies cand_le(
                t@,
                b@,
                #[trigger] out@[p],
                #[trigger] out@[q],
            ) by {
                if q < before.len() {
                    assert(out@[p] == before[p]);
                    assert(out@[q] == before[q]);
                } else {
                    assert(out@[p] == before[p]);
                }
            }
            assert forall|p: int| 0 <= p < out@.len() implies cand_ok(t@, b@, #[trigger] out@[p]) by {
                if p < before.len() {
                    assert(out@[p] == before[p]);
                }
            }
        }
        if take_left {
            i = i + 1;
        } else {
            j = j + 1;
        }
    }
    proof {
        assert(l@.take(l@.len() as int) =~= l@);
        assert(r@.take(r@.len() as int) =~= r@);
    }
    out
}

/// Sorts candidates in rank order (merge sort).
fn sort_cands(t: &[u8], b: Ghost<nat>, v: Vec<Cand>) -> (out: Vec<Cand>)
    requires
        all_ok(t@, b@, v@),
    ensures
        all_ok(t@, b@, out@),
        sorted_cands(t@, b@, out@),
        out@.to_multiset() == v@.to_multiset(),
    decreases v@.len(),
{
    let n = v.len();
    if n <= 1 {
        return v;
    }
    let mid = n / 2;
    let mut left: Vec<Cand> = Vec::new();
    let mut right: Vec<Cand> = Vec::new();
    let mut k: usize = 0;
    while k < n
        invariant
            n == v@.len(),
            mid == n / 2,
            k <= n,
            k <= mid ==> left@ == v@.take(k as int) && right@.len() == 0,
            k > mid ==> left@ == v@.take(mid as int) && right@ == v@.subrange(mid as int, k as int),
        decreases n - k,
    {
        if k < mid {
            left.push(v[k]);
            proof {
                assert(v@.take(k + 1) =~= v@.take(k as int).push(v@[k as int]));
            }
        } else {
            right.push(v[k]);
            proof {
                assert(v@.subrange(mid as int, k + 1) =~= v@.subrange(mid as int, k as int).push(
                    v@[k as int],
                ));
                if k == mid {
                    assert(right@ =~= v@.subrange(mid as int, k + 1));
                }
            }
        }
        k = k + 1;
    }
    proof {
        assert(v@ =~= left@ + right@);
        vstd::seq_lib::lemma_multiset_commutative(left@, right@);
        assert forall|i: int| 0 <= i < left@.len() implies cand_ok(t@, b@, #[trigger] left@[i]) by {
            assert(left@[i] == v@[i]);
        }
        assert forall|i: int| 0 <= i < right@.len() implies cand_ok(t@, b@, #[trigger] right@[i]) by {
            assert(right@[i] == v@[mid + i]);
        }
    }
    let sl = sort_cands(t, b, left);
    let sr = sort_cands(t, b, right);
    merge(t, b, sl, sr)
}

/// Every candidate of `t` for `b` bits is the bytes of some item of `v`.
pub(crate) open spec fn complete(t: Seq<u8>, b: nat, v: Seq<Cand>) -> bool {
    forall|s: Seq<u8>| is_candidate(t, s, b) ==> #[trigger] listed(t, v, s)
}

/// The first `k` items of the sorted candidates, by their bytes, are the top-ranked blocks.
proof fn lemma_top_ranked(t: Seq<u8>, b: nat, slots: nat, c: Seq<Cand>, l: Seq<Cand>, k: nat)
    requires
        cands_ok(t, b, c),
        complete(t, b, c),
        all_ok(t, b, l),
        sorted_cands(t, b, l),
        l.to_multiset() == c.to_multiset(),
        k == if slots < l.len() {
            slots
        } else {
            l.len()
        },
    ensures
        top_ranked(t, b, slots, l.take(k as int).map_values(|x: Cand| gram(t, x))),
{
    broadcast use vstd::seq_lib::group_to_multiset_ensures;
    let blocks = l.take(k as int).map_values(|x: Cand| gram(t, x));
    assert(c.no_duplicates()) by {
        assert forall|i: int, j: int| 0 <= i < c.len() && 0 <= j < c.len() && i != j implies c[i] != c[j] by {
            assert(gram(t, c[i]) != gram(t, c[j]));
        }
    }
    c.lemma_multiset_has_no_duplicates();
    l.lemma_multiset_has_no_duplicates_conv();
    assert forall|i: int, j: int| 0 <= i < l.len() && 0 <= j < l.len() && i != j implies gram(
        t,
        #[trigger] l[i],
    ) != gram(t, #[trigger] l[j]) by {
        assert(l.to_multiset().count(l[i]) > 0);
        assert(l.to_multiset().count(l[j]) > 0);
        assert(c.contains(l[i]));
        assert(c.contains(l[j]));
        let p = choose|p: int| 0 <= p < c.len() && c[p] == l[i];
        let q = choose|q: int| 0 <= q < c.len() && c[q] == l[j];
        if gram(t, l[i]) == gram(t, l[j]) {
            assert(p == q);
            assert(l[i] == l[j]);
        }
    }
    assert forall|i: int| 0 <= i < blocks.len() implies is_candidate(t, #[trigger] blocks[i], b) by {
        assert(cand_ok(t, b, l[i]));
    }
    assert forall|i: int, j: int| 0 <= i < j < blocks.len() implies ranks_before(
        t,
        b,
        #[trigger] blocks[i],
        #[trigger] blocks[j],
    ) by {
        assert(cand_le(t, b, l[i], l[j]));
        lemma_rank_order(t, b, gram(t, l[i]), gram(t, l[j]), gram(t, l[j]));
    }
    assert forall|s: Seq<u8>| is_candidate(t, s, b) && !blocks.contains(s) implies blocks.len() == slots
        && forall|i: int| 0 <= i < blocks.len() ==> ranks_before(t, b, #[trigger] blocks[i], s) by {
        assert(listed(t, c, s));
        let p = choose|p: int| 0 <= p < c.len() && #[trigger] gram(t, c[p]) == s;
        assert(c.to_multiset().count(c[p]) > 0);
        assert(l.contains(c[p]));
        let q = choose|q: int| 0 <= q < l.len() && l[q] == c[p];
        if q < k {
            assert(blocks[q] == s);
        }
        assert forall|i: int| 0 <= i < blocks.len() implies ranks_before(t, b, #[trigger] blocks[i], s) by {
            assert(cand_le(t, b, l[i], l[q]));
            lemma_rank_order(t, b, gram(t, l[i]), s, s);
        }
    }
}

/// The dynamic blocks of an M2 table of `b` bits and `slots` slots trained
/// on `t`: the top-ranked candidates.
pub(crate) fn ranked_blocks(t: &[u8], b: u8, slots: u64) -> (r: Vec<Vec<u8>>)
    requires
        1 <= b <= 32,
    ensures
        top_ranked(t@, b as nat, slots as nat, r@.map_values(|v: Vec<u8>| v@)),
        forall|i: int| 0 <= i < r@.len() ==> 1 <= (#[trigger] r@[i])@.len() <= MAX_WORD,
{
    let mut out: Vec<Vec<u8>> = Vec::new();
    if slots == 0 || t.len() == 0 {
        proof {
            assert(out@.map_values(|v: Vec<u8>| v@) =~= Seq::<Seq<u8>>::empty());
            assert forall|s: Seq<u8>| is_candidate(t@, s, b as nat) implies slots == 0 by {
                if t@.len() == 0 {
                    assert(ngram_count(t@, s) == 0);
                    assert(word_count(t@, s) == 0);
                }
            }
        }
        return out;
    }
    let ng = count_ngrams(t);
    let wd = count_words(t);
    let mut cands = collect_ngrams(t, b, &ng);
    let ghost c0 = cands@;
    collect_words(t, b, &ng, &wd, &mut cands);
    proof {
        assert forall|s: Seq<u8>| is_candidate(t@, s, b as nat) implies #[trigger] listed(t@, cands@, s) by {
            if frequent_ngram(t@, s) {
                assert(listed(t@, c0, s));
                let i = choose|i: int| 0 <= i < c0.len() && #[trigger] gram(t@, c0[i]) == s;
                assert(cands@.take(c0.len() as int)[i] == c0[i]);
                assert(cands@[i] == cands@.take(c0.len() as int)[i]);
                assert(gram(t@, cands@[i]) == s);
            }
        }
    }
    let ghost cs = cands@;
    let sorted = sort_cands(t, Ghost(b as nat), cands);
    let k: usize = if (slots as u128) < (sorted.len() as u128) {
        slots as usize
    } else {
        sorted.len()
    };
    let mut i: usize = 0;
    while i < k
        invariant
            k <= sorted@.len(),
            i <= k,
            all_ok(t@, b as nat, sorted@),
            out@.len() == i,
            forall|j: int| 0 <= j < i ==> (#[trigger] out@[j])@ == gram(t@, sorted@[j]),
        decreases k - i,
    {
        let c = sorted[i];
        proof {
            assert(cand_ok(t@, b as nat, sorted@[i as int]));
        }
        let mut bloco: Vec<u8> = Vec::new();
        let mut j: usize = c.pos;
        let n = t.len();
        assert(c.pos + c.len <= n);
        let fim = c.pos + c.len;
        while j < fim
            invariant
                c.pos <= j <= fim,
                fim == c.pos + c.len,
                fim <= t@.len(),
                bloco@ == t@.subrange(c.pos as int, j as int),
            decreases fim - j,
        {
            bloco.push(t[j]);
            proof {
                assert(t@.subrange(c.pos as int, j + 1) =~= t@.subrange(c.pos as int, j as int).push(t@[j as int]));
            }
            j = j + 1;
        }
        out.push(bloco);
        i = i + 1;
    }
    proof {
        lemma_top_ranked(t@, b as nat, slots as nat, cs, sorted@, k as nat);
        assert(out@.map_values(|v: Vec<u8>| v@) =~= sorted@.take(k as int).map_values(|x: Cand| gram(t@, x)));
        assert forall|j: int| 0 <= j < out@.len() implies 1 <= (#[trigger] out@[j])@.len() <= MAX_WORD by {
            let g = gram(t@, sorted@[j]);
            assert(cand_ok(t@, b as nat, sorted@[j]));
            assert(candidate_freq(t@, g) >= MIN_FREQ);
            if !(1 <= g.len() <= MAX_MATCH && ngram_count(t@, g) >= MIN_FREQ) {
                lemma_word_len(t@, g, t@.len());
            }
        }
    }
    out
}

/// The `len` bytes of `t` at `pos`, copied.
fn copy_bytes(t: &[u8], pos: usize, len: usize) -> (r: Vec<u8>)
    requires
        pos + len <= t@.len(),
    ensures
        r@ == t@.subrange(pos as int, pos + len),
{
    let mut out: Vec<u8> = Vec::new();
    let n = t.len();
    let fim = pos + len;
    let mut j: usize = pos;
    while j < fim
        invariant
            pos <= j <= fim,
            fim == pos + len,
            fim <= n,
            n == t@.len(),
            out@ == t@.subrange(pos as int, j as int),
        decreases fim - j,
    {
        out.push(t[j]);
        proof {
            assert(t@.subrange(pos as int, j + 1) =~= t@.subrange(pos as int, j as int).push(t@[j as int]));
        }
        j = j + 1;
    }
    out
}

/// The blocks of the nodes of `ct` of at least `min_len` bytes whose count
/// is at least [`MIN_FREQ`], each with its count, in node order; the ghost
/// sequence gives the node of each.
fn frequent_nodes(t: &[u8], ct: &CountTrie, min_len: usize) -> (r: (Vec<(Vec<u8>, u64)>, Ghost<Seq<int>>))
    requires
        ct.shape_ok(t@),
        min_len >= 1,
    ensures
        r.1@.len() == r.0@.len(),
        forall|i: int|
            0 <= i < r.0@.len() ==> {
                let m = #[trigger] r.1@[i];
                &&& 1 <= m < ct.len()
                &&& ct.path(m) == r.0@[i].0@
                &&& r.0@[i].1 == ct.counts@[m]
                &&& ct.counts@[m] >= MIN_FREQ
                &&& ct.path(m).len() >= min_len
            },
        forall|i: int, j: int| 0 <= i < j < r.0@.len() ==> #[trigger] r.1@[i] < #[trigger] r.1@[j],
        forall|m: int|
            1 <= m < ct.len() && #[trigger] ct.counts@[m] >= MIN_FREQ && ct.path(m).len() >= min_len
                ==> exists|i: int| 0 <= i < r.0@.len() && r.1@[i] == m,
{
    let mut out: Vec<(Vec<u8>, u64)> = Vec::new();
    let ghost mut nodes: Seq<int> = Seq::empty();
    let n_nodes = ct.counts.len();
    let mut m: usize = 1;
    while m < n_nodes
        invariant
            n_nodes == ct.len(),
            ct.shape_ok(t@),
            min_len >= 1,
            1 <= m <= n_nodes,
            nodes.len() == out@.len(),
            forall|i: int|
                0 <= i < out@.len() ==> {
                    let k = #[trigger] nodes[i];
                    &&& 1 <= k < m
                    &&& ct.path(k) == out@[i].0@
                    &&& out@[i].1 == ct.counts@[k]
                    &&& ct.counts@[k] >= MIN_FREQ
                    &&& ct.path(k).len() >= min_len
                },
            forall|i: int, j: int| 0 <= i < j < out@.len() ==> #[trigger] nodes[i] < #[trigger] nodes[j],
            forall|k: int|
                1 <= k < m && #[trigger] ct.counts@[k] >= MIN_FREQ && ct.path(k).len() >= min_len
                    ==> exists|i: int| 0 <= i < out@.len() && nodes[i] == k,
        decreases n_nodes - m,
    {
        let cnt = ct.counts[m];
        let len = ct.depth[m];
        proof {
            assert(len == ct.path(m as int).len());
        }
        if cnt >= MIN_FREQ as u64 && len >= min_len {
            let pos = ct.origin[m];
            proof {
                assert(occurs_at(t@, ct.path(m as int), pos as int));
            }
            let bytes = copy_bytes(t, pos, len);
            let ghost before = out@;
            let ghost nodes0 = nodes;
            out.push((bytes, cnt));
            proof {
                nodes = nodes.push(m as int);
                assert forall|i: int| 0 <= i < out@.len() implies {
                    let k = #[trigger] nodes[i];
                    &&& 1 <= k < m + 1
                    &&& ct.path(k) == out@[i].0@
                    &&& out@[i].1 == ct.counts@[k]
                    &&& ct.counts@[k] >= MIN_FREQ
                    &&& ct.path(k).len() >= min_len
                } by {
                    if i < before.len() {
                        assert(out@[i] == before[i]);
                        assert(nodes[i] == nodes0[i]);
                    }
                }
                assert forall|k: int|
                    1 <= k < m + 1 && #[trigger] ct.counts@[k] >= MIN_FREQ && ct.path(k).len()
                        >= min_len implies exists|i: int| 0 <= i < out@.len() && nodes[i] == k by {
                    if k < m {
                        let i = choose|i: int| 0 <= i < before.len() && nodes0[i] == k;
                        assert(nodes[i] == k);
                    } else {
                        assert(nodes[before.len() as int] == k);
                    }
                }
            }
        }
        m = m + 1;
    }
    (out, Ghost(nodes))
}

/// The n-grams of 1 to [`MAX_MATCH`] bytes that occur at least [`MIN_FREQ`]
/// times in `t`, each once, with its number of occurrences.
pub fn frequent_ngrams(t: &[u8]) -> (r: Vec<(Vec<u8>, u64)>)
    ensures
        forall|i: int|
            0 <= i < r@.len() ==> frequent_ngram(t@, (#[trigger] r@[i]).0@) && r@[i].1 == ngram_count(
                t@,
                r@[i].0@,
            ),
        forall|i: int, j: int|
            0 <= i < r@.len() && 0 <= j < r@.len() && i != j ==> (#[trigger] r@[i]).0@ != (
            #[trigger] r@[j]).0@,
        forall|s: Seq<u8>|
            frequent_ngram(t@, s) ==> exists|i: int| 0 <= i < r@.len() && (#[trigger] r@[i]).0@ == s,
{
    let ng = count_ngrams(t);
    let (r, nodes) = frequent_nodes(t, &ng, 1);
    proof {
        assert forall|i: int| 0 <= i < r@.len() implies frequent_ngram(t@, (#[trigger] r@[i]).0@)
            && r@[i].1 == ngram_count(t@, r@[i].0@) by {
            let m = nodes@[i];
            let cm = ng.counts@[m];
        }
        assert forall|i: int, j: int|
            0 <= i < r@.len() && 0 <= j < r@.len() && i != j implies (#[trigger] r@[i]).0@ != (
            #[trigger] r@[j]).0@ by {
            let a = nodes@[i];
            let c = nodes@[j];
            assert(a != c);
            assert(ng.trie.paths@[a] != ng.trie.paths@[c]);
        }
        assert forall|s: Seq<u8>| frequent_ngram(t@, s) implies exists|i: int|
            0 <= i < r@.len() && (#[trigger] r@[i]).0@ == s by {
            assert(ng.trie.has_node(s));
            let k = ng.trie.node_of(s);
            assert(ng.trie.paths@[k] == s);
            if k == 0 {
                assert(ng.trie.paths@[0] == Seq::<u8>::empty());
            }
            let ck = ng.counts@[k];
            assert(ng.path(k) == s);
            assert(ng.counts@[k] >= MIN_FREQ);
            let i = choose|i: int| 0 <= i < r@.len() && nodes@[i] == k;
            assert(r@[i].0@ == s);
        }
    }
    r
}

/// The words of 2 bytes or more (cut at [`MAX_WORD`]) that occur at least
/// [`MIN_FREQ`] times in `t`, each once, with its number of occurrences.
pub fn frequent_words(t: &[u8]) -> (r: Vec<(Vec<u8>, u64)>)
    ensures
        forall|i: int|
            0 <= i < r@.len() ==> (#[trigger] r@[i]).0@.len() > 1 && word_count(t@, r@[i].0@)
                >= MIN_FREQ && r@[i].1 == word_count(t@, r@[i].0@),
        forall|i: int, j: int|
            0 <= i < r@.len() && 0 <= j < r@.len() && i != j ==> (#[trigger] r@[i]).0@ != (
            #[trigger] r@[j]).0@,
        forall|s: Seq<u8>|
            s.len() > 1 && word_count(t@, s) >= MIN_FREQ ==> exists|i: int|
                0 <= i < r@.len() && (#[trigger] r@[i]).0@ == s,
{
    let wd = count_words(t);
    let (r, nodes) = frequent_nodes(t, &wd, 2);
    proof {
        assert forall|i: int| 0 <= i < r@.len() implies (#[trigger] r@[i]).0@.len() > 1 && word_count(
            t@,
            r@[i].0@,
        ) >= MIN_FREQ && r@[i].1 == word_count(t@, r@[i].0@) by {
            let m = nodes@[i];
            let cm = wd.counts@[m];
        }
        assert forall|i: int, j: int|
            0 <= i < r@.len() && 0 <= j < r@.len() && i != j implies (#[trigger] r@[i]).0@ != (
            #[trigger] r@[j]).0@ by {
            let a = nodes@[i];
            let c = nodes@[j];
            assert(a != c);
            assert(wd.trie.paths@[a] != wd.trie.paths@[c]);
        }
        assert forall|s: Seq<u8>| s.len() > 1 && word_count(t@, s) >= MIN_FREQ implies exists|i: int|
            0 <= i < r@.len() && (#[trigger] r@[i]).0@ == s by {
            assert(wd.trie.has_node(s));
            let k = wd.trie.node_of(s);
            assert(wd.trie.paths@[k] == s);
            if k == 0 {
                assert(wd.trie.paths@[0] == Seq::<u8>::empty());
            }
            let ck = wd.counts@[k];
            assert(wd.path(k) == s);
            assert(wd.counts@[k] >= MIN_FREQ);
            let i = choose|i: int| 0 <= i < r@.len() && nodes@[i] == k;
            assert(r@[i].0@ == s);
        }
    }
    r
}

/// Two top-ranked lists for the same corpus, width and slots agree on
/// their first `i` blocks.
proof fn lemma_top_ranked_prefix(
    t: Seq<u8>,
    b: nat,
    slots: nat,
    bl1: Seq<Seq<u8>>,
    bl2: Seq<Seq<u8>>,
    i: int,
)
    requires
        top_ranked(t, b, slots, bl1),
        top_ranked(t, b, slots, bl2),
        0 <= i <= bl1.len(),
        i <= bl2.len(),
    ensures
        bl1.take(i) == bl2.take(i),
    decreases i,
{
    if i > 0 {
        let k = i - 1;
        lemma_top_ranked_prefix(t, b, slots, bl1, bl2, k);
        let x = bl1[k];
        let y = bl2[k];
        lemma_rank_order(t, b, x, y, x);
        if x != y {
            if ranks_before(t, b, x, y) {
                if bl2.contains(x) {
                    let j = choose|j: int| 0 <= j < bl2.len() && bl2[j] == x;
                    if j < k {
                        assert(bl1.take(k)[j] == bl2.take(k)[j]);
                        assert(ranks_before(t, b, bl1[j], bl1[k]));
                        lemma_rank_order(t, b, x, x, x);
                    } else if j > k {
                        assert(ranks_before(t, b, bl2[k], bl2[j]));
                    }
                } else {
                    assert(is_candidate(t, x, b));
                    assert(ranks_before(t, b, bl2[k], x));
                }
            } else {
                assert(ranks_before(t, b, y, x));
                if bl1.contains(y) {
                    let j = choose|j: int| 0 <= j < bl1.len() && bl1[j] == y;
                    if j < k {
                        assert(bl1.take(k)[j] == bl2.take(k)[j]);
                        assert(ranks_before(t, b, bl2[j], bl2[k]));
                        lemma_rank_order(t, b, y, y, y);
                    } else if j > k {
                        assert(ranks_before(t, b, bl1[k], bl1[j]));
                    }
                } else {
                    assert(is_candidate(t, y, b));
                    assert(ranks_before(t, b, bl1[k], y));
                }
            }
        }
        assert(bl1.take(i) =~= bl1.take(k).push(x));
        assert(bl2.take(i) =~= bl2.take(k).push(y));
    }
}

/// The top-ranked blocks are unique: training the same corpus for the same
/// width always chooses the same blocks, in the same order.
pub proof fn lemma_top_ranked_unique(
    t: Seq<u8>,
    b: nat,
    slots: nat,
    bl1: Seq<Seq<u8>>,
    bl2: Seq<Seq<u8>>,
)
    requires
        top_ranked(t, b, slots, bl1),
        top_ranked(t, b, slots, bl2),
    ensures
        bl1 == bl2,
{
    if bl1.len() < bl2.len() {
        lemma_top_ranked_prefix(t, b, slots, bl1, bl2, bl1.len() as int);
        let z = bl2[bl1.len() as int];
        if bl1.contains(z) {
            let j = choose|j: int| 0 <= j < bl1.len() && bl1[j] == z;
            assert(bl1.take(bl1.len() as int)[j] == bl2.take(bl1.len() as int)[j]);
            assert(ranks_before(t, b, bl2[j], z));
            lemma_rank_order(t, b, z, z, z);
        }
        assert(is_candidate(t, z, b));
    } else if bl2.len() < bl1.len() {
        lemma_top_ranked_prefix(t, b, slots, bl2, bl1, bl2.len() as int);
        let z = bl1[bl2.len() as int];
        if bl2.contains(z) {
            let j = choose|j: int| 0 <= j < bl2.len() && bl2[j] == z;
            assert(bl2.take(bl2.len() as int)[j] == bl1.take(bl2.len() as int)[j]);
            assert(ranks_before(t, b, bl1[j], z));
            lemma_rank_order(t, b, z, z, z);
        }
        assert(is_candidate(t, z, b));
    } else {
        lemma_top_ranked_prefix(t, b, slots, bl1, bl2, bl1.len() as int);
        assert(bl1 =~= bl1.take(bl1.len() as int));
        assert(bl2 =~= bl2.take(bl2.len() as int));
    }
}

/// In the higher band a single byte is never a candidate: it would cost
/// more than the 8 bits of its legacy code.
pub proof fn lemma_higher_candidates_span_two_bytes(t: Seq<u8>, b: nat, s: Seq<u8>)
    requires
        b > 8,
        is_candidate(t, s, b),
    ensures
        s.len() >= 2,
{
    if s.len() <= 1 {
        let f = candidate_freq(t, s);
        assert(8 * s.len() - b < 0);
        assert(f * (8 * s.len() - b) <= 0) by (nonlinear_arith)
            requires
                f >= 0,
                8 * s.len() - b < 0,
        ;
    }
}

} // verus!
