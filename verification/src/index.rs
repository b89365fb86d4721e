//! A single-field inverted index over fixed-length byte grams.
//!
//! `TextIndex` slides a window of `n` bytes (stride 1) over every inserted
//! text and keeps, per gram, a posting list of occurrence counts, together
//! with a running total-document count. A search slides the same window
//! over the query and accumulates, per document, the fixed-point relevance
//! terms of the matched grams.

use vstd::prelude::*;
use vstd::arithmetic::power2::{lemma_pow2_adds, lemma2_to64, lemma2_to64_rest, pow2};

use crate::assoc::{keys_unique, lemma_lookup_absent, lemma_lookup_at, lemma_lookup_push_one,
    lemma_lookup_some_index, lemma_lookup_some_index_converse, lemma_lookup_update_one, lookup};
use crate::posting::{lemma_count_at, lemma_has_id_index, Freqs};
use crate::score::{sat_add, sat_add_i64, term_fp, term_spec};

verus! {

/// Identifier of a document, supplied by the caller. The engine only needs
/// equality, a total order and cheap duplication of it.
pub type DocId = u64;

/// The numeric key of a gram: its bytes read as one base-256 numeral.
/// Injective over sequences of one fixed length up to 8.
pub open spec fn gram_key(s: Seq<u8>) -> nat
    decreases s.len(),
{
    if s.len() == 0 {
        0
    } else {
        (gram_key(s.drop_last()) * 256 + s.last()) as nat
    }
}

/// Number of windows of length `n` in a text of length `len`.
pub open spec fn win_len(len: nat, n: nat) -> nat {
    if len < n {
        0
    } else {
        (len - n + 1) as nat
    }
}

/// How many of the first `j` windows of `t` carry the gram key `g`.
pub open spec fn occ_upto(t: Seq<u8>, n: nat, g: int, j: nat) -> nat
    decreases j,
{
    if j == 0 {
        0
    } else {
        occ_upto(t, n, g, (j - 1) as nat) + if gram_key(t.subrange(j - 1, j - 1 + n)) == g {
            1nat
        } else {
            0nat
        }
    }
}

/// How often the gram key `g` occurs among the windows of `t`.
pub open spec fn occ(t: Seq<u8>, n: nat, g: int) -> nat {
    occ_upto(t, n, g, win_len(t.len(), n))
}

/// Windows contributed by the first `j` texts of a group.
pub open spec fn wins_upto(ts: Seq<Seq<u8>>, n: nat, j: nat) -> nat
    decreases j,
{
    if j == 0 {
        0
    } else {
        wins_upto(ts, n, (j - 1) as nat) + win_len(ts[j - 1].len(), n)
    }
}

/// Occurrences of gram key `g` over the first `j` texts of a group.
pub open spec fn occ_many_upto(ts: Seq<Seq<u8>>, n: nat, g: int, j: nat) -> nat
    decreases j,
{
    if j == 0 {
        0
    } else {
        occ_many_upto(ts, n, g, (j - 1) as nat) + occ(ts[j - 1], n, g)
    }
}

/// Occurrences of gram key `g` over a whole group of texts.
pub open spec fn occ_many(ts: Seq<Seq<u8>>, n: nat, g: int) -> nat {
    occ_many_upto(ts, n, g, ts.len())
}

/// One field's inverted index.
pub struct TextIndex {
    /// Gram length; between 1 and 8, fixed at construction.
    pub n: usize,
    /// Count of document-level insert operations, less removals (never
    /// below 0: a removal from an empty index leaves it at 0).
    pub total_docs: u64,
    /// Upper bound on every occurrence count: the number of window
    /// increments ever applied. Insertions that would push it past
    /// `u64::MAX` are refused, so no count can overflow.
    pub mass: u64,
    /// The posting list of each gram seen so far, keyed by `gram_key`.
    /// A list may become empty through removals; it is not pruned.
    pub grams: Vec<(u64, Freqs)>,
}

impl TextIndex {
    /// Structural invariant: valid gram length, unique gram keys,
    /// well-formed posting lists whose counts stay at or below `mass`.
    pub open spec fn wf(self) -> bool {
        &&& 1 <= self.n <= 8
        &&& keys_unique(self.grams@)
        &&& forall|i: int| 0 <= i < self.grams@.len() ==> (#[trigger] self.grams@[i]).1.wf()
        &&& forall|i: int|
            0 <= i < self.grams@.len() ==> (#[trigger] self.grams@[i]).1.maxf <= self.mass
    }

    /// Whether a posting list exists for gram key `g` (it may be empty).
    pub open spec fn has_gram(self, g: int) -> bool {
        g == g as u64 && lookup(self.grams@, g as u64) is Some
    }

    /// Occurrence count of gram `g` in document `d`, 0 when absent.
    pub open spec fn count(self, g: int, d: DocId) -> nat {
        if g == g as u64 {
            match lookup(self.grams@, g as u64) {
                Some(f) => f.count_of(d),
                None => 0,
            }
        } else {
            0
        }
    }

    /// Number of distinct documents in gram `g`'s posting list.
    pub open spec fn gram_docs(self, g: int) -> nat {
        if g == g as u64 {
            match lookup(self.grams@, g as u64) {
                Some(f) => f.docs(),
                None => 0,
            }
        } else {
            0
        }
    }

    /// Cached greatest occurrence count in gram `g`'s posting list.
    pub open spec fn gram_max(self, g: int) -> nat {
        if g == g as u64 {
            match lookup(self.grams@, g as u64) {
                Some(f) => f.maxf as nat,
                None => 0,
            }
        } else {
            0
        }
    }

    /// Whether one insertion of a text of `tlen` bytes fits: the window
    /// increments must not overflow `mass` and the total-document count
    /// must not overflow. Every physically possible input fits.
    pub open spec fn accepts_one(self, tlen: nat) -> bool {
        &&& self.mass + win_len(tlen, self.n as nat) <= u64::MAX
        &&& self.total_docs < u64::MAX
    }

    /// Whether one grouped insertion of the texts `ts` fits.
    pub open spec fn accepts_many(self, ts: Seq<Seq<u8>>) -> bool {
        &&& self.mass + wins_upto(ts, self.n as nat, ts.len()) <= u64::MAX
        &&& self.total_docs < u64::MAX
    }
}

/// How a successful `insert` changes the index: every gram of the text
/// raises `id`'s count by its number of occurrences, the total-document
/// count rises by exactly one, and nothing else changes.
pub open spec fn inserted_one(pre: TextIndex, post: TextIndex, id: DocId, t: Seq<u8>) -> bool {
    &&& post.n == pre.n
    &&& post.total_docs == pre.total_docs + 1
    &&& post.mass == pre.mass + win_len(t.len(), pre.n as nat)
    &&& forall|g: int, d: DocId|
        #[trigger] post.count(g, d) == pre.count(g, d) + if d == id {
            occ(t, pre.n as nat, g)
        } else {
            0nat
        }
    &&& forall|g: int|
        #[trigger] post.has_gram(g) <==> (pre.has_gram(g) || (g == g as u64 && occ(
            t,
            pre.n as nat,
            g,
        ) > 0))
}

/// How a successful `insert_many` changes the index: as `inserted_one`,
/// over all texts of the group together, with the total-document count
/// raised by exactly one for the whole group.
pub open spec fn inserted_many(pre: TextIndex, post: TextIndex, id: DocId, ts: Seq<Seq<u8>>) -> bool {
    &&& post.n == pre.n
    &&& post.total_docs == pre.total_docs + 1
    &&& post.mass == pre.mass + wins_upto(ts, pre.n as nat, ts.len())
    &&& forall|g: int, d: DocId|
        #[trigger] post.count(g, d) == pre.count(g, d) + if d == id {
            occ_many(ts, pre.n as nat, g)
        } else {
            0nat
        }
}

/// How `remove` changes the index: each of `id`'s per-gram counts drops by
/// one (entries at one are dropped), and the total-document count drops by
/// one, saturating at zero.
pub open spec fn removed_one(pre: TextIndex, post: TextIndex, id: DocId) -> bool {
    &&& post.n == pre.n
    &&& post.mass == pre.mass
    &&& post.total_docs == if pre.total_docs > 0 {
        (pre.total_docs - 1) as int
    } else {
        0int
    }
    &&& forall|g: int, d: DocId|
        #[trigger] post.count(g, d) == if d == id && pre.count(g, d) > 0 {
            (pre.count(g, d) - 1) as nat
        } else {
            pre.count(g, d)
        }
    &&& forall|g: int| #[trigger] post.has_gram(g) <==> pre.has_gram(g)
}

impl TextIndex {
    /// Create an empty index over grams of `n` bytes. A gram length outside
    /// `1..=8` is rejected at construction, before any state exists.
    pub fn new(n: usize) -> (r: Option<TextIndex>)
        ensures
            r is Some <==> 1 <= n <= 8,
            match r {
                Some(idx) => {
                    &&& idx.wf()
                    &&& idx.n == n
                    &&& idx.total_docs == 0
                    &&& idx.mass == 0
                    &&& forall|g: int, d: DocId| idx.count(g, d) == 0
                    &&& forall|g: int| !idx.has_gram(g)
                },
                None => true,
            },
    {
        if n < 1 || n > 8 {
            None
        } else {
            let idx = TextIndex { n, total_docs: 0, mass: 0, grams: Vec::new() };
            proof {
                assert forall|g: int, d: DocId| idx.count(g, d) == 0 by {
                    assert(lookup(idx.grams@, g as u64) == None::<Freqs>);
                }
                assert forall|g: int| !idx.has_gram(g) by {
                    assert(lookup(idx.grams@, g as u64) == None::<Freqs>);
                }
            }
            Some(idx)
        }
    }

    /// Index of gram key `k`'s entry, when there is one.
    fn find_gram(&self, k: u64) -> (r: Option<usize>)
        ensures
            match r {
                Some(i) => 0 <= i < self.grams@.len() && self.grams@[i as int].0 == k,
                None => forall|j: int| 0 <= j < self.grams@.len() ==> self.grams@[j].0 != k,
            },
    {
        let mut i: usize = 0;
        while i < self.grams.len()
            invariant
                0 <= i <= self.grams@.len(),
                forall|j: int| 0 <= j < i ==> self.grams@[j].0 != k,
            decreases self.grams@.len() - i,
        {
            if self.grams[i].0 == k {
                return Some(i);
            }
            i = i + 1;
        }
        None
    }
}

/// A gram key of at most 8 bytes fits in 64 bits.
pub proof fn lemma_gram_key_bound(s: Seq<u8>)
    requires
        s.len() <= 8,
    ensures
        gram_key(s) < pow2((8 * s.len()) as nat),
        gram_key(s) <= u64::MAX,
    decreases s.len(),
{
    if s.len() == 0 {
        lemma2_to64();
    } else {
        lemma_gram_key_bound(s.drop_last());
        let l1 = (s.len() - 1) as nat;
        lemma_pow2_adds((8 * l1) as nat, 8);
        lemma2_to64();
        assert(gram_key(s.drop_last()) * 256 <= (pow2((8 * l1) as nat) - 1) * 256) by {
            vstd::arithmetic::mul::lemma_mul_inequality(
                gram_key(s.drop_last()) as int,
                pow2((8 * l1) as nat) - 1,
                256,
            );
        }
    }
    if s.len() < 8 {
        vstd::arithmetic::power2::lemma_pow2_strictly_increases((8 * s.len()) as nat, 64);
    }
    lemma2_to64_rest();
    assert(pow2(64) == 0x10000000000000000);
}

impl TextIndex {
    /// The 64-bit gram key of the window of `n` bytes starting at `i`.
    fn window_key(text: &Vec<u8>, i: usize, n: usize) -> (r: u64)
        requires
            1 <= n <= 8,
            i + n <= text@.len(),
        ensures
            r as nat == gram_key(text@.subrange(i as int, i as int + n as int)),
    {
        let mut k: u64 = 0;
        let mut j: usize = 0;
        let _tl = text.len();
        proof {
            assert(text@.len() == _tl);
            lemma2_to64();
            assert(text@.subrange(i as int, i as int) =~= Seq::<u8>::empty());
        }
        while j < n
            invariant
                0 <= j <= n,
                i + n <= text@.len() <= usize::MAX,
                k as nat == gram_key(text@.subrange(i as int, i as int + j as int)),
                (k as nat) < pow2((8 * j) as nat),
            decreases n - j,
        {
            let b = text[i + j];
            proof {
                lemma_pow2_adds((8 * j) as nat, 8);
                lemma2_to64();
                if j + 1 < 8 {
                    vstd::arithmetic::power2::lemma_pow2_strictly_increases(
                        (8 * (j + 1)) as nat,
                        64,
                    );
                }
                lemma2_to64_rest();
                assert(pow2(64) == 0x10000000000000000);
                assert((k as nat) * 256 <= (pow2((8 * j) as nat) - 1) * 256) by {
                    vstd::arithmetic::mul::lemma_mul_inequality(
                        k as int,
                        pow2((8 * j) as nat) - 1,
                        256,
                    );
                }
            }
            k = k * 256 + (b as u64);
            proof {
                let pre = text@.subrange(i as int, i as int + j as int);
                let cur = text@.subrange(i as int, i as int + j as int + 1);
                assert(cur.drop_last() =~= pre);
                assert(cur.last() == text@[i as int + j as int]);
            }
            j = j + 1;
        }
        k
    }

    /// Record every window of `text` as one more occurrence for `id`.
    /// `b` is a caller-supplied bound on all current counts; the windows
    /// of this text must fit above it without overflow.
    fn add_windows(&mut self, id: DocId, text: &Vec<u8>, Ghost(b): Ghost<u64>)
        requires
            1 <= old(self).n <= 8,
            keys_unique(old(self).grams@),
            forall|i: int|
                0 <= i < old(self).grams@.len() ==> (#[trigger] old(self).grams@[i]).1.wf(),
            forall|i: int|
                0 <= i < old(self).grams@.len() ==> (#[trigger] old(self).grams@[i]).1.maxf <= b,
            b + win_len(text@.len(), old(self).n as nat) <= u64::MAX,
        ensures
            final(self).n == old(self).n,
            final(self).total_docs == old(self).total_docs,
            final(self).mass == old(self).mass,
            keys_unique(final(self).grams@),
            forall|i: int|
                0 <= i < final(self).grams@.len() ==> (#[trigger] final(self).grams@[i]).1.wf(),
            forall|i: int|
                0 <= i < final(self).grams@.len() ==> (#[trigger] final(self).grams@[i]).1.maxf
                    <= b + win_len(text@.len(), old(self).n as nat),
            forall|g: int, d: DocId|
                #[trigger] final(self).count(g, d) == old(self).count(g, d) + if d == id {
                    occ(text@, old(self).n as nat, g)
                } else {
                    0nat
                },
            forall|g: int|
                #[trigger] final(self).has_gram(g) <==> (old(self).has_gram(g) || (g == g as u64
                    && occ(text@, old(self).n as nat, g) > 0)),
    {
        let n = self.n;
        let ghost t = text@;
        let ghost nn = n as nat;
        if text.len() < n {
            proof {
                assert(win_len(t.len(), nn) == 0);
                assert(forall|g: int| occ(t, nn, g) == 0);
            }
            return;
        }
        let w = text.len() - n + 1;
        let mut i: usize = 0;
        while i < w
            invariant
                0 <= i <= w,
                w == win_len(t.len(), nn),
                self.n == old(self).n,
                self.total_docs == old(self).total_docs,
                self.mass == old(self).mass,
                keys_unique(self.grams@),
                forall|x: int| 0 <= x < self.grams@.len() ==> (#[trigger] self.grams@[x]).1.wf(),
                forall|x: int|
                    0 <= x < self.grams@.len() ==> (#[trigger] self.grams@[x]).1.maxf <= b + i,
                forall|g: int, d: DocId|
                    #[trigger] self.count(g, d) == old(self).count(g, d) + if d == id {
                        occ_upto(t, nn, g, i as nat)
                    } else {
                        0nat
                    },
                forall|g: int|
                    #[trigger] self.has_gram(g) <==> (old(self).has_gram(g) || (g == g as u64
                        && occ_upto(t, nn, g, i as nat) > 0)),
            decreases w - i,
        {
            let k = Self::window_key(text, i, n);
            let ghost s = self.grams@;
            let ghost pre = *self;
            proof {
                lemma_gram_key_bound(t.subrange(i as int, i as int + n as int));
            }
            match self.find_gram(k) {
                Some(gi) => {
                    proof {
                        assert forall|j: int| 0 <= j < s.len() && j != gi implies (#[trigger] s[j]).0
                            != k by {}
                        lemma_lookup_at(s, k, gi as int);
                        crate::posting::lemma_count_le_max(s[gi as int].1, id);
                    }
                    let (kk, mut f) = self.grams.remove(gi);
                    f.increase(id);
                    self.grams.insert(gi, (kk, f));
                    proof {
                        assert(self.grams@ =~= s.update(gi as int, (k, f)));
                        assert(keys_unique(self.grams@)) by {
                            assert(forall|x: int|
                                0 <= x < self.grams@.len() ==> (#[trigger] self.grams@[x]).0
                                    == s[x].0);
                        }
                        assert forall|g: int, d: DocId|
                            #[trigger] self.count(g, d) == pre.count(g, d) + (if d == id && g
                                == k as int {
                                1nat
                            } else {
                                0nat
                            }) by {
                            if g == g as u64 {
                                lemma_lookup_update_one(s, k, gi as int, f, g as u64);
                            }
                        }
                        assert forall|g: int| #[trigger] self.has_gram(g) <==> (pre.has_gram(g) || g
                            == k as int) by {
                            if g == g as u64 {
                                lemma_lookup_update_one(s, k, gi as int, f, g as u64);
                            }
                            if g == k as int {
                                assert(self.has_gram(g));
                            }
                        }
                    }
                },
                None => {
                    let mut f = Freqs::new();
                    f.increase(id);
                    self.grams.push((k, f));
                    proof {
                        lemma_lookup_absent::<Freqs>(s, k);
                        assert(keys_unique(self.grams@)) by {
                            assert(forall|x: int| 0 <= x < s.len() ==> self.grams@[x] == s[x]);
                            assert(self.grams@[s.len() as int] == (k, f));
                        }
                        assert forall|g: int, d: DocId|
                            #[trigger] self.count(g, d) == pre.count(g, d) + (if d == id && g
                                == k as int {
                                1nat
                            } else {
                                0nat
                            }) by {
                            if g == g as u64 {
                                lemma_lookup_push_one(s, k, f, g as u64);
                            }
                        }
                        assert forall|g: int| #[trigger] self.has_gram(g) <==> (pre.has_gram(g) || g
                            == k as int) by {
                            if g == g as u64 {
                                lemma_lookup_push_one(s, k, f, g as u64);
                            }
                            if g == k as int {
                                assert(self.has_gram(g));
                            }
                        }
                    }
                },
            }
            proof {
                assert forall|g: int, d: DocId|
                    #[trigger] self.count(g, d) == old(self).count(g, d) + (if d == id {
                        occ_upto(t, nn, g, (i + 1) as nat)
                    } else {
                        0nat
                    }) by {
                    assert(occ_upto(t, nn, g, (i + 1) as nat) == occ_upto(t, nn, g, i as nat) + (
                    if gram_key(t.subrange(i as int, i as int + nn)) == g {
                        1nat
                    } else {
                        0nat
                    }));
                    assert(self.count(g, d) == pre.count(g, d) + (if d == id && g == k as int {
                        1nat
                    } else {
                        0nat
                    }));
                }
                assert forall|g: int|
                    #[trigger] self.has_gram(g) <==> (old(self).has_gram(g) || (g == g as u64
                        && occ_upto(t, nn, g, (i + 1) as nat) > 0)) by {
                    assert(occ_upto(t, nn, g, (i + 1) as nat) == occ_upto(t, nn, g, i as nat) + (
                    if gram_key(t.subrange(i as int, i as int + nn)) == g {
                        1nat
                    } else {
                        0nat
                    }));
                    assert(self.has_gram(g) <==> (pre.has_gram(g) || g == k as int));
                }
            }
            i = i + 1;
        }
    }
}

/// More texts contribute at least as many windows.
pub proof fn lemma_wins_upto_mono(ts: Seq<Seq<u8>>, n: nat, j1: nat, j2: nat)
    requires
        j1 <= j2,
    ensures
        wins_upto(ts, n, j1) <= wins_upto(ts, n, j2),
    decreases j2 - j1,
{
    if j1 < j2 {
        lemma_wins_upto_mono(ts, n, j1, (j2 - 1) as nat);
    }
}

impl TextIndex {
    /// Insert one document-level text: every window of `text` counts one
    /// occurrence for `id`, and the total-document count rises by exactly
    /// one, even when the text is shorter than the gram length. Returns
    /// `false`, changing nothing, exactly when a counter would overflow.
    pub fn insert(&mut self, id: DocId, text: &Vec<u8>) -> (r: bool)
        requires
            old(self).wf(),
        ensures
            final(self).wf(),
            r == old(self).accepts_one(text@.len()),
            r ==> inserted_one(*old(self), *final(self), id, text@),
            !r ==> *final(self) == *old(self),
    {
        let n = self.n;
        let w: usize = if text.len() < n {
            0
        } else {
            text.len() - n + 1
        };
        proof {
            assert(w == win_len(text@.len(), n as nat));
        }
        if self.total_docs == u64::MAX {
            return false;
        }
        if (w as u64) > u64::MAX - self.mass {
            return false;
        }
        self.add_windows(id, text, Ghost(self.mass));
        let ghost mid = *self;
        self.mass = self.mass + (w as u64);
        self.total_docs = self.total_docs + 1;
        proof {
            assert forall|g: int, d: DocId|
                #[trigger] self.count(g, d) == old(self).count(g, d) + (if d == id {
                    occ(text@, old(self).n as nat, g)
                } else {
                    0nat
                }) by {
                assert(self.count(g, d) == mid.count(g, d));
            }
            assert forall|g: int|
                #[trigger] self.has_gram(g) <==> (old(self).has_gram(g) || (g == g as u64 && occ(
                    text@,
                    old(self).n as nat,
                    g,
                ) > 0)) by {
                assert(self.has_gram(g) == mid.has_gram(g));
            }
        }
        true
    }

    /// Insert a group of texts as one document: every window of every text
    /// counts one occurrence for `id`, but the total-document count rises
    /// by exactly one for the whole group — also for an empty group.
    /// Returns `false`, changing nothing, exactly when a counter would
    /// overflow; the check happens before any state is touched.
    pub fn insert_many(&mut self, id: DocId, texts: &Vec<Vec<u8>>) -> (r: bool)
        requires
            old(self).wf(),
        ensures
            final(self).wf(),
            r == old(self).accepts_many(texts.deep_view()),
            r ==> inserted_many(*old(self), *final(self), id, texts.deep_view()),
            !r ==> *final(self) == *old(self),
    {
        let n = self.n;
        let ghost ts = texts.deep_view();
        let ghost nn = n as nat;
        proof {
            assert(ts.len() == texts@.len());
        }
        let mut need: u64 = 0;
        let mut over: bool = false;
        let mut j: usize = 0;
        while j < texts.len()
            invariant
                0 <= j <= texts@.len(),
                !over ==> need == wins_upto(ts, nn, j as nat),
                over ==> wins_upto(ts, nn, j as nat) > u64::MAX,
            decreases texts@.len() - j,
        {
            let t = &texts[j];
            let w: usize = if t.len() < n {
                0
            } else {
                t.len() - n + 1
            };
            proof {
                assert(ts[j as int] =~= texts@[j as int]@);
                assert(w == win_len(ts[j as int].len(), nn));
                assert(wins_upto(ts, nn, (j + 1) as nat) == wins_upto(ts, nn, j as nat) + win_len(
                    ts[j as int].len(),
                    nn,
                ));
            }
            if !over {
                if (w as u64) > u64::MAX - need {
                    over = true;
                } else {
                    need = need + (w as u64);
                }
            }
            j = j + 1;
        }
        if over {
            return false;
        }
        if self.total_docs == u64::MAX {
            return false;
        }
        if need > u64::MAX - self.mass {
            return false;
        }
        let ghost m0 = self.mass;
        let mut j2: usize = 0;
        while j2 < texts.len()
            invariant
                0 <= j2 <= texts@.len(),
                need == wins_upto(ts, nn, ts.len()),
                m0 + need <= u64::MAX,
                self.n == old(self).n,
                self.total_docs == old(self).total_docs,
                self.mass == old(self).mass == m0,
                keys_unique(self.grams@),
                forall|x: int| 0 <= x < self.grams@.len() ==> (#[trigger] self.grams@[x]).1.wf(),
                forall|x: int|
                    0 <= x < self.grams@.len() ==> (#[trigger] self.grams@[x]).1.maxf <= m0
                        + wins_upto(ts, nn, j2 as nat),
                forall|g: int, d: DocId|
                    #[trigger] self.count(g, d) == old(self).count(g, d) + if d == id {
                        occ_many_upto(ts, nn, g, j2 as nat)
                    } else {
                        0nat
                    },
            decreases texts@.len() - j2,
        {
            let t = &texts[j2];
            let ghost pre = *self;
            proof {
                assert(ts[j2 as int] =~= texts@[j2 as int]@);
                lemma_wins_upto_mono(ts, nn, (j2 + 1) as nat, ts.len());
                assert(wins_upto(ts, nn, (j2 + 1) as nat) == wins_upto(ts, nn, j2 as nat)
                    + win_len(ts[j2 as int].len(), nn));
            }
            let ghost b = (m0 + wins_upto(ts, nn, j2 as nat)) as u64;
            self.add_windows(id, t, Ghost(b));
            proof {
                assert forall|g: int, d: DocId|
                    #[trigger] self.count(g, d) == old(self).count(g, d) + (if d == id {
                        occ_many_upto(ts, nn, g, (j2 + 1) as nat)
                    } else {
                        0nat
                    }) by {
                    assert(occ_many_upto(ts, nn, g, (j2 + 1) as nat) == occ_many_upto(
                        ts,
                        nn,
                        g,
                        j2 as nat,
                    ) + occ(ts[j2 as int], nn, g));
                    assert(self.count(g, d) == pre.count(g, d) + (if d == id {
                        occ(texts@[j2 as int]@, nn, g)
                    } else {
                        0nat
                    }));
                }
            }
            j2 = j2 + 1;
        }
        let ghost mid = *self;
        self.mass = self.mass + need;
        self.total_docs = self.total_docs + 1;
        proof {
            assert forall|g: int, d: DocId|
                #[trigger] self.count(g, d) == old(self).count(g, d) + (if d == id {
                    occ_many(ts, nn, g)
                } else {
                    0nat
                }) by {
                assert(self.count(g, d) == mid.count(g, d));
            }
        }
        true
    }

    /// Whether `insert` would accept a text of this length, without
    /// touching any state.
    pub fn can_insert(&self, text: &Vec<u8>) -> (r: bool)
        requires
            self.wf(),
        ensures
            r == self.accepts_one(text@.len()),
    {
        let n = self.n;
        let w: usize = if text.len() < n {
            0
        } else {
            text.len() - n + 1
        };
        self.total_docs < u64::MAX && (w as u64) <= u64::MAX - self.mass
    }

    /// Whether `insert_many` would accept this group of texts, without
    /// touching any state.
    pub fn can_insert_many(&self, texts: &Vec<Vec<u8>>) -> (r: bool)
        requires
            self.wf(),
        ensures
            r == self.accepts_many(texts.deep_view()),
    {
        let n = self.n;
        let ghost ts = texts.deep_view();
        let ghost nn = n as nat;
        proof {
            assert(ts.len() == texts@.len());
        }
        let mut need: u64 = 0;
        let mut over: bool = false;
        let mut j: usize = 0;
        while j < texts.len()
            invariant
                0 <= j <= texts@.len(),
                !over ==> need == wins_upto(ts, nn, j as nat),
                over ==> wins_upto(ts, nn, j as nat) > u64::MAX,
            decreases texts@.len() - j,
        {
            let t = &texts[j];
            let w: usize = if t.len() < n {
                0
            } else {
                t.len() - n + 1
            };
            proof {
                assert(ts[j as int] =~= texts@[j as int]@);
                assert(w == win_len(ts[j as int].len(), nn));
                assert(wins_upto(ts, nn, (j + 1) as nat) == wins_upto(ts, nn, j as nat) + win_len(
                    ts[j as int].len(),
                    nn,
                ));
            }
            if !over {
                if (w as u64) > u64::MAX - need {
                    over = true;
                } else {
                    need = need + (w as u64);
                }
            }
            j = j + 1;
        }
        !over && self.total_docs < u64::MAX && need <= u64::MAX - self.mass
    }

    /// Remove one document: every gram's count for `id` drops by one (an
    /// entry at one disappears), whether or not `id` was ever inserted,
    /// and the total-document count drops by one, saturating at zero.
    pub fn remove(&mut self, id: DocId)
        requires
            old(self).wf(),
        ensures
            final(self).wf(),
            removed_one(*old(self), *final(self), id),
    {
        let ghost s0 = old(self).grams@;
        let mut gi: usize = 0;
        while gi < self.grams.len()
            invariant
                0 <= gi <= s0.len(),
                self.n == old(self).n,
                self.total_docs == old(self).total_docs,
                self.mass == old(self).mass,
                self.grams@.len() == s0.len(),
                forall|x: int| gi <= x < s0.len() ==> self.grams@[x] == s0[x],
                forall|x: int|
                    0 <= x < gi ==> (#[trigger] self.grams@[x]).0 == s0[x].0
                        && self.grams@[x].1.wf() && self.grams@[x].1.maxf <= s0[x].1.maxf
                        && self.grams@[x].1.count_of(id) == (if s0[x].1.count_of(id) > 0 {
                        s0[x].1.count_of(id) - 1
                    } else {
                        0int
                    }) && (forall|d: DocId|
                        d != id ==> self.grams@[x].1.count_of(d) == s0[x].1.count_of(d)),
            decreases s0.len() - gi,
        {
            let ghost siter = self.grams@;
            proof {
                assert(siter[gi as int] == s0[gi as int]);
                assert(s0[gi as int].1.wf());
            }
            let (kk, mut f) = self.grams.remove(gi);
            f.decrease(id);
            self.grams.insert(gi, (kk, f));
            proof {
                assert(self.grams@ =~= siter.update(gi as int, (kk, f)));
            }
            gi = gi + 1;
        }
        if self.total_docs > 0 {
            self.total_docs = self.total_docs - 1;
        }
        proof {
            assert(keys_unique(self.grams@)) by {
                assert(forall|x: int|
                    0 <= x < self.grams@.len() ==> (#[trigger] self.grams@[x]).0 == s0[x].0);
            }
            assert forall|g: int, d: DocId|
                #[trigger] final(self).count(g, d) == (if d == id && old(self).count(g, d) > 0 {
                    (old(self).count(g, d) - 1) as nat
                } else {
                    old(self).count(g, d)
                }) by {
                if g == g as u64 {
                    let k = g as u64;
                    if lookup(s0, k) is Some {
                        lemma_lookup_some_index(s0, k);
                        let x = choose|x: int| 0 <= x < s0.len() && (#[trigger] s0[x]).0 == k;
                        assert forall|j: int| 0 <= j < s0.len() && j != x implies (
                        #[trigger] s0[j]).0 != k by {}
                        lemma_lookup_at(s0, k, x);
                        assert forall|j: int|
                            0 <= j < self.grams@.len() && j != x implies (
                        #[trigger] self.grams@[j]).0 != k by {
                            assert(self.grams@[j].0 == s0[j].0);
                        }
                        lemma_lookup_at(self.grams@, k, x);
                    } else {
                        lemma_lookup_some_index_converse(s0, k);
                        assert forall|j: int| 0 <= j < self.grams@.len() implies (
                        #[trigger] self.grams@[j]).0 != k by {
                            assert(self.grams@[j].0 == s0[j].0);
                        }
                        lemma_lookup_absent::<crate::posting::Freqs>(self.grams@, k);
                    }
                }
            }
            assert forall|g: int| #[trigger] final(self).has_gram(g) <==> old(self).has_gram(
                g,
            ) by {
                if g == g as u64 {
                    let k = g as u64;
                    if lookup(s0, k) is Some {
                        lemma_lookup_some_index(s0, k);
                        let x = choose|x: int| 0 <= x < s0.len() && (#[trigger] s0[x]).0 == k;
                        assert forall|j: int|
                            0 <= j < self.grams@.len() && j != x implies (
                        #[trigger] self.grams@[j]).0 != k by {
                            assert(self.grams@[j].0 == s0[j].0);
                        }
                        lemma_lookup_at(self.grams@, k, x);
                    } else {
                        lemma_lookup_some_index_converse(s0, k);
                        assert forall|j: int| 0 <= j < self.grams@.len() implies (
                        #[trigger] self.grams@[j]).0 != k by {
                            assert(self.grams@[j].0 == s0[j].0);
                        }
                        lemma_lookup_absent::<crate::posting::Freqs>(self.grams@, k);
                    }
                }
            }
        }
    }
}

/// Accumulated score stored for `d` in a result sequence, 0 when absent.
pub open spec fn score_in(s: Seq<(u64, i64)>, d: u64) -> int {
    match lookup(s, d) {
        None => 0,
        Some(v) => v as int,
    }
}

impl TextIndex {
    /// Fixed-point contribution of gram `g` to document `d`'s score.
    pub open spec fn gram_term(self, g: int, d: DocId) -> int {
        term_spec(
            self.count(g, d) as int,
            self.gram_max(g) as int,
            self.total_docs as int,
            self.gram_docs(g) as int,
        )
    }

    /// `d`'s accumulated score over the first `j` windows of the query.
    pub open spec fn score_upto(self, t: Seq<u8>, d: DocId, j: nat) -> int
        decreases j,
    {
        if j == 0 {
            0
        } else {
            let p = self.score_upto(t, d, (j - 1) as nat);
            let g = gram_key(t.subrange(j - 1, j - 1 + self.n)) as int;
            if self.count(g, d) > 0 {
                sat_add(p, self.gram_term(g, d))
            } else {
                p
            }
        }
    }

    /// Whether any of the first `j` windows carries a gram that holds `d`.
    pub open spec fn appears_upto(self, t: Seq<u8>, d: DocId, j: nat) -> bool
        decreases j,
    {
        if j == 0 {
            false
        } else {
            self.appears_upto(t, d, (j - 1) as nat) || self.count(
                gram_key(t.subrange(j - 1, j - 1 + self.n)) as int,
                d,
            ) > 0
        }
    }

    /// `d`'s score for the whole query `t`.
    pub open spec fn score_of(self, t: Seq<u8>, d: DocId) -> int {
        self.score_upto(t, d, win_len(t.len(), self.n as nat))
    }

    /// Whether `d` is in the result of a search for `t`.
    pub open spec fn appears(self, t: Seq<u8>, d: DocId) -> bool {
        self.appears_upto(t, d, win_len(t.len(), self.n as nat))
    }
}

/// A document matched by no window scores zero.
pub proof fn lemma_no_match_score_zero(idx: TextIndex, t: Seq<u8>, d: DocId, j: nat)
    requires
        !idx.appears_upto(t, d, j),
    ensures
        idx.score_upto(t, d, j) == 0,
    decreases j,
{
    if j > 0 {
        lemma_no_match_score_zero(idx, t, d, (j - 1) as nat);
    }
}

/// Add `tm`, saturating, to `d`'s entry in a result sequence, entering `d`
/// at its prior score 0 when absent.
pub(crate) fn bump_score(out: &mut Vec<(u64, i64)>, d: u64, tm: i64)
    requires
        keys_unique(old(out)@),
    ensures
        keys_unique(final(out)@),
        lookup(final(out)@, d) is Some,
        score_in(final(out)@, d) == sat_add(score_in(old(out)@, d), tm as int),
        forall|d2: u64| d2 != d ==> lookup(final(out)@, d2) == lookup(old(out)@, d2),
{
    let ghost s = out@;
    let mut i: usize = 0;
    while i < out.len()
        invariant
            0 <= i <= out@.len(),
            out@ == s,
            forall|j: int| 0 <= j < i ==> out@[j].0 != d,
        decreases out@.len() - i,
    {
        if out[i].0 == d {
            let cur = out[i].1;
            proof {
                assert forall|j: int| 0 <= j < s.len() && j != i implies (#[trigger] s[j]).0
                    != d by {}
                lemma_lookup_at(s, d, i as int);
            }
            let nv = sat_add_i64(cur, tm);
            out.set(i, (d, nv));
            proof {
                assert forall|d2: u64| true implies #[trigger] lookup(out@, d2) == (if d2 == d {
                    Some(nv)
                } else {
                    lookup(s, d2)
                }) by {
                    lemma_lookup_update_one(s, d, i as int, nv, d2);
                }
                assert(keys_unique(out@)) by {
                    assert(forall|x: int| 0 <= x < out@.len() ==> (#[trigger] out@[x]).0 == s[x].0);
                }
            }
            return;
        }
        i = i + 1;
    }
    proof {
        lemma_lookup_absent::<i64>(s, d);
    }
    let nv = sat_add_i64(0, tm);
    out.push((d, nv));
    proof {
        assert forall|d2: u64| true implies #[trigger] lookup(out@, d2) == (if d2 == d {
            Some(nv)
        } else {
            lookup(s, d2)
        }) by {
            lemma_lookup_push_one(s, d, nv, d2);
        }
        assert(keys_unique(out@)) by {
            assert(forall|x: int| 0 <= x < s.len() ==> out@[x] == s[x]);
            assert(out@[s.len() as int] == (d, nv));
        }
    }
}

/// Whether one of the first `j` entries names document `d`.
pub open spec fn in_prefix<V>(s: Seq<(u64, V)>, j: int, d: u64) -> bool {
    exists|x: int| 0 <= x < j && (#[trigger] s[x]).0 == d
}

impl TextIndex {
    /// Score every document that shares a gram with `text`: slide the
    /// window over the query and add, for each matched gram and each
    /// document in its posting list, that gram's fixed-point term. The
    /// result holds exactly the documents of the matched posting lists,
    /// each with its accumulated score; a query shorter than the gram
    /// length matches nothing.
    pub fn search(&self, text: &Vec<u8>) -> (r: Vec<(DocId, i64)>)
        requires
            self.wf(),
        ensures
            keys_unique(r@),
            forall|d: DocId| #[trigger] lookup(r@, d) is Some <==> self.appears(text@, d),
            forall|d: DocId|
                self.appears(text@, d) ==> score_in(r@, d) == self.score_of(text@, d),
            forall|k: int|
                0 <= k < r@.len() ==> self.appears(text@, (#[trigger] r@[k]).0) && r@[k].1
                    == self.score_of(text@, r@[k].0),
            text@.len() < self.n ==> r@.len() == 0,
    {
        let ghost t = text@;
        let ghost nn = self.n as nat;
        let mut out: Vec<(u64, i64)> = Vec::new();
        let n = self.n;
        if text.len() < n {
            proof {
                assert(win_len(t.len(), nn) == 0);
                assert(forall|d: DocId| lookup(out@, d) == None::<i64>);
            }
            return out;
        }
        let w = text.len() - n + 1;
        let mut i: usize = 0;
        while i < w
            invariant
                0 <= i <= w,
                w == win_len(t.len(), nn),
                keys_unique(out@),
                forall|d: DocId|
                    #[trigger] lookup(out@, d) is Some <==> self.appears_upto(t, d, i as nat),
                forall|d: DocId|
                    self.appears_upto(t, d, i as nat) ==> #[trigger] score_in(out@, d)
                        == self.score_upto(t, d, i as nat),
            decreases w - i,
        {
            let k = Self::window_key(text, i, n);
            let ghost g0 = k as int;
            proof {
                assert(gram_key(t.subrange(i as int, i as int + nn)) == g0);
            }
            match self.find_gram(k) {
                Some(gi) => {
                    proof {
                        assert forall|j: int|
                            0 <= j < self.grams@.len() && j != gi implies (
                        #[trigger] self.grams@[j]).0 != k by {}
                        lemma_lookup_at(self.grams@, k, gi as int);
                    }
                    let fr = &self.grams[gi].1;
                    let docs: u64 = fr.list.len() as u64;
                    let total: u64 = self.total_docs;
                    proof {
                        assert(self.grams@[gi as int].1.wf());
                        assert(self.gram_docs(g0) == fr.list@.len());
                        assert(self.gram_max(g0) == fr.maxf);
                    }
                    let mut jj: usize = 0;
                    while jj < fr.list.len()
                        invariant
                            0 <= jj <= fr.list@.len(),
                            keys_unique(out@),
                            forall|d: DocId|
                                #[trigger] lookup(out@, d) is Some <==> (self.appears_upto(
                                    t,
                                    d,
                                    i as nat,
                                ) || in_prefix(fr.list@, jj as int, d)),
                            forall|d: DocId|
                                in_prefix(fr.list@, jj as int, d) ==> #[trigger] score_in(out@, d)
                                    == self.score_upto(t, d, (i + 1) as nat),
                            forall|d: DocId|
                                !in_prefix(fr.list@, jj as int, d) && self.appears_upto(
                                    t,
                                    d,
                                    i as nat,
                                ) ==> #[trigger] score_in(out@, d) == self.score_upto(
                                    t,
                                    d,
                                    i as nat,
                                ),
                        decreases fr.list@.len() - jj,
                    {
                        let (d0, c) = fr.list[jj];
                        proof {
                            lemma_count_at(fr.list@, d0, jj as int);
                            assert(self.count(g0, d0) == c);
                            assert(1 <= c <= fr.maxf);
                            assert(!in_prefix(fr.list@, jj as int, d0));
                            if !self.appears_upto(t, d0, i as nat) {
                                lemma_no_match_score_zero(*self, t, d0, i as nat);
                            }
                        }
                        let ghost out_pre = out@;
                        let tm = term_fp(c, fr.maxf, total, docs);
                        bump_score(&mut out, d0, tm);
                        proof {
                            assert(self.score_upto(t, d0, (i + 1) as nat) == sat_add(
                                self.score_upto(t, d0, i as nat),
                                self.gram_term(g0, d0),
                            ));
                            assert(score_in(out_pre, d0) == self.score_upto(t, d0, i as nat));
                            assert(score_in(out@, d0) == self.score_upto(t, d0, (i + 1) as nat));
                            assert forall|d: DocId| d != d0 implies #[trigger] score_in(out@, d)
                                == score_in(out_pre, d) && (lookup(out@, d) is Some <==> lookup(
                                out_pre,
                                d,
                            ) is Some) by {
                                assert(lookup(out@, d) == lookup(out_pre, d));
                            }
                            assert forall|d: DocId| true implies (#[trigger] in_prefix(
                                fr.list@,
                                jj + 1,
                                d,
                            ) <==> (in_prefix(fr.list@, jj as int, d) || d == d0)) by {
                                if in_prefix(fr.list@, jj + 1, d) {
                                    let x = choose|x: int|
                                        0 <= x < jj + 1 && (#[trigger] fr.list@[x]).0 == d;
                                    if x == jj {
                                        assert(d == d0);
                                    } else {
                                        assert(in_prefix(fr.list@, jj as int, d));
                                    }
                                }
                                if d == d0 {
                                    assert(fr.list@[jj as int].0 == d0);
                                    assert(in_prefix(fr.list@, jj + 1, d));
                                }
                            }
                        }
                        jj = jj + 1;
                    }
                    proof {
                        assert forall|d: DocId| true implies (#[trigger] in_prefix(
                            fr.list@,
                            fr.list@.len() as int,
                            d,
                        ) <==> self.count(g0, d) > 0) by {
                            if in_prefix(fr.list@, fr.list@.len() as int, d) {
                                let x = choose|x: int|
                                    0 <= x < fr.list@.len() && (#[trigger] fr.list@[x]).0 == d;
                                lemma_count_at(fr.list@, d, x);
                            }
                            if self.count(g0, d) > 0 {
                                lemma_has_id_index(fr.list@, d);
                            }
                        }
                        assert forall|d: DocId|
                            #[trigger] lookup(out@, d) is Some <==> self.appears_upto(
                                t,
                                d,
                                (i + 1) as nat,
                            ) by {
                            assert(self.appears_upto(t, d, (i + 1) as nat) == (self.appears_upto(
                                t,
                                d,
                                i as nat,
                            ) || self.count(g0, d) > 0));
                        }
                        assert forall|d: DocId|
                            self.appears_upto(t, d, (i + 1) as nat) implies #[trigger] score_in(
                            out@,
                            d,
                        ) == self.score_upto(t, d, (i + 1) as nat) by {
                            if self.count(g0, d) == 0 {
                                assert(self.score_upto(t, d, (i + 1) as nat) == self.score_upto(
                                    t,
                                    d,
                                    i as nat,
                                ));
                            }
                        }
                    }
                },
                None => {
                    proof {
                        lemma_lookup_absent::<Freqs>(self.grams@, k);
                        assert forall|d: DocId|
                            #[trigger] lookup(out@, d) is Some <==> self.appears_upto(
                                t,
                                d,
                                (i + 1) as nat,
                            ) by {
                            assert(self.count(g0, d) == 0);
                            assert(self.appears_upto(t, d, (i + 1) as nat) == self.appears_upto(
                                t,
                                d,
                                i as nat,
                            ));
                        }
                        assert forall|d: DocId|
                            self.appears_upto(t, d, (i + 1) as nat) implies #[trigger] score_in(
                            out@,
                            d,
                        ) == self.score_upto(t, d, (i + 1) as nat) by {
                            assert(self.count(g0, d) == 0);
                            assert(self.score_upto(t, d, (i + 1) as nat) == self.score_upto(
                                t,
                                d,
                                i as nat,
                            ));
                        }
                    }
                },
            }
            i = i + 1;
        }
        proof {
            assert forall|k2: int| 0 <= k2 < out@.len() implies self.appears(
                t,
                (#[trigger] out@[k2]).0,
            ) && out@[k2].1 == self.score_of(t, out@[k2].0) by {
                let d = out@[k2].0;
                assert forall|j: int| 0 <= j < out@.len() && j != k2 implies (
                #[trigger] out@[j]).0 != d by {}
                lemma_lookup_at(out@, d, k2);
                assert(lookup(out@, d) is Some);
                assert(self.appears_upto(t, d, i as nat));
                assert(score_in(out@, d) == out@[k2].1);
                assert(self.appears(t, d));
            }
        }
        out
    }
}

/// Law: inserting a document and immediately removing it restores the
/// total-document count and every occurrence count to their prior state,
/// provided the document was absent from every posting list beforehand and
/// no gram occurs twice in the text. (With a repeated gram, or a document
/// already present, the single decrement of `remove` cannot undo a double
/// increment of `insert`.)
pub proof fn lemma_insert_remove_round_trip(
    pre: TextIndex,
    mid: TextIndex,
    post: TextIndex,
    id: DocId,
    t: Seq<u8>,
)
    requires
        inserted_one(pre, mid, id, t),
        removed_one(mid, post, id),
        forall|g: int| occ(t, pre.n as nat, g) <= 1,
        forall|g: int| pre.count(g, id) == 0,
    ensures
        post.total_docs == pre.total_docs,
        forall|g: int, d: DocId| post.count(g, d) == pre.count(g, d),
{
    assert forall|g: int, d: DocId| post.count(g, d) == pre.count(g, d) by {
        assert(mid.count(g, d) == pre.count(g, d) + if d == id {
            occ(t, pre.n as nat, g)
        } else {
            0nat
        });
        assert(post.count(g, d) == if d == id && mid.count(g, d) > 0 {
            (mid.count(g, d) - 1) as nat
        } else {
            mid.count(g, d)
        });
        if d == id {
            assert(pre.count(g, id) == 0);
            assert(occ(t, pre.n as nat, g) <= 1);
        }
    }
}

/// Law: a document that holds none of the query's grams is not returned
/// and contributes a score of zero.
pub proof fn lemma_unrelated_never_scored(idx: TextIndex, t: Seq<u8>, d: DocId, j: nat)
    requires
        forall|x: int|
            0 <= x < j ==> idx.count(
                gram_key(#[trigger] t.subrange(x, x + idx.n)) as int,
                d,
            ) == 0,
    ensures
        !idx.appears_upto(t, d, j),
        idx.score_upto(t, d, j) == 0,
    decreases j,
{
    if j > 0 {
        lemma_unrelated_never_scored(idx, t, d, (j - 1) as nat);
    }
}

/// The posting list found for a gram with a positive count is well formed,
/// and the count stays at or below the cached maximum.
proof fn lemma_gram_count_bounds(idx: TextIndex, g: int, d: DocId)
    requires
        idx.wf(),
        idx.count(g, d) > 0,
    ensures
        idx.count(g, d) <= idx.gram_max(g),
        idx.gram_docs(g) >= 1,
{
    let k = g as u64;
    lemma_lookup_some_index(idx.grams@, k);
    let x = choose|x: int| 0 <= x < idx.grams@.len() && (#[trigger] idx.grams@[x]).0 == k;
    assert forall|j: int| 0 <= j < idx.grams@.len() && j != x implies (
    #[trigger] idx.grams@[j]).0 != k by {}
    lemma_lookup_at(idx.grams@, k, x);
    let f = idx.grams@[x].1;
    assert(f.wf());
    crate::posting::lemma_count_le_max(f, d);
    if f.count_of(d) > 0 {
        lemma_has_id_index(f.list@, d);
    }
}

/// Accumulated relevance from window `w` on: every window's term is
/// non-negative while no matched gram's posting list outnumbers the
/// total-document count, and the term of window `w` — whose gram only
/// document `x` holds — is strictly positive.
proof fn lemma_score_accumulates(idx: TextIndex, t: Seq<u8>, x: DocId, w: int, j: nat)
    requires
        idx.wf(),
        0 <= w,
        w + idx.n <= t.len(),
        idx.count(gram_key(t.subrange(w, w + idx.n)) as int, x) >= 1,
        idx.gram_docs(gram_key(t.subrange(w, w + idx.n)) as int) == 1,
        idx.total_docs >= 2,
        forall|y: int|
            0 <= y < win_len(t.len(), idx.n as nat) && idx.count(
                gram_key(#[trigger] t.subrange(y, y + idx.n)) as int,
                x,
            ) > 0 ==> idx.gram_docs(gram_key(t.subrange(y, y + idx.n)) as int)
                <= idx.total_docs,
        j <= win_len(t.len(), idx.n as nat),
    ensures
        idx.score_upto(t, x, j) >= 0,
        j > w ==> idx.score_upto(t, x, j) >= 1 && idx.appears_upto(t, x, j),
    decreases j,
{
    if j > 0 {
        lemma_score_accumulates(idx, t, x, w, (j - 1) as nat);
        let g = gram_key(t.subrange(j - 1, j - 1 + idx.n)) as int;
        let p = idx.score_upto(t, x, (j - 1) as nat);
        if idx.count(g, x) > 0 {
            lemma_gram_count_bounds(idx, g, x);
            if j - 1 == w {
                assert(idx.gram_docs(g) == 1);
                crate::score::lemma_term_pos(
                    idx.count(g, x) as int,
                    idx.gram_max(g) as int,
                    idx.total_docs as int,
                );
                assert(idx.gram_term(g, x) >= 1);
            } else {
                assert(idx.gram_docs(g) <= idx.total_docs);
                crate::score::lemma_term_nonneg(
                    idx.count(g, x) as int,
                    idx.gram_max(g) as int,
                    idx.total_docs as int,
                    idx.gram_docs(g) as int,
                );
                assert(idx.gram_term(g, x) >= 0);
            }
            assert(idx.score_upto(t, x, j) == sat_add(p, idx.gram_term(g, x)));
        } else {
            assert(j - 1 != w);
        }
    }
}

/// Law: when the gram of some query window is held by exactly one
/// document, that document is returned with a strictly positive score —
/// as long as at least one other document is indexed and no matched
/// posting list has outgrown the total-document count.
pub proof fn lemma_relevance(idx: TextIndex, t: Seq<u8>, x: DocId, w: int)
    requires
        idx.wf(),
        0 <= w,
        w + idx.n <= t.len(),
        idx.count(gram_key(t.subrange(w, w + idx.n)) as int, x) >= 1,
        idx.gram_docs(gram_key(t.subrange(w, w + idx.n)) as int) == 1,
        idx.total_docs >= 2,
        forall|y: int|
            0 <= y < win_len(t.len(), idx.n as nat) && idx.count(
                gram_key(#[trigger] t.subrange(y, y + idx.n)) as int,
                x,
            ) > 0 ==> idx.gram_docs(gram_key(t.subrange(y, y + idx.n)) as int)
                <= idx.total_docs,
    ensures
        idx.appears(t, x),
        idx.score_of(t, x) >= 1,
{
    let wl = win_len(t.len(), idx.n as nat);
    assert(w < wl);
    lemma_score_accumulates(idx, t, x, w, wl);
}

} // verus!
