//! Multi-field search: three trigram indexes composed into one surface.
//!
//! `SearchEngine` owns one `TextIndex` per document field (title, authors,
//! keywords). Indexing lower-cases every text first; searching lower-cases
//! the query, scores it against each field, sums the per-field scores per
//! document (saturating), and returns the results sorted by strictly
//! descending score, ties broken by ascending document id, truncated to
//! the caller's limit.

use vstd::prelude::*;
use vstd::utf8::encode_utf8;

use crate::assoc::{keys_unique, lemma_lookup_at, lemma_lookup_some_index, lookup};
use crate::index::{
    bump_score, in_prefix, inserted_many, inserted_one, removed_one, score_in, win_len, DocId,
    TextIndex,
};
use crate::norm::{lower_of, to_lower};
use crate::score::sat_add;

verus! {

/// One document's indexable fields, as the library layer hands them over.
pub struct Doc {
    pub title: String,
    pub authors: Vec<String>,
    pub keywords: Vec<String>,
}

/// The bytes a text contributes to an index: its lower-cased form, UTF-8
/// encoded.
pub open spec fn lowered(s: Seq<char>) -> Seq<u8> {
    encode_utf8(lower_of(s))
}

/// The byte texts a group of strings contributes, one per string.
pub open spec fn lowered_all(ss: Seq<String>) -> Seq<Seq<u8>> {
    ss.map_values(|a: String| lowered(a@))
}

/// Ranking order on result entries: higher score first, ties broken by
/// lower document id. A strict total order on entries with distinct ids.
pub open spec fn ranks_before(p: (DocId, i64), q: (DocId, i64)) -> bool {
    p.1 > q.1 || (p.1 == q.1 && p.0 < q.0)
}

/// Lower-case a text and return its UTF-8 bytes.
fn lower_bytes(s: &str) -> (r: Vec<u8>)
    ensures
        r@ == lowered(s@),
        s@.len() == 0 ==> r@.len() == 0,
{
    let low = to_lower(s);
    let sl = low.as_str();
    let b = sl.as_bytes();
    let r = vstd::slice::slice_to_vec(b);
    proof {
        if s@.len() == 0 {
            assert(low@.len() == 0);
            assert(encode_utf8(low@) =~= Seq::<u8>::empty());
        }
    }
    r
}

/// Lower-case every string of a group and return their UTF-8 bytes.
fn lower_all(ss: &Vec<String>) -> (r: Vec<Vec<u8>>)
    ensures
        r.deep_view() == lowered_all(ss@),
{
    let mut r: Vec<Vec<u8>> = Vec::new();
    let mut i: usize = 0;
    while i < ss.len()
        invariant
            0 <= i <= ss@.len(),
            r@.len() == i,
            forall|j: int| 0 <= j < i ==> (#[trigger] r@[j])@ == lowered(ss@[j]@),
        decreases ss@.len() - i,
    {
        let b = lower_bytes(ss[i].as_str());
        r.push(b);
        i = i + 1;
    }
    proof {
        assert(r.deep_view() =~~= lowered_all(ss@));
    }
    r
}

/// Fold `other`'s scores into `acc`, summing per document id with
/// saturation; a document missing from one side contributes 0 there.
fn merge_scores(acc: &mut Vec<(DocId, i64)>, other: &Vec<(DocId, i64)>)
    requires
        keys_unique(old(acc)@),
        keys_unique(other@),
    ensures
        keys_unique(final(acc)@),
        forall|d: DocId|
            #[trigger] lookup(final(acc)@, d) is Some <==> (lookup(old(acc)@, d) is Some || lookup(
                other@,
                d,
            ) is Some),
        forall|d: DocId|
            #[trigger] score_in(final(acc)@, d) == if lookup(final(acc)@, d) is Some {
                sat_add(score_in(old(acc)@, d), score_in(other@, d))
            } else {
                0int
            },
{
    let mut j: usize = 0;
    while j < other.len()
        invariant
            0 <= j <= other@.len(),
            keys_unique(acc@),
            forall|d: DocId|
                #[trigger] lookup(acc@, d) is Some <==> (lookup(old(acc)@, d) is Some || in_prefix(
                    other@,
                    j as int,
                    d,
                )),
            forall|d: DocId|
                in_prefix(other@, j as int, d) ==> #[trigger] score_in(acc@, d) == sat_add(
                    score_in(old(acc)@, d),
                    score_in(other@, d),
                ),
            forall|d: DocId|
                !in_prefix(other@, j as int, d) ==> #[trigger] lookup(acc@, d) == lookup(
                    old(acc)@,
                    d,
                ),
        decreases other@.len() - j,
    {
        let (d0, s0) = other[j];
        let ghost acc_pre = acc@;
        proof {
            assert forall|x: int| 0 <= x < other@.len() && x != j implies (#[trigger] other@[x]).0
                != d0 by {}
            lemma_lookup_at(other@, d0, j as int);
            assert(!in_prefix(other@, j as int, d0));
        }
        bump_score(acc, d0, s0);
        proof {
            assert(score_in(acc@, d0) == sat_add(score_in(acc_pre, d0), s0 as int));
            assert(score_in(acc_pre, d0) == score_in(old(acc)@, d0));
            assert(score_in(other@, d0) == s0);
            assert forall|d: DocId| d != d0 implies #[trigger] lookup(acc@, d) == lookup(
                acc_pre,
                d,
            ) && score_in(acc@, d) == score_in(acc_pre, d) by {}
            assert forall|d: DocId| true implies (#[trigger] in_prefix(other@, j + 1, d) <==> (
            in_prefix(other@, j as int, d) || d == d0)) by {
                if in_prefix(other@, j + 1, d) {
                    let x = choose|x: int| 0 <= x < j + 1 && (#[trigger] other@[x]).0 == d;
                    if x == j {
                        assert(d == d0);
                    } else {
                        assert(in_prefix(other@, j as int, d));
                    }
                }
                if d == d0 {
                    assert(other@[j as int].0 == d0);
                    assert(in_prefix(other@, j + 1, d));
                }
            }
        }
        j = j + 1;
    }
    proof {
        assert forall|d: DocId| true implies (#[trigger] in_prefix(other@, other@.len() as int, d)
            <==> lookup(other@, d) is Some) by {
            if in_prefix(other@, other@.len() as int, d) {
                let x = choose|x: int| 0 <= x < other@.len() && (#[trigger] other@[x]).0 == d;
                assert forall|y: int| 0 <= y < other@.len() && y != x implies (
                #[trigger] other@[y]).0 != d by {}
                lemma_lookup_at(other@, d, x);
            }
            if lookup(other@, d) is Some {
                lemma_lookup_some_index(other@, d);
            }
        }
        assert forall|d: DocId|
            #[trigger] score_in(acc@, d) == (if lookup(acc@, d) is Some {
                sat_add(score_in(old(acc)@, d), score_in(other@, d))
            } else {
                0int
            }) by {
            if lookup(acc@, d) is Some && !(in_prefix(other@, other@.len() as int, d)) {
                assert(lookup(other@, d) is None);
                assert(score_in(other@, d) == 0);
                assert(lookup(acc@, d) == lookup(old(acc)@, d));
            }
        }
    }
}

/// Sort result entries by `ranks_before`, returning the same entries in
/// strictly descending rank order. Repeatedly extracts the best remaining
/// entry, so the order is deterministic for entries with distinct ids.
fn sort_ranked(src: Vec<(DocId, i64)>) -> (r: Vec<(DocId, i64)>)
    requires
        keys_unique(src@),
    ensures
        keys_unique(r@),
        r@.len() == src@.len(),
        forall|i: int, j: int| 0 <= i < j < r@.len() ==> ranks_before(r@[i], r@[j]),
        forall|k: int| 0 <= k < r@.len() ==> src@.contains(#[trigger] r@[k]),
        forall|k: int| 0 <= k < src@.len() ==> r@.contains(#[trigger] src@[k]),
{
    let mut rest = src;
    let mut out: Vec<(DocId, i64)> = Vec::new();
    while rest.len() > 0
        invariant
            keys_unique(out@),
            keys_unique(rest@),
            out@.len() + rest@.len() == src@.len(),
            forall|x: int, y: int|
                0 <= x < out@.len() && 0 <= y < rest@.len() ==> out@[x].0 != rest@[y].0,
            forall|i: int, j: int| 0 <= i < j < out@.len() ==> ranks_before(out@[i], out@[j]),
            forall|x: int, y: int|
                0 <= x < out@.len() && 0 <= y < rest@.len() ==> ranks_before(out@[x], rest@[y]),
            forall|k: int| 0 <= k < out@.len() ==> src@.contains(#[trigger] out@[k]),
            forall|k: int| 0 <= k < rest@.len() ==> src@.contains(#[trigger] rest@[k]),
            forall|k: int|
                0 <= k < src@.len() ==> out@.contains(#[trigger] src@[k]) || rest@.contains(
                    src@[k],
                ),
        decreases rest@.len(),
    {
        let mut best: usize = 0;
        let mut m: usize = 1;
        while m < rest.len()
            invariant
                0 <= best < m <= rest@.len(),
                rest@.len() > 0,
                forall|y: int|
                    0 <= y < m && y != best ==> ranks_before(rest@[best as int], rest@[y]),
            decreases rest@.len() - m,
        {
            let a = rest[m];
            let b = rest[best];
            if a.1 > b.1 || (a.1 == b.1 && a.0 < b.0) {
                proof {
                    assert forall|y: int| 0 <= y < m + 1 && y != m implies ranks_before(
                        rest@[m as int],
                        rest@[y],
                    ) by {
                        if y != best {
                            assert(ranks_before(rest@[best as int], rest@[y]));
                            assert(rest@[y].0 != rest@[best as int].0);
                        }
                    }
                }
                best = m;
            }
            m = m + 1;
        }
        let ghost rest_pre = rest@;
        let e = rest.remove(best);
        proof {
            assert(e == rest_pre[best as int]);
            assert forall|y: int| 0 <= y < rest@.len() implies rest@[y] == (if y < best {
                rest_pre[y]
            } else {
                rest_pre[y + 1]
            }) by {}
            assert forall|y: int| 0 <= y < rest@.len() implies ranks_before(e, rest@[y]) by {
                if y < best {
                    assert(rest_pre[y].0 != e.0);
                } else {
                    assert(rest_pre[y + 1].0 != e.0);
                }
            }
        }
        let ghost out_pre = out@;
        out.push(e);
        proof {
            assert(src@.contains(e));
            assert(out@[out@.len() - 1] == e);
            assert forall|k: int| 0 <= k < src@.len() implies out@.contains(#[trigger] src@[k])
                || rest@.contains(src@[k]) by {
                if out_pre.contains(src@[k]) {
                    let x = choose|x: int| 0 <= x < out_pre.len() && out_pre[x] == src@[k];
                    assert(out@[x] == src@[k]);
                    assert(out@.contains(src@[k]));
                } else {
                    assert(rest_pre.contains(src@[k]));
                    let x = choose|x: int| 0 <= x < rest_pre.len() && rest_pre[x] == src@[k];
                    if x == best {
                        assert(src@[k] == e);
                        assert(out@.contains(src@[k]));
                    } else if x < best {
                        assert(rest@[x] == src@[k]);
                        assert(rest@.contains(src@[k]));
                    } else {
                        assert(rest@[x - 1] == src@[k]);
                        assert(rest@.contains(src@[k]));
                    }
                }
            }
            assert forall|k: int| 0 <= k < out@.len() implies src@.contains(#[trigger] out@[k]) by {
                if k < out@.len() - 1 {
                    assert(out@[k] == out_pre[k]);
                }
            }
        }
    }
    out
}

/// The three-field engine: title, authors and keywords, each a trigram
/// index of its own, never shared.
pub struct SearchEngine {
    pub title: TextIndex,
    pub authors: TextIndex,
    pub keywords: TextIndex,
}

impl SearchEngine {
    /// All three field indexes are well formed trigram indexes.
    pub open spec fn wf(self) -> bool {
        &&& self.title.wf() && self.title.n == 3
        &&& self.authors.wf() && self.authors.n == 3
        &&& self.keywords.wf() && self.keywords.n == 3
    }

    /// `d`'s summed score across the three fields for the lowered query
    /// bytes `b`; a field whose result omits `d` contributes 0.
    pub open spec fn merged_score(self, b: Seq<u8>, d: DocId) -> int {
        sat_add(
            sat_add(field_score(self.title, b, d), field_score(self.authors, b, d)),
            field_score(self.keywords, b, d),
        )
    }

    /// Whether any field matches `d` for the lowered query bytes `b`.
    pub open spec fn merged_appears(self, b: Seq<u8>, d: DocId) -> bool {
        self.title.appears(b, d) || self.authors.appears(b, d) || self.keywords.appears(b, d)
    }

    /// A fresh engine with three empty trigram indexes.
    pub fn new() -> (r: SearchEngine)
        ensures
            r.wf(),
            r.title.total_docs == 0 && r.authors.total_docs == 0 && r.keywords.total_docs == 0,
            forall|g: int, d: DocId| r.title.count(g, d) == 0,
            forall|g: int, d: DocId| r.authors.count(g, d) == 0,
            forall|g: int, d: DocId| r.keywords.count(g, d) == 0,
    {
        let t = TextIndex::new(3);
        let a = TextIndex::new(3);
        let k = TextIndex::new(3);
        SearchEngine { title: t.unwrap(), authors: a.unwrap(), keywords: k.unwrap() }
    }

    /// Index one document under `id`: its lower-cased title as one text,
    /// its lower-cased authors as one grouped insertion, likewise its
    /// keywords — so each field's total-document count rises by exactly
    /// one. Returns the id unchanged; `None`, with nothing changed in any
    /// field, exactly when some counter would overflow (the checks run
    /// before any mutation, so the three fields never diverge).
    pub fn index(&mut self, id: DocId, doc: &Doc) -> (r: Option<DocId>)
        requires
            old(self).wf(),
        ensures
            final(self).wf(),
            r is Some <==> (old(self).title.accepts_one(lowered(doc.title@).len()) && old(
                self,
            ).authors.accepts_many(lowered_all(doc.authors@)) && old(self).keywords.accepts_many(
                lowered_all(doc.keywords@),
            )),
            r is Some ==> r == Some(id) && inserted_one(
                old(self).title,
                final(self).title,
                id,
                lowered(doc.title@),
            ) && inserted_many(old(self).authors, final(self).authors, id, lowered_all(doc.authors@))
                && inserted_many(
                old(self).keywords,
                final(self).keywords,
                id,
                lowered_all(doc.keywords@),
            ),
            r is None ==> *final(self) == *old(self),
    {
        let tb = lower_bytes(doc.title.as_str());
        let ab = lower_all(&doc.authors);
        let kb = lower_all(&doc.keywords);
        if !self.title.can_insert(&tb) {
            return None;
        }
        if !self.authors.can_insert_many(&ab) {
            return None;
        }
        if !self.keywords.can_insert_many(&kb) {
            return None;
        }
        let ok_t = self.title.insert(id, &tb);
        let ok_a = self.authors.insert_many(id, &ab);
        let ok_k = self.keywords.insert_many(id, &kb);
        proof {
            assert(ok_t && ok_a && ok_k);
        }
        Some(id)
    }

    /// Remove `id` from all three field indexes, unconditionally: each
    /// per-gram count for `id` drops by one and each field's total-document
    /// count drops by one, saturating at zero.
    pub fn deindex(&mut self, id: DocId)
        requires
            old(self).wf(),
        ensures
            final(self).wf(),
            removed_one(old(self).title, final(self).title, id),
            removed_one(old(self).authors, final(self).authors, id),
            removed_one(old(self).keywords, final(self).keywords, id),
    {
        self.title.remove(id);
        self.authors.remove(id);
        self.keywords.remove(id);
    }

    /// Search all three fields with the lower-cased query: per document,
    /// the field scores are summed (saturating); the result is sorted by
    /// strictly descending score with ties broken by ascending id, holds
    /// each matching document once — all of them when they number at most
    /// `limit` — and is truncated to at most `limit` entries, each entry
    /// outranking every matching document left out.
    pub fn search(&self, query: &str, limit: usize) -> (r: Vec<(DocId, i64)>)
        requires
            self.wf(),
        ensures
            r@.len() <= limit,
            forall|i: int, j: int| 0 <= i < j < r@.len() ==> ranks_before(r@[i], r@[j]),
            forall|i: int, j: int| 0 <= i < j < r@.len() ==> r@[i].0 != r@[j].0,
            forall|i: int|
                0 <= i < r@.len() ==> self.merged_appears(lowered(query@), (#[trigger] r@[i]).0)
                    && r@[i].1 == self.merged_score(lowered(query@), r@[i].0),
            r@.len() < limit ==> forall|d: DocId|
                self.merged_appears(lowered(query@), d) ==> exists|i: int|
                    0 <= i < r@.len() && (#[trigger] r@[i]).0 == d,
            forall|d: DocId, i: int|
                #![trigger r@[i], self.merged_appears(lowered(query@), d)]
                0 <= i < r@.len() && self.merged_appears(lowered(query@), d) && !(exists|j: int|
                    0 <= j < r@.len() && (#[trigger] r@[j]).0 == d) ==> ranks_before(
                    r@[i],
                    (d, self.merged_score(lowered(query@), d) as i64),
                ),
            query@.len() == 0 ==> r@.len() == 0,
    {
        let ghost b = lowered(query@);
        let bq = lower_bytes(query);
        let mut acc = self.title.search(&bq);
        let va = self.authors.search(&bq);
        let vk = self.keywords.search(&bq);
        let ghost acc_t = acc@;
        merge_scores(&mut acc, &va);
        let ghost acc_ta = acc@;
        merge_scores(&mut acc, &vk);
        proof {
            assert forall|d: DocId|
                #[trigger] lookup(acc@, d) is Some <==> self.merged_appears(b, d) by {}
            assert forall|d: DocId| self.merged_appears(b, d) implies #[trigger] score_in(acc@, d)
                == self.merged_score(b, d) by {
                assert(score_in(acc_t, d) == field_score(self.title, b, d));
                assert(score_in(va@, d) == field_score(self.authors, b, d));
                assert(score_in(vk@, d) == field_score(self.keywords, b, d));
                assert(score_in(acc_ta, d) == sat_add(score_in(acc_t, d), score_in(va@, d)));
            }
            if query@.len() == 0 {
                assert(bq@.len() == 0);
                assert(win_len(bq@.len(), 3nat) == 0);
                if acc@.len() > 0 {
                    assert forall|x: int| 0 <= x < acc@.len() && x != 0 implies (
                    #[trigger] acc@[x]).0 != acc@[0].0 by {}
                    lemma_lookup_at(acc@, acc@[0].0, 0);
                    assert(self.merged_appears(b, acc@[0].0));
                    assert(false);
                }
            }
        }
        let ghost accv = acc@;
        let ranked = sort_ranked(acc);
        let ghost full = ranked@;
        let mut r = ranked;
        r.truncate(limit);
        proof {
            assert(r@.len() == if limit <= full.len() {
                limit as int
            } else {
                full.len() as int
            });
            assert(forall|i: int| 0 <= i < r@.len() ==> r@[i] == full[i]);
            assert forall|i: int|
                0 <= i < r@.len() implies self.merged_appears(b, (#[trigger] r@[i]).0) && r@[i].1
                == self.merged_score(b, r@[i].0) by {
                let e = r@[i];
                assert(accv.contains(e));
                let x = choose|x: int| 0 <= x < accv.len() && accv[x] == e;
                assert forall|y: int| 0 <= y < accv.len() && y != x implies (#[trigger] accv[y]).0
                    != e.0 by {}
                lemma_lookup_at(accv, e.0, x);
                assert(lookup(accv, e.0) == Some(e.1));
                assert(score_in(accv, e.0) == e.1);
            }
            if r@.len() < limit {
                assert(r@ =~= full);
                assert forall|d: DocId| self.merged_appears(b, d) implies exists|i: int|
                    0 <= i < r@.len() && (#[trigger] r@[i]).0 == d by {
                    assert(lookup(accv, d) is Some);
                    lemma_lookup_some_index(accv, d);
                    let x = choose|x: int| 0 <= x < accv.len() && (#[trigger] accv[x]).0 == d;
                    assert(full.contains(accv[x]));
                    let y = choose|y: int| 0 <= y < full.len() && full[y] == accv[x];
                    assert(r@[y].0 == d);
                }
            }
            assert forall|d: DocId, i: int|
                #![trigger r@[i], self.merged_appears(b, d)]
                0 <= i < r@.len() && self.merged_appears(b, d) && !(exists|j: int|
                    0 <= j < r@.len() && (#[trigger] r@[j]).0 == d) implies ranks_before(
                r@[i],
                (d, self.merged_score(b, d) as i64),
            ) by {
                assert(lookup(accv, d) is Some);
                lemma_lookup_some_index(accv, d);
                let x = choose|x: int| 0 <= x < accv.len() && (#[trigger] accv[x]).0 == d;
                assert forall|y: int| 0 <= y < accv.len() && y != x implies (#[trigger] accv[y]).0
                    != d by {}
                lemma_lookup_at(accv, d, x);
                let e = accv[x];
                assert(score_in(accv, d) == e.1 as int);
                assert(score_in(accv, d) == self.merged_score(b, d));
                assert(e.0 == d && e.1 == self.merged_score(b, d) as i64);
                assert(full.contains(e));
                let y = choose|y: int| 0 <= y < full.len() && full[y] == e;
                assert(y >= r@.len());
                assert(ranks_before(full[i], full[y]));
            }
        }
        r
    }
}

/// A field's contribution to a merged score: its accumulated score when
/// the document matched the field, 0 otherwise.
pub open spec fn field_score(idx: TextIndex, b: Seq<u8>, d: DocId) -> int {
    if idx.appears(b, d) {
        idx.score_of(b, d)
    } else {
        0
    }
}

} // verus!
