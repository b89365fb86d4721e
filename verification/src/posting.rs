//! Posting lists: per-gram occurrence counts for the documents of one field.

use vstd::prelude::*;

verus! {

/// One gram's posting list: which documents contain the gram, and how often
/// the gram occurred in each, together with the cached greatest count.
pub struct Freqs {
    /// Pairs of document id and raw occurrence count. Ids are unique and
    /// every count is at least 1; a count that would drop to 0 removes the
    /// pair instead.
    pub list: Vec<(u64, u64)>,
    /// The greatest occurrence count in the list, 0 while the list is empty.
    pub maxf: u64,
}

/// Occurrence count recorded for `id` in a posting sequence, 0 when absent.
pub open spec fn count_in(s: Seq<(u64, u64)>, id: u64) -> nat
    decreases s.len(),
{
    if s.len() == 0 {
        0
    } else if s[0].0 == id {
        s[0].1 as nat
    } else {
        count_in(s.drop_first(), id)
    }
}

/// Whether a posting sequence holds an entry for `id`.
pub open spec fn has_id(s: Seq<(u64, u64)>, id: u64) -> bool
    decreases s.len(),
{
    s.len() != 0 && (s[0].0 == id || has_id(s.drop_first(), id))
}

/// No two entries name the same document.
pub open spec fn ids_unique(s: Seq<(u64, u64)>) -> bool {
    forall|i: int, j: int| 0 <= i < j < s.len() ==> s[i].0 != s[j].0
}

impl Freqs {
    /// The posting list's internal invariant: unique ids, counts in
    /// `[1, maxf]`, and `maxf` is attained (or 0 when the list is empty).
    pub open spec fn wf(self) -> bool {
        &&& ids_unique(self.list@)
        &&& forall|i: int|
            0 <= i < self.list@.len() ==> 1 <= (#[trigger] self.list@[i]).1 <= self.maxf
        &&& self.list@.len() == 0 ==> self.maxf == 0
        &&& self.list@.len() > 0 ==> exists|i: int|
            0 <= i < self.list@.len() && (#[trigger] self.list@[i]).1 == self.maxf
    }

    /// Occurrence count for one document, 0 when the document is absent.
    pub open spec fn count_of(self, id: u64) -> nat {
        count_in(self.list@, id)
    }

    /// Number of distinct documents in the list.
    pub open spec fn docs(self) -> nat {
        self.list@.len()
    }

    pub fn new() -> (r: Freqs)
        ensures
            r.wf(),
            r.docs() == 0,
            forall|d: u64| r.count_of(d) == 0,
    {
        let r = Freqs { list: Vec::new(), maxf: 0 };
        proof {
            assert(forall|d: u64| count_in(r.list@, d) == 0);
        }
        r
    }

    /// Index of `id`'s entry, when there is one.
    fn find(&self, id: u64) -> (r: Option<usize>)
        ensures
            match r {
                Some(i) => 0 <= i < self.list@.len() && self.list@[i as int].0 == id,
                None => forall|j: int| 0 <= j < self.list@.len() ==> self.list@[j].0 != id,
            },
    {
        let mut i: usize = 0;
        while i < self.list.len()
            invariant
                0 <= i <= self.list@.len(),
                forall|j: int| 0 <= j < i ==> self.list@[j].0 != id,
            decreases self.list@.len() - i,
        {
            if self.list[i].0 == id {
                return Some(i);
            }
            i = i + 1;
        }
        None
    }

    /// Raise `id`'s occurrence count by one, entering the document with
    /// count 1 when it was absent, and keep `maxf` the greatest count.
    pub fn increase(&mut self, id: u64)
        requires
            old(self).wf(),
            old(self).count_of(id) < u64::MAX,
        ensures
            final(self).wf(),
            final(self).count_of(id) == old(self).count_of(id) + 1,
            forall|d: u64| d != id ==> final(self).count_of(d) == old(self).count_of(d),
            final(self).docs() == old(self).docs() + (if old(self).count_of(id) == 0 {
                1int
            } else {
                0int
            }),
            final(self).maxf <= if old(self).maxf >= old(self).count_of(id) + 1 {
                old(self).maxf as int
            } else {
                old(self).count_of(id) + 1 as int
            },
    {
        match self.find(id) {
            Some(i) => {
                proof {
                    lemma_count_at(self.list@, id, i as int);
                }
                let c = self.list[i].1;
                self.list.set(i, (id, c + 1));
                if c + 1 > self.maxf {
                    self.maxf = c + 1;
                }
                proof {
                    let s = old(self).list@;
                    assert forall|d: u64| true implies #[trigger] count_in(self.list@, d) == (
                    if d == id {
                        (c + 1) as nat
                    } else {
                        count_in(s, d)
                    }) by {
                        lemma_count_update_one(s, id, i as int, (c + 1) as u64, d);
                    }
                    assert(forall|x: int|
                        0 <= x < self.list@.len() ==> (#[trigger] self.list@[x]).0 == s[x].0);
                    assert(forall|x: int|
                        0 <= x < self.list@.len() && x != i ==> #[trigger] self.list@[x] == s[x]);
                    assert(self.list@[i as int].1 == c + 1);
                    assert(final(self).wf()) by {
                        assert(ids_unique(self.list@));
                        if c + 1 <= old(self).maxf {
                            let j0 = choose|j: int|
                                0 <= j < s.len() && (#[trigger] s[j]).1 == old(self).maxf;
                            assert(s[i as int].1 == c);
                            assert(j0 != i);
                            assert(self.list@[j0].1 == old(self).maxf);
                        }
                    }
                }
            },
            None => {
                proof {
                    lemma_count_absent(self.list@, id);
                }
                self.list.push((id, 1));
                if self.maxf < 1 {
                    self.maxf = 1;
                }
                proof {
                    let s = old(self).list@;
                    assert forall|d: u64| true implies #[trigger] count_in(self.list@, d) == (
                    if d == id {
                        1nat
                    } else {
                        count_in(s, d)
                    }) by {
                        lemma_count_push_one(s, id, 1, d);
                    }
                    assert(final(self).wf()) by {
                        assert(forall|x: int|
                            0 <= x < s.len() ==> #[trigger] self.list@[x] == s[x]);
                        assert(self.list@[s.len() as int] == (id, 1u64));
                        assert(ids_unique(self.list@));
                        if old(self).maxf >= 1 {
                            let j0 = choose|j: int|
                                0 <= j < s.len() && (#[trigger] s[j]).1 == old(self).maxf;
                            assert(self.list@[j0].1 == old(self).maxf);
                        } else {
                            assert(s.len() == 0);
                            assert(self.list@[0].1 == 1);
                        }
                    }
                }
            },
        }
    }

    /// Lower `id`'s occurrence count by one; an entry whose count was 1 is
    /// removed. A document that is absent is left alone. `maxf` is
    /// recomputed so that it stays the greatest remaining count.
    pub fn decrease(&mut self, id: u64)
        requires
            old(self).wf(),
        ensures
            final(self).wf(),
            final(self).count_of(id) == if old(self).count_of(id) > 0 {
                old(self).count_of(id) - 1
            } else {
                0int
            },
            forall|d: u64| d != id ==> final(self).count_of(d) == old(self).count_of(d),
            final(self).docs() == old(self).docs() - (if old(self).count_of(id) == 1 {
                1int
            } else {
                0int
            }),
            final(self).maxf <= old(self).maxf,
    {
        let ghost s = old(self).list@;
        match self.find(id) {
            Some(i) => {
                proof {
                    lemma_count_at(self.list@, id, i as int);
                }
                let c = self.list[i].1;
                if c == 1 {
                    self.list.remove(i);
                    proof {
                        assert forall|d: u64| true implies #[trigger] count_in(self.list@, d)
                            == (if d == id {
                            0nat
                        } else {
                            count_in(s, d)
                        }) by {
                            lemma_count_remove_one(s, id, i as int, d);
                        }
                        assert(forall|x: int|
                            0 <= x < self.list@.len() ==> #[trigger] self.list@[x] == (if x
                                < i {
                                s[x]
                            } else {
                                s[x + 1]
                            }));
                        assert(ids_unique(self.list@));
                    }
                } else {
                    self.list.set(i, (id, c - 1));
                    proof {
                        assert forall|d: u64| true implies #[trigger] count_in(self.list@, d)
                            == (if d == id {
                            (c - 1) as nat
                        } else {
                            count_in(s, d)
                        }) by {
                            lemma_count_update_one(s, id, i as int, (c - 1) as u64, d);
                        }
                        assert(forall|x: int|
                            0 <= x < self.list@.len() ==> (#[trigger] self.list@[x]).0 == s[x].0);
                        assert(ids_unique(self.list@));
                    }
                }
                self.refresh_max();
            },
            None => {
                proof {
                    lemma_count_absent(self.list@, id);
                }
            },
        }
    }

    /// Recompute `maxf` as the greatest count in the list.
    fn refresh_max(&mut self)
        requires
            ids_unique(old(self).list@),
            forall|i: int| 0 <= i < old(self).list@.len() ==> (#[trigger] old(self).list@[i]).1 >= 1,
            forall|i: int|
                0 <= i < old(self).list@.len() ==> (#[trigger] old(self).list@[i]).1 <= old(
                    self,
                ).maxf,
        ensures
            final(self).list == old(self).list,
            final(self).wf(),
            final(self).maxf <= old(self).maxf,
    {
        let mut m: u64 = 0;
        let mut i: usize = 0;
        while i < self.list.len()
            invariant
                0 <= i <= self.list@.len(),
                forall|j: int| 0 <= j < i ==> (#[trigger] self.list@[j]).1 <= m,
                i == 0 ==> m == 0,
                i > 0 ==> exists|j: int| 0 <= j < i && (#[trigger] self.list@[j]).1 == m,
                m <= old(self).maxf,
                self.list == old(self).list,
                self.maxf == old(self).maxf,
                forall|j: int| 0 <= j < self.list@.len() ==> (#[trigger] self.list@[j]).1 >= 1,
            decreases self.list@.len() - i,
        {
            let c = self.list[i].1;
            if c > m {
                m = c;
            }
            i = i + 1;
        }
        self.maxf = m;
    }
}

/// `count_in` reads the entry at the index where `id` sits.
pub proof fn lemma_count_at(s: Seq<(u64, u64)>, id: u64, i: int)
    requires
        ids_unique(s),
        0 <= i < s.len(),
        s[i].0 == id,
    ensures
        count_in(s, id) == s[i].1,
        has_id(s, id),
    decreases s.len(),
{
    if i == 0 {
    } else {
        assert(s[0].0 != id);
        assert(forall|x: int, y: int|
            0 <= x < y < s.drop_first().len() ==> s.drop_first()[x].0 != s.drop_first()[y].0);
        lemma_count_at(s.drop_first(), id, i - 1);
    }
}

/// A document that sits at no index is not counted.
pub proof fn lemma_count_absent(s: Seq<(u64, u64)>, id: u64)
    requires
        forall|j: int| 0 <= j < s.len() ==> s[j].0 != id,
    ensures
        count_in(s, id) == 0,
        !has_id(s, id),
    decreases s.len(),
{
    if s.len() > 0 {
        lemma_count_absent(s.drop_first(), id);
    }
}

/// A document that is counted sits at some index.
pub proof fn lemma_has_id_index(s: Seq<(u64, u64)>, id: u64)
    requires
        count_in(s, id) > 0 || has_id(s, id),
    ensures
        exists|i: int| 0 <= i < s.len() && (#[trigger] s[i]).0 == id,
    decreases s.len(),
{
    if s.len() == 0 {
    } else if s[0].0 == id {
        assert(0 <= 0 < s.len() && s[0].0 == id);
    } else {
        lemma_has_id_index(s.drop_first(), id);
        let i = choose|i: int| 0 <= i < s.drop_first().len() && (#[trigger] s.drop_first()[i]).0
            == id;
        assert(s[i + 1].0 == id);
    }
}

/// No document's count exceeds the cached greatest count.
pub proof fn lemma_count_le_max(f: Freqs, d: u64)
    requires
        f.wf(),
    ensures
        f.count_of(d) <= f.maxf,
{
    if f.count_of(d) > 0 {
        lemma_has_id_index(f.list@, d);
        let i = choose|i: int| 0 <= i < f.list@.len() && (#[trigger] f.list@[i]).0 == d;
        lemma_count_at(f.list@, d, i);
    }
}

/// Updating the entry at `id`'s index changes only `id`'s count.
pub proof fn lemma_count_update_one(s: Seq<(u64, u64)>, id: u64, i: int, c: u64, d: u64)
    requires
        0 <= i < s.len(),
        s[i].0 == id,
        forall|j: int| 0 <= j < s.len() && j != i ==> (#[trigger] s[j]).0 != id,
    ensures
        count_in(s.update(i, (id, c)), d) == if d == id {
            c as nat
        } else {
            count_in(s, d)
        },
    decreases s.len(),
{
    let t = s.update(i, (id, c));
    if i == 0 {
        assert(t[0] == (id, c));
        assert(t.drop_first() =~= s.drop_first());
    } else {
        assert(s[0].0 != id);
        assert(t[0] == s[0]);
        assert(t.drop_first() =~= s.drop_first().update(i - 1, (id, c)));
        lemma_count_update_one(s.drop_first(), id, i - 1, c, d);
    }
}

/// Appending a fresh id gives it that count and changes no other.
pub proof fn lemma_count_push_one(s: Seq<(u64, u64)>, id: u64, c: u64, d: u64)
    requires
        forall|j: int| 0 <= j < s.len() ==> (#[trigger] s[j]).0 != id,
    ensures
        count_in(s.push((id, c)), d) == if d == id {
            c as nat
        } else {
            count_in(s, d)
        },
    decreases s.len(),
{
    let t = s.push((id, c));
    if s.len() == 0 {
        assert(t[0] == (id, c));
        assert(t.drop_first() =~= Seq::<(u64, u64)>::empty());
        assert(count_in(t.drop_first(), d) == 0);
        assert(count_in(s, d) == 0);
        assert(count_in(t, id) == c);
    } else {
        assert(t[0] == s[0]);
        assert(t.drop_first() =~= s.drop_first().push((id, c)));
        assert(forall|j: int|
            0 <= j < s.drop_first().len() ==> (#[trigger] s.drop_first()[j]).0 != id);
        lemma_count_push_one(s.drop_first(), id, c, d);
    }
}

/// Removing `id`'s entry zeroes its count and changes no other.
pub proof fn lemma_count_remove_one(s: Seq<(u64, u64)>, id: u64, i: int, d: u64)
    requires
        0 <= i < s.len(),
        s[i].0 == id,
        forall|j: int| 0 <= j < s.len() && j != i ==> (#[trigger] s[j]).0 != id,
    ensures
        count_in(s.remove(i), d) == if d == id {
            0
        } else {
            count_in(s, d)
        },
    decreases s.len(),
{
    let t = s.remove(i);
    if i == 0 {
        assert(t =~= s.drop_first());
        if d == id {
            assert(forall|j: int| 0 <= j < t.len() ==> (#[trigger] t[j]).0 != id);
            lemma_count_absent(t, id);
        }
    } else {
        assert(s[0].0 != id);
        assert(t[0] == s[0]);
        assert(t.drop_first() =~= s.drop_first().remove(i - 1));
        lemma_count_remove_one(s.drop_first(), id, i - 1, d);
    }
}

} // verus!
