//! The full-text search index: an inverted view over extracted fragment
//! text. Fragments are indexed per `(document, fragment)` slot, re-indexing
//! a slot replaces its postings, and queries return each matching document
//! once, ranked by term frequency with ascending identifier as tie-break.

use vstd::prelude::*;
use crate::ids::DocId;
use crate::text::{bytes_eq, tokenize, tokenize_text};

verus! {

struct IndexEntry {
    doc: u64,
    frag: usize,
    tokens: Vec<Vec<u8>>,
}

/// The model of one indexed fragment: its document, its fragment position,
/// and its token sequence.
pub ghost struct PostingView {
    pub doc: u64,
    pub frag: usize,
    pub tokens: Seq<Seq<u8>>,
}

impl View for IndexEntry {
    type V = PostingView;

    closed spec fn view(&self) -> PostingView {
        PostingView { doc: self.doc, frag: self.frag, tokens: self.tokens.deep_view() }
    }
}

/// How many tokens of `tokens` are query terms: the term frequency of `q`
/// within one fragment.
pub open spec fn occurrences(tokens: Seq<Seq<u8>>, q: Seq<Seq<u8>>) -> int
    decreases tokens.len(),
{
    if tokens.len() == 0 {
        0
    } else {
        occurrences(tokens.drop_last(), q) + if q.contains(tokens.last()) {
            1int
        } else {
            0int
        }
    }
}

/// The term frequency of one fragment is at most its token count.
pub proof fn lemma_occurrences_bounds(tokens: Seq<Seq<u8>>, q: Seq<Seq<u8>>)
    ensures
        0 <= occurrences(tokens, q) <= tokens.len(),
    decreases tokens.len(),
{
    if tokens.len() > 0 {
        lemma_occurrences_bounds(tokens.drop_last(), q);
    }
}

/// Addition on relevance scores, saturating at the largest representable
/// score.
pub open spec fn sat_add(a: u64, b: int) -> u64 {
    if a + b > u64::MAX {
        u64::MAX
    } else {
        (a + b) as u64
    }
}

/// The relevance score of document `d` for query tokens `q`: the saturating
/// sum of the term frequencies of the document's fragments.
pub open spec fn score_of(entries: Seq<PostingView>, d: u64, q: Seq<Seq<u8>>) -> u64
    decreases entries.len(),
{
    if entries.len() == 0 {
        0
    } else {
        sat_add(
            score_of(entries.drop_last(), d, q),
            if entries.last().doc == d {
                occurrences(entries.last().tokens, q)
            } else {
                0int
            },
        )
    }
}

/// Inverted index over fragment text.
pub struct SearchIndex {
    entries: Vec<IndexEntry>,
}

impl SearchIndex {
    /// The indexed fragments, as their models.
    pub closed spec fn postings(&self) -> Seq<PostingView> {
        self.entries@.map_values(|e: IndexEntry| e@)
    }

    /// Well-formedness: at most one posting per `(document, fragment)` slot.
    pub closed spec fn wf(&self) -> bool {
        forall|i: int, j: int|
            0 <= i < j < self.entries@.len() ==> !(self.entries@[i].doc == self.entries@[j].doc
                && self.entries@[i].frag == self.entries@[j].frag)
    }

    spec fn has_slot(&self, d: u64, f: usize) -> bool {
        exists|i: int|
            0 <= i < self.entries@.len() && self.entries@[i].doc == d
                && self.entries@[i].frag == f
    }

    spec fn slot_index_of(&self, d: u64, f: usize) -> int {
        choose|i: int|
            0 <= i < self.entries@.len() && self.entries@[i].doc == d
                && self.entries@[i].frag == f
    }

    /// The tokens indexed for fragment `f` of document `d`, if that slot is
    /// indexed.
    pub closed spec fn tokens_at(&self, d: u64, f: usize) -> Option<Seq<Seq<u8>>> {
        if self.has_slot(d, f) {
            Some(self.entries@[self.slot_index_of(d, f)].tokens.deep_view())
        } else {
            None
        }
    }

    /// Whether any fragment of document `d` is indexed.
    pub closed spec fn doc_present(&self, d: u64) -> bool {
        exists|i: int| 0 <= i < self.entries@.len() && self.entries@[i].doc == d
    }

    /// Whether some indexed fragment of `d` holds the token `t`.
    pub closed spec fn doc_has_token(&self, d: u64, t: Seq<u8>) -> bool {
        exists|i: int|
            0 <= i < self.entries@.len() && self.entries@[i].doc == d
                && self.entries@[i].tokens.deep_view().contains(t)
    }

    /// Whether document `d` matches query tokens `q`: every query token
    /// occurs somewhere in the document's indexed text.
    pub open spec fn doc_matches(&self, d: u64, q: Seq<Seq<u8>>) -> bool {
        forall|j: int| 0 <= j < q.len() ==> self.doc_has_token(d, q[j])
    }

    /// The relevance score of document `d` for query tokens `q`.
    pub closed spec fn score(&self, d: u64, q: Seq<Seq<u8>>) -> u64 {
        score_of(self.postings(), d, q)
    }

    /// An indexed slot whose tokens hold `t` witnesses that the document has
    /// the token and is present.
    pub proof fn lemma_tokens_at_token(&self, d: u64, f: usize, t: Seq<u8>)
        requires
            self.tokens_at(d, f) is Some,
        ensures
            self.doc_present(d),
            self.tokens_at(d, f) matches Some(ts) && ts.contains(t) ==> self.doc_has_token(d, t),
    {
        assert(self.has_slot(d, f));
        let i = self.slot_index_of(d, f);
        assert(0 <= i < self.entries@.len() && self.entries@[i].doc == d);
    }

    /// Law: a document holds a token only through an indexed fragment. With
    /// this witness a caller who knows every slot of `d` — for instance from
    /// the `tokens_at` clauses of `index_fragment` and `new` — can refute
    /// `doc_has_token`, and with it `doc_matches` for any query holding a
    /// token absent from the document's indexed text.
    pub proof fn lemma_doc_has_token_witness(&self, d: u64, t: Seq<u8>)
        requires
            self.wf(),
            self.doc_has_token(d, t),
        ensures
            exists|f: usize|
                (#[trigger] self.tokens_at(d, f)) matches Some(ts) && ts.contains(t),
    {
        let i = choose|i: int|
            0 <= i < self.entries@.len() && self.entries@[i].doc == d
                && self.entries@[i].tokens.deep_view().contains(t);
        let f0 = self.entries@[i].frag;
        self.lemma_slot_found(d, f0, i);
        assert(self.tokens_at(d, f0) matches Some(ts) && ts.contains(t));
    }

    proof fn lemma_slot_found(&self, d: u64, f: usize, i: int)
        requires
            self.wf(),
            0 <= i < self.entries@.len(),
            self.entries@[i].doc == d,
            self.entries@[i].frag == f,
        ensures
            self.slot_index_of(d, f) == i,
            self.tokens_at(d, f) == Some(self.entries@[i].tokens.deep_view()),
    {
        assert(self.has_slot(d, f));
        let j = self.slot_index_of(d, f);
        if i < j {
            assert(!(self.entries@[i].doc == self.entries@[j].doc && self.entries@[i].frag
                == self.entries@[j].frag));
        } else if j < i {
            assert(!(self.entries@[j].doc == self.entries@[i].doc && self.entries@[j].frag
                == self.entries@[i].frag));
        }
    }

    /// A fresh, empty index.
    pub fn new() -> (s: Self)
        ensures
            s.wf(),
            forall|d: u64| !s.doc_present(d),
            forall|d: u64, f: usize| s.tokens_at(d, f) is None,
            forall|d: u64, q: Seq<Seq<u8>>| s.score(d, q) == 0,
    {
        let s = SearchIndex { entries: Vec::new() };
        proof {
            assert forall|d: u64, q: Seq<Seq<u8>>| s.score(d, q) == 0 by {
                assert(s.postings().len() == 0);
            }
        }
        s
    }

    fn find_slot(&self, d: u64, f: usize) -> (r: Option<usize>)
        ensures
            match r {
                Some(i) => 0 <= i < self.entries@.len() && self.entries@[i as int].doc == d
                    && self.entries@[i as int].frag == f,
                None => !self.has_slot(d, f),
            },
    {
        let mut i: usize = 0;
        while i < self.entries.len()
            invariant
                0 <= i <= self.entries@.len(),
                forall|j: int|
                    0 <= j < i ==> !(self.entries@[j].doc == d && self.entries@[j].frag == f),
            decreases self.entries@.len() - i,
        {
            if self.entries[i].doc == d && self.entries[i].frag == f {
                return Some(i);
            }
            i = i + 1;
        }
        None
    }

    /// Indexes the text of fragment `frag` of document `id`: tokenizes and
    /// normalizes the text and installs the postings for that slot,
    /// replacing any prior postings for the same slot.
    pub fn index_fragment(&mut self, id: DocId, frag: usize, text: &Vec<u8>)
        requires
            old(self).wf(),
        ensures
            final(self).wf(),
            final(self).tokens_at(id.value, frag) == Some(tokenize(text@)),
            final(self).doc_present(id.value),
            forall|d: u64, f: usize|
                !(d == id.value && f == frag) ==> final(self).tokens_at(d, f) == old(
                    self,
                ).tokens_at(d, f),
            forall|d: u64|
                d != id.value ==> final(self).doc_present(d) == old(self).doc_present(d),
            forall|d: u64, t: Seq<u8>|
                d != id.value ==> final(self).doc_has_token(d, t) == old(self).doc_has_token(
                    d,
                    t,
                ),
    {
        let tokens = tokenize_text(text);
        let entry = IndexEntry { doc: id.value, frag, tokens };
        let ghost pre = *self;
        match self.find_slot(id.value, frag) {
            Some(i) => {
                self.entries[i] = entry;
                proof {
                    self.lemma_index_update(pre, i as int, id.value, frag);
                }
            },
            None => {
                self.entries.push(entry);
                proof {
                    self.lemma_index_push(pre, id.value, frag);
                }
            },
        }
    }

    proof fn lemma_index_update(&self, pre: SearchIndex, at: int, d0: u64, f0: usize)
        requires
            pre.wf(),
            0 <= at < pre.entries@.len(),
            pre.entries@[at].doc == d0,
            pre.entries@[at].frag == f0,
            self.entries@.len() == pre.entries@.len(),
            self.entries@ == pre.entries@.update(at, self.entries@[at]),
            self.entries@[at].doc == d0,
            self.entries@[at].frag == f0,
        ensures
            self.wf(),
            self.tokens_at(d0, f0) == Some(self.entries@[at].tokens.deep_view()),
            self.doc_present(d0),
            forall|d: u64, f: usize|
                !(d == d0 && f == f0) ==> self.tokens_at(d, f) == pre.tokens_at(d, f),
            forall|d: u64| d != d0 ==> self.doc_present(d) == pre.doc_present(d),
            forall|d: u64, t: Seq<u8>|
                d != d0 ==> self.doc_has_token(d, t) == pre.doc_has_token(d, t),
    {
        assert forall|i: int| 0 <= i < self.entries@.len() && i != at
            implies self.entries@[i] == pre.entries@[i] by {}
        assert forall|i: int, j: int|
            0 <= i < j < self.entries@.len()
            implies !(self.entries@[i].doc == self.entries@[j].doc && self.entries@[i].frag
                == self.entries@[j].frag) by {
            assert(self.entries@[i].doc == pre.entries@[i].doc);
            assert(self.entries@[i].frag == pre.entries@[i].frag);
            assert(self.entries@[j].doc == pre.entries@[j].doc);
            assert(self.entries@[j].frag == pre.entries@[j].frag);
        }
        self.lemma_slot_found(d0, f0, at);
        assert(self.doc_present(d0)) by {
            assert(self.entries@[at].doc == d0);
        }
        assert forall|d: u64, f: usize|
            !(d == d0 && f == f0) implies self.tokens_at(d, f) == pre.tokens_at(d, f) by {
            if self.has_slot(d, f) {
                let i = choose|i: int|
                    0 <= i < self.entries@.len() && self.entries@[i].doc == d
                        && self.entries@[i].frag == f;
                assert(i != at);
                assert(pre.entries@[i].doc == d && pre.entries@[i].frag == f);
                self.lemma_slot_found(d, f, i);
                pre.lemma_slot_found(d, f, i);
            } else {
                if pre.has_slot(d, f) {
                    let i = choose|i: int|
                        0 <= i < pre.entries@.len() && pre.entries@[i].doc == d
                            && pre.entries@[i].frag == f;
                    assert(i != at);
                    assert(self.entries@[i].doc == d && self.entries@[i].frag == f);
                }
            }
        }
        assert forall|d: u64| d != d0 implies self.doc_present(d) == pre.doc_present(d) by {
            if self.doc_present(d) {
                let i = choose|i: int|
                    0 <= i < self.entries@.len() && self.entries@[i].doc == d;
                assert(i != at);
                assert(pre.entries@[i].doc == d);
            }
            if pre.doc_present(d) {
                let i = choose|i: int| 0 <= i < pre.entries@.len() && pre.entries@[i].doc == d;
                assert(i != at);
                assert(self.entries@[i].doc == d);
            }
        }
        assert forall|d: u64, t: Seq<u8>|
            d != d0 implies self.doc_has_token(d, t) == pre.doc_has_token(d, t) by {
            if self.doc_has_token(d, t) {
                let i = choose|i: int|
                    0 <= i < self.entries@.len() && self.entries@[i].doc == d
                        && self.entries@[i].tokens.deep_view().contains(t);
                assert(i != at);
                assert(pre.entries@[i].doc == d
                    && pre.entries@[i].tokens.deep_view().contains(t));
            }
            if pre.doc_has_token(d, t) {
                let i = choose|i: int|
                    0 <= i < pre.entries@.len() && pre.entries@[i].doc == d
                        && pre.entries@[i].tokens.deep_view().contains(t);
                assert(i != at);
                assert(self.entries@[i].doc == d
                    && self.entries@[i].tokens.deep_view().contains(t));
            }
        }
    }

    proof fn lemma_index_push(&self, pre: SearchIndex, d0: u64, f0: usize)
        requires
            pre.wf(),
            !pre.has_slot(d0, f0),
            self.entries@.len() == pre.entries@.len() + 1,
            self.entries@ == pre.entries@.push(self.entries@.last()),
            self.entries@.last().doc == d0,
            self.entries@.last().frag == f0,
        ensures
            self.wf(),
            self.tokens_at(d0, f0) == Some(self.entries@.last().tokens.deep_view()),
            self.doc_present(d0),
            forall|d: u64, f: usize|
                !(d == d0 && f == f0) ==> self.tokens_at(d, f) == pre.tokens_at(d, f),
            forall|d: u64| d != d0 ==> self.doc_present(d) == pre.doc_present(d),
            forall|d: u64, t: Seq<u8>|
                d != d0 ==> self.doc_has_token(d, t) == pre.doc_has_token(d, t),
    {
        let n = pre.entries@.len() as int;
        assert forall|i: int, j: int|
            0 <= i < j < self.entries@.len()
            implies !(self.entries@[i].doc == self.entries@[j].doc && self.entries@[i].frag
                == self.entries@[j].frag) by {
            if j == n {
                if self.entries@[i].doc == d0 && self.entries@[i].frag == f0 {
                    assert(pre.entries@[i].doc == d0 && pre.entries@[i].frag == f0);
                    assert(pre.has_slot(d0, f0));
                }
            } else {
                assert(!(pre.entries@[i].doc == pre.entries@[j].doc && pre.entries@[i].frag
                    == pre.entries@[j].frag));
            }
        }
        self.lemma_slot_found(d0, f0, n);
        assert(self.doc_present(d0)) by {
            assert(self.entries@[n].doc == d0);
        }
        assert forall|d: u64, f: usize|
            !(d == d0 && f == f0) implies self.tokens_at(d, f) == pre.tokens_at(d, f) by {
            if self.has_slot(d, f) {
                let i = choose|i: int|
                    0 <= i < self.entries@.len() && self.entries@[i].doc == d
                        && self.entries@[i].frag == f;
                assert(i != n);
                assert(pre.entries@[i].doc == d && pre.entries@[i].frag == f);
                self.lemma_slot_found(d, f, i);
                pre.lemma_slot_found(d, f, i);
            } else {
                if pre.has_slot(d, f) {
                    let i = choose|i: int|
                        0 <= i < pre.entries@.len() && pre.entries@[i].doc == d
                            && pre.entries@[i].frag == f;
                    assert(self.entries@[i].doc == d && self.entries@[i].frag == f);
                }
            }
        }
        assert forall|d: u64| d != d0 implies self.doc_present(d) == pre.doc_present(d) by {
            if self.doc_present(d) {
                let i = choose|i: int|
                    0 <= i < self.entries@.len() && self.entries@[i].doc == d;
                assert(i != n);
                assert(pre.entries@[i].doc == d);
            }
            if pre.doc_present(d) {
                let i = choose|i: int| 0 <= i < pre.entries@.len() && pre.entries@[i].doc == d;
                assert(self.entries@[i].doc == d);
            }
        }
        assert forall|d: u64, t: Seq<u8>|
            d != d0 implies self.doc_has_token(d, t) == pre.doc_has_token(d, t) by {
            if self.doc_has_token(d, t) {
                let i = choose|i: int|
                    0 <= i < self.entries@.len() && self.entries@[i].doc == d
                        && self.entries@[i].tokens.deep_view().contains(t);
                assert(i != n);
                assert(pre.entries@[i].doc == d
                    && pre.entries@[i].tokens.deep_view().contains(t));
            }
            if pre.doc_has_token(d, t) {
                let i = choose|i: int|
                    0 <= i < pre.entries@.len() && pre.entries@[i].doc == d
                        && pre.entries@[i].tokens.deep_view().contains(t);
                assert(self.entries@[i].doc == d
                    && self.entries@[i].tokens.deep_view().contains(t));
            }
        }
    }

    /// Removes every posting of document `id`, fragment by fragment. No
    /// error if the document is not indexed.
    pub fn remove_document(&mut self, id: DocId)
        requires
            old(self).wf(),
        ensures
            final(self).wf(),
            !final(self).doc_present(id.value),
            forall|f: usize| final(self).tokens_at(id.value, f) is None,
            forall|d: u64, f: usize|
                d != id.value ==> final(self).tokens_at(d, f) == old(self).tokens_at(d, f),
            forall|d: u64|
                d != id.value ==> final(self).doc_present(d) == old(self).doc_present(d),
            forall|d: u64, t: Seq<u8>|
                d != id.value ==> final(self).doc_has_token(d, t) == old(self).doc_has_token(
                    d,
                    t,
                ),
    {
        let ghost pre = *self;
        let mut i: usize = 0;
        while i < self.entries.len()
            invariant
                0 <= i <= self.entries@.len(),
                self.wf(),
                forall|j: int| 0 <= j < i ==> self.entries@[j].doc != id.value,
                forall|j: int| 0 <= j < self.entries@.len()
                    ==> pre.entry_elsewhere(#[trigger] self.entries@[j]),
                forall|pj: int| 0 <= pj < pre.entries@.len()
                    && (#[trigger] pre.entries@[pj]).doc != id.value
                    ==> exists|j: int|
                        0 <= j < self.entries@.len() && self.entries@[j] == pre.entries@[pj],
            decreases self.entries@.len() - i,
        {
            if self.entries[i].doc == id.value {
                let ghost mid = *self;
                self.entries.remove(i);
                proof {
                    let n = self.entries@.len() as int;
                    assert forall|a: int| 0 <= a < n implies #[trigger] self.entries@[a]
                        == mid.entries@[if a < i { a } else { a + 1 }] by {}
                    assert forall|a: int, b: int|
                        0 <= a < b < n
                        implies !(self.entries@[a].doc == self.entries@[b].doc
                            && self.entries@[a].frag == self.entries@[b].frag) by {
                        let pa: int = if a < i { a } else { a + 1 };
                        let pb: int = if b < i { b } else { b + 1 };
                        assert(!(mid.entries@[pa].doc == mid.entries@[pb].doc
                            && mid.entries@[pa].frag == mid.entries@[pb].frag));
                    }
                    assert forall|j: int| 0 <= j < n
                        implies pre.entry_elsewhere(#[trigger] self.entries@[j]) by {
                        let pj: int = if j < i { j } else { j + 1 };
                        assert(pre.entry_elsewhere(mid.entries@[pj]));
                    }
                    assert forall|pj: int|
                        0 <= pj < pre.entries@.len()
                            && (#[trigger] pre.entries@[pj]).doc != id.value
                        implies exists|j: int|
                            0 <= j < self.entries@.len() && self.entries@[j]
                                == pre.entries@[pj] by {
                        let mj = choose|j: int|
                            0 <= j < mid.entries@.len() && mid.entries@[j] == pre.entries@[pj];
                        assert(mj != i);
                        let j: int = if mj < i { mj } else { mj - 1 };
                        assert(self.entries@[j] == pre.entries@[pj]);
                    }
                }
            } else {
                i = i + 1;
            }
        }
        proof {
            self.lemma_after_remove(pre, id.value);
        }
    }

    /// Whether `e` is one of the index's postings.
    spec fn entry_elsewhere(&self, e: IndexEntry) -> bool {
        exists|i: int| 0 <= i < self.entries@.len() && self.entries@[i] == e
    }

    proof fn lemma_after_remove(&self, pre: SearchIndex, d0: u64)
        requires
            pre.wf(),
            self.wf(),
            forall|j: int| 0 <= j < self.entries@.len()
                ==> (#[trigger] self.entries@[j]).doc != d0,
            forall|j: int| 0 <= j < self.entries@.len()
                ==> pre.entry_elsewhere(#[trigger] self.entries@[j]),
            forall|pj: int| 0 <= pj < pre.entries@.len()
                && (#[trigger] pre.entries@[pj]).doc != d0
                ==> exists|j: int|
                    0 <= j < self.entries@.len() && self.entries@[j] == pre.entries@[pj],
        ensures
            !self.doc_present(d0),
            forall|f: usize| self.tokens_at(d0, f) is None,
            forall|d: u64, f: usize| d != d0 ==> self.tokens_at(d, f) == pre.tokens_at(d, f),
            forall|d: u64| d != d0 ==> self.doc_present(d) == pre.doc_present(d),
            forall|d: u64, t: Seq<u8>|
                d != d0 ==> self.doc_has_token(d, t) == pre.doc_has_token(d, t),
    {
        assert forall|f: usize| self.tokens_at(d0, f) is None by {
            if self.has_slot(d0, f) {
                let i = choose|i: int|
                    0 <= i < self.entries@.len() && self.entries@[i].doc == d0
                        && self.entries@[i].frag == f;
            }
        }
        assert forall|d: u64, f: usize|
            d != d0 implies self.tokens_at(d, f) == pre.tokens_at(d, f) by {
            if self.has_slot(d, f) {
                let i = choose|i: int|
                    0 <= i < self.entries@.len() && self.entries@[i].doc == d
                        && self.entries@[i].frag == f;
                assert(pre.entry_elsewhere(self.entries@[i]));
                let pi = choose|p: int|
                    0 <= p < pre.entries@.len() && pre.entries@[p] == self.entries@[i];
                self.lemma_slot_found(d, f, i);
                pre.lemma_slot_found(d, f, pi);
            } else {
                if pre.has_slot(d, f) {
                    let pi = choose|p: int|
                        0 <= p < pre.entries@.len() && pre.entries@[p].doc == d
                            && pre.entries@[p].frag == f;
                    assert(pre.entries@[pi].doc != d0);
                    let j = choose|j: int|
                        0 <= j < self.entries@.len() && self.entries@[j] == pre.entries@[pi];
                    assert(self.has_slot(d, f));
                }
            }
        }
        assert forall|d: u64| d != d0 implies self.doc_present(d) == pre.doc_present(d) by {
            if self.doc_present(d) {
                let i = choose|i: int|
                    0 <= i < self.entries@.len() && self.entries@[i].doc == d;
                assert(pre.entry_elsewhere(self.entries@[i]));
                let pi = choose|p: int|
                    0 <= p < pre.entries@.len() && pre.entries@[p] == self.entries@[i];
                assert(pre.entries@[pi].doc == d);
            }
            if pre.doc_present(d) {
                let pi = choose|p: int|
                    0 <= p < pre.entries@.len() && pre.entries@[p].doc == d;
                let j = choose|j: int|
                    0 <= j < self.entries@.len() && self.entries@[j] == pre.entries@[pi];
                assert(self.entries@[j].doc == d);
            }
        }
        assert forall|d: u64, t: Seq<u8>|
            d != d0 implies self.doc_has_token(d, t) == pre.doc_has_token(d, t) by {
            if self.doc_has_token(d, t) {
                let i = choose|i: int|
                    0 <= i < self.entries@.len() && self.entries@[i].doc == d
                        && self.entries@[i].tokens.deep_view().contains(t);
                assert(pre.entry_elsewhere(self.entries@[i]));
                let pi = choose|p: int|
                    0 <= p < pre.entries@.len() && pre.entries@[p] == self.entries@[i];
                assert(pre.entries@[pi].doc == d
                    && pre.entries@[pi].tokens.deep_view().contains(t));
            }
            if pre.doc_has_token(d, t) {
                let pi = choose|p: int|
                    0 <= p < pre.entries@.len() && pre.entries@[p].doc == d
                        && pre.entries@[p].tokens.deep_view().contains(t);
                assert(pre.entries@[pi].doc != d0);
                let j = choose|j: int|
                    0 <= j < self.entries@.len() && self.entries@[j] == pre.entries@[pi];
                assert(self.entries@[j].doc == d
                    && self.entries@[j].tokens.deep_view().contains(t));
            }
        }
    }
    fn doc_token(&self, d: u64, t: &Vec<u8>) -> (r: bool)
        ensures
            r == self.doc_has_token(d, t@),
    {
        let mut i: usize = 0;
        while i < self.entries.len()
            invariant
                0 <= i <= self.entries@.len(),
                forall|j: int|
                    0 <= j < i ==> !(self.entries@[j].doc == d
                        && self.entries@[j].tokens.deep_view().contains(t@)),
            decreases self.entries@.len() - i,
        {
            if self.entries[i].doc == d {
                if contains_token(&self.entries[i].tokens, t) {
                    return true;
                }
            }
            i = i + 1;
        }
        false
    }

    fn matches_all(&self, d: u64, q: &Vec<Vec<u8>>) -> (r: bool)
        ensures
            r == self.doc_matches(d, q.deep_view()),
    {
        let mut j: usize = 0;
        while j < q.len()
            invariant
                0 <= j <= q@.len(),
                forall|jj: int| 0 <= jj < j ==> self.doc_has_token(d, q.deep_view()[jj]),
            decreases q@.len() - j,
        {
            let found = self.doc_token(d, &q[j]);
            proof {
                assert(q.deep_view()[j as int] =~= q@[j as int]@);
            }
            if !found {
                return false;
            }
            j = j + 1;
        }
        true
    }

    fn compute_score(&self, d: u64, q: &Vec<Vec<u8>>) -> (r: u64)
        ensures
            r == score_of(self.postings(), d, q.deep_view()),
    {
        let mut acc: u64 = 0;
        let mut i: usize = 0;
        proof {
            assert(self.postings().subrange(0, 0) =~= Seq::<PostingView>::empty());
        }
        while i < self.entries.len()
            invariant
                0 <= i <= self.entries@.len(),
                self.postings().len() == self.entries@.len(),
                acc == score_of(self.postings().subrange(0, i as int), d, q.deep_view()),
            decreases self.entries@.len() - i,
        {
            proof {
                assert(self.postings().subrange(0, i as int + 1).drop_last()
                    =~= self.postings().subrange(0, i as int));
                assert(self.postings().subrange(0, i as int + 1).last()
                    == self.postings()[i as int]);
                assert(self.postings()[i as int] == self.entries@[i as int]@);
            }
            if self.entries[i].doc == d {
                let c = count_occurrences(&self.entries[i].tokens, q);
                proof {
                    lemma_occurrences_bounds(
                        self.entries@[i as int].tokens.deep_view(),
                        q.deep_view(),
                    );
                }
                let c64 = c as u64;
                if c64 > u64::MAX - acc {
                    acc = u64::MAX;
                } else {
                    acc = acc + c64;
                }
            }
            i = i + 1;
        }
        proof {
            assert(self.postings().subrange(0, self.postings().len() as int)
                =~= self.postings());
        }
        acc
    }

    /// Searches the index: the query is tokenized exactly as fragment text
    /// is, and the result holds each matching document exactly once — a
    /// document matches when all query tokens occur in its indexed text —
    /// ordered by descending relevance score with ascending identifier as
    /// tie-break. Identifier text is fixed-width hexadecimal, so ascending
    /// numeric order is ascending text order, keeping pagination stable.
    #[verifier::rlimit(100)]
    pub fn search(&self, query: &Vec<u8>) -> (r: Vec<DocId>)
        requires
            self.wf(),
        ensures
            forall|k: int|
                0 <= k < r@.len() ==> self.doc_present(#[trigger] r@[k].value)
                    && self.doc_matches(r@[k].value, tokenize(query@)),
            forall|d: u64|
                self.doc_present(d) && self.doc_matches(d, tokenize(query@)) ==> exists|k: int|
                    0 <= k < r@.len() && r@[k].value == d,
            forall|k1: int, k2: int| 0 <= k1 < k2 < r@.len() ==> r@[k1].value != r@[k2].value,
            forall|k1: int, k2: int|
                0 <= k1 < k2 < r@.len() ==> rank_le(
                    (self.score(r@[k1].value, tokenize(query@)), r@[k1].value),
                    (self.score(r@[k2].value, tokenize(query@)), r@[k2].value),
                ),
    {
        let q = tokenize_text(query);
        let ghost qdv = q.deep_view();
        // every indexed document becomes a candidate, once
        let mut cands: Vec<u64> = Vec::new();
        let mut i: usize = 0;
        while i < self.entries.len()
            invariant
                0 <= i <= self.entries@.len(),
                forall|k1: int, k2: int|
                    0 <= k1 < k2 < cands@.len() ==> cands@[k1] != cands@[k2],
                forall|k: int| 0 <= k < cands@.len() ==> self.doc_present(#[trigger] cands@[k]),
                forall|j: int| 0 <= j < i ==> cands@.contains(#[trigger] self.entries@[j].doc),
            decreases self.entries@.len() - i,
        {
            let d = self.entries[i].doc;
            let ghost pre = cands@;
            if !contains_u64(&cands, d) {
                cands.push(d);
                proof {
                    assert(cands@[pre.len() as int] == d);
                    assert(self.doc_present(d)) by {
                        assert(self.entries@[i as int].doc == d);
                    }
                    assert forall|j: int| 0 <= j < i + 1
                        implies cands@.contains(#[trigger] self.entries@[j].doc) by {
                        if j < i {
                            let k = choose|k: int|
                                0 <= k < pre.len() && pre[k] == self.entries@[j].doc;
                            assert(cands@[k] == self.entries@[j].doc);
                        } else {
                            assert(cands@[pre.len() as int] == self.entries@[j].doc);
                        }
                    }
                }
            } else {
                proof {
                    assert(cands@.contains(self.entries@[i as int].doc));
                }
            }
            i = i + 1;
        }
        proof {
            assert forall|d: u64| self.doc_present(d) implies cands@.contains(d) by {
                let j = choose|j: int|
                    0 <= j < self.entries@.len() && self.entries@[j].doc == d;
                assert(cands@.contains(self.entries@[j].doc));
            }
        }
        // keep the candidates that match, with their scores
        let mut scored: Vec<(u64, u64)> = Vec::new();
        let mut c: usize = 0;
        while c < cands.len()
            invariant
                0 <= c <= cands@.len(),
                qdv == q.deep_view(),
                forall|k1: int, k2: int|
                    0 <= k1 < k2 < cands@.len() ==> cands@[k1] != cands@[k2],
                forall|k: int| 0 <= k < cands@.len() ==> self.doc_present(#[trigger] cands@[k]),
                forall|k: int|
                    0 <= k < scored@.len() ==> self.doc_present(#[trigger] scored@[k].1)
                        && self.doc_matches(scored@[k].1, qdv) && scored@[k].0 == self.score(
                        scored@[k].1,
                        qdv,
                    ),
                forall|k: int|
                    0 <= k < scored@.len() ==> exists|j: int|
                        0 <= j < c && cands@[j] == (#[trigger] scored@[k]).1,
                forall|k1: int, k2: int|
                    0 <= k1 < k2 < scored@.len() ==> scored@[k1].1 != scored@[k2].1,
                forall|j: int|
                    0 <= j < c && self.doc_matches(#[trigger] cands@[j], qdv) ==> exists|k: int|
                        0 <= k < scored@.len() && scored@[k].1 == cands@[j],
            decreases cands@.len() - c,
        {
            let d = cands[c];
            let ghost pre = scored@;
            let matched = self.matches_all(d, &q);
            if matched {
                let s = self.compute_score(d, &q);
                scored.push((s, d));
                proof {
                    let n = pre.len() as int;
                    assert(scored@ =~= pre.push((s, d)));
                    assert(scored@[n] == (s, d));
                    assert(d == cands@[c as int]);
                    assert(self.doc_present(cands@[c as int]));
                    assert(self.doc_matches(d, qdv));
                    assert(self.score(d, qdv) == s);
                    assert forall|k: int|
                        0 <= k < scored@.len() implies self.doc_present(
                        #[trigger] scored@[k].1,
                    ) && self.doc_matches(scored@[k].1, qdv) && scored@[k].0 == self.score(
                        scored@[k].1,
                        qdv,
                    ) by {
                        if k < n {
                            assert(scored@[k] == pre[k]);
                        } else {
                            assert(scored@[k] == (s, d));
                        }
                    }
                    assert forall|k1: int, k2: int|
                        0 <= k1 < k2 < scored@.len()
                        implies scored@[k1].1 != scored@[k2].1 by {
                        if k2 == n {
                            assert(scored@[k1] == pre[k1]);
                            let j = choose|j: int|
                                0 <= j < c && cands@[j] == pre[k1].1;
                            assert(cands@[j] != cands@[c as int]);
                        } else {
                            assert(scored@[k1] == pre[k1]);
                            assert(scored@[k2] == pre[k2]);
                        }
                    }
                    assert forall|k: int|
                        0 <= k < scored@.len() implies exists|j: int|
                            0 <= j < c + 1 && cands@[j] == (#[trigger] scored@[k]).1 by {
                        if k < n {
                            let j = choose|j: int| 0 <= j < c && cands@[j] == pre[k].1;
                            assert(cands@[j] == scored@[k].1);
                        } else {
                            assert(cands@[c as int] == scored@[k].1);
                        }
                    }
                    assert forall|j: int|
                        0 <= j < c + 1 && self.doc_matches(#[trigger] cands@[j], qdv)
                        implies exists|k: int|
                            0 <= k < scored@.len() && scored@[k].1 == cands@[j] by {
                        if j < c {
                            let k = choose|k: int|
                                0 <= k < pre.len() && pre[k].1 == cands@[j];
                            assert(scored@[k] == pre[k]);
                            assert(0 <= k < scored@.len() && scored@[k].1 == cands@[j]);
                        } else {
                            assert(0 <= n < scored@.len() && scored@[n].1 == cands@[j]);
                        }
                    }
                }
            } else {
                proof {
                    assert forall|j: int|
                        0 <= j < c + 1 && self.doc_matches(#[trigger] cands@[j], qdv)
                        implies exists|k: int|
                            0 <= k < scored@.len() && scored@[k].1 == cands@[j] by {
                        if j < c {
                            let k = choose|k: int|
                                0 <= k < scored@.len() && scored@[k].1 == cands@[j];
                        }
                    }
                }
            }
            c = c + 1;
        }
        let sorted = sort_ranked(&scored);
        let mut r: Vec<DocId> = Vec::new();
        let mut k: usize = 0;
        while k < sorted.len()
            invariant
                0 <= k <= sorted@.len(),
                r@.len() == k,
                forall|kk: int| 0 <= kk < k ==> r@[kk].value == sorted@[kk].1,
            decreases sorted@.len() - k,
        {
            r.push(DocId { value: sorted[k].1 });
            k = k + 1;
        }
        proof {
            assert forall|kk: int|
                0 <= kk < r@.len() implies self.doc_present(#[trigger] r@[kk].value)
                    && self.doc_matches(r@[kk].value, qdv) && sorted@[kk].0 == self.score(
                    r@[kk].value,
                    qdv,
                ) by {
                assert(scored@.contains(sorted@[kk]));
                let j = choose|j: int| 0 <= j < scored@.len() && scored@[j] == sorted@[kk];
            }
            assert forall|d: u64|
                self.doc_present(d) && self.doc_matches(d, qdv) implies exists|kk: int|
                    0 <= kk < r@.len() && r@[kk].value == d by {
                assert(cands@.contains(d));
                let j = choose|j: int| 0 <= j < cands@.len() && cands@[j] == d;
                let k1 = choose|k1: int| 0 <= k1 < scored@.len() && scored@[k1].1 == d;
                assert(sorted@.contains(scored@[k1]));
                let k2 = choose|k2: int|
                    0 <= k2 < sorted@.len() && sorted@[k2] == scored@[k1];
                assert(r@[k2].value == d);
            }
        }
        r
    }
}

/// The ranking order on `(score, identifier)` pairs: higher score first,
/// then lower identifier.
pub open spec fn rank_le(a: (u64, u64), b: (u64, u64)) -> bool {
    a.0 > b.0 || (a.0 == b.0 && a.1 <= b.1)
}

/// Law: search recall — once a fragment of document `d` is indexed with
/// tokens holding `t`, the document matches the one-token query `t`, so
/// `search` returns it, exactly once; and it matches no query holding a
/// token absent from all its fragments.
pub proof fn lemma_search_recall(index: SearchIndex, d: u64, f: usize, t: Seq<u8>)
    requires
        index.tokens_at(d, f) matches Some(ts) && ts.contains(t),
    ensures
        index.doc_present(d),
        index.doc_matches(d, seq![t]),
        forall|q: Seq<Seq<u8>>, j: int|
            0 <= j < q.len() && !index.doc_has_token(d, q[j]) ==> !index.doc_matches(d, q),
{
    index.lemma_tokens_at_token(d, f, t);
    assert(seq![t][0] == t);
}

fn contains_token(hay: &Vec<Vec<u8>>, t: &Vec<u8>) -> (r: bool)
    ensures
        r == hay.deep_view().contains(t@),
{
    let mut i: usize = 0;
    while i < hay.len()
        invariant
            0 <= i <= hay@.len(),
            forall|j: int| 0 <= j < i ==> hay.deep_view()[j] != t@,
        decreases hay@.len() - i,
    {
        let same = bytes_eq(&hay[i], t);
        proof {
            assert(hay.deep_view()[i as int] =~= hay@[i as int]@);
        }
        if same {
            proof {
                assert(hay.deep_view()[i as int] == t@);
            }
            return true;
        }
        i = i + 1;
    }
    proof {
        if hay.deep_view().contains(t@) {
            let j = choose|j: int|
                0 <= j < hay.deep_view().len() && hay.deep_view()[j] == t@;
        }
    }
    false
}

fn contains_u64(v: &Vec<u64>, x: u64) -> (r: bool)
    ensures
        r == v@.contains(x),
{
    let mut i: usize = 0;
    while i < v.len()
        invariant
            0 <= i <= v@.len(),
            forall|j: int| 0 <= j < i ==> v@[j] != x,
        decreases v@.len() - i,
    {
        if v[i] == x {
            return true;
        }
        i = i + 1;
    }
    false
}

fn count_occurrences(tokens: &Vec<Vec<u8>>, q: &Vec<Vec<u8>>) -> (r: usize)
    ensures
        r == occurrences(tokens.deep_view(), q.deep_view()),
{
    let mut count: usize = 0;
    let mut i: usize = 0;
    proof {
        assert(tokens.deep_view().subrange(0, 0) =~= Seq::<Seq<u8>>::empty());
    }
    while i < tokens.len()
        invariant
            0 <= i <= tokens@.len(),
            tokens.deep_view().len() == tokens@.len(),
            count == occurrences(tokens.deep_view().subrange(0, i as int), q.deep_view()),
            count <= i,
        decreases tokens@.len() - i,
    {
        proof {
            assert(tokens.deep_view().subrange(0, i as int + 1).drop_last()
                =~= tokens.deep_view().subrange(0, i as int));
            assert(tokens.deep_view().subrange(0, i as int + 1).last()
                == tokens.deep_view()[i as int]);
            assert(tokens.deep_view()[i as int] =~= tokens@[i as int]@);
        }
        let inq = contains_token(q, &tokens[i]);
        if inq {
            count = count + 1;
        }
        i = i + 1;
    }
    proof {
        assert(tokens.deep_view().subrange(0, tokens.deep_view().len() as int)
            =~= tokens.deep_view());
    }
    count
}

fn sort_ranked(v: &Vec<(u64, u64)>) -> (r: Vec<(u64, u64)>)
    requires
        forall|k1: int, k2: int| 0 <= k1 < k2 < v@.len() ==> v@[k1].1 != v@[k2].1,
    ensures
        forall|a: int, b: int| 0 <= a < b < r@.len() ==> rank_le(r@[a], r@[b]),
        forall|k: int| 0 <= k < r@.len() ==> v@.contains(#[trigger] r@[k]),
        forall|j: int| 0 <= j < v@.len() ==> r@.contains(#[trigger] v@[j]),
        forall|k1: int, k2: int| 0 <= k1 < k2 < r@.len() ==> r@[k1].1 != r@[k2].1,
{
    let mut out: Vec<(u64, u64)> = Vec::new();
    let mut i: usize = 0;
    while i < v.len()
        invariant
            0 <= i <= v@.len(),
            forall|a: int, b: int| 0 <= a < b < out@.len() ==> rank_le(out@[a], out@[b]),
            forall|k: int|
                0 <= k < out@.len() ==> exists|j: int|
                    0 <= j < i && v@[j] == (#[trigger] out@[k]),
            forall|j: int| 0 <= j < i ==> out@.contains(#[trigger] v@[j]),
            forall|k1: int, k2: int| 0 <= k1 < k2 < v@.len() ==> v@[k1].1 != v@[k2].1,
            forall|k1: int, k2: int| 0 <= k1 < k2 < out@.len() ==> out@[k1].1 != out@[k2].1,
        decreases v@.len() - i,
    {
        let x = v[i];
        let mut p: usize = 0;
        while p < out.len() && (out[p].0 > x.0 || (out[p].0 == x.0 && out[p].1 <= x.1))
            invariant
                0 <= p <= out@.len(),
                forall|j: int| 0 <= j < p ==> rank_le(#[trigger] out@[j], x),
            decreases out@.len() - p,
        {
            p = p + 1;
        }
        let ghost pre = out@;
        out.insert(p, x);
        proof {
            assert(out@ =~= pre.insert(p as int, x));
            assert(out@.len() == pre.len() + 1);
            assert forall|k: int| 0 <= k < out@.len() implies #[trigger] out@[k]
                == (if k < p { pre[k] } else if k == p { x } else { pre[k - 1] }) by {}
            if p < pre.len() {
                assert(!rank_le(pre[p as int], x));
                assert(rank_le(x, pre[p as int]));
            }
            assert forall|a: int, b: int|
                0 <= a < b < out@.len() implies rank_le(out@[a], out@[b]) by {
                if b < p {
                    assert(rank_le(pre[a], pre[b]));
                } else if b == p {
                    assert(rank_le(pre[a], x));
                } else if a < p {
                    assert(rank_le(pre[a], pre[b - 1]));
                } else if a == p {
                    assert(rank_le(x, pre[p as int]));
                    if b - 1 > p {
                        assert(rank_le(pre[p as int], pre[b - 1]));
                    }
                } else {
                    assert(rank_le(pre[a - 1], pre[b - 1]));
                }
            }
            assert forall|k: int|
                0 <= k < out@.len() implies exists|j: int|
                    0 <= j < i + 1 && v@[j] == (#[trigger] out@[k]) by {
                if k < p {
                    let j = choose|j: int| 0 <= j < i && v@[j] == pre[k];
                } else if k == p {
                    assert(v@[i as int] == out@[k]);
                } else {
                    let j = choose|j: int| 0 <= j < i && v@[j] == pre[k - 1];
                }
            }
            assert forall|j: int| 0 <= j < i + 1 implies out@.contains(#[trigger] v@[j]) by {
                if j < i {
                    let k = choose|k: int| 0 <= k < pre.len() && pre[k] == v@[j];
                    if k < p {
                        assert(out@[k] == v@[j]);
                    } else {
                        assert(out@[k + 1] == v@[j]);
                    }
                } else {
                    assert(out@[p as int] == v@[j]);
                }
            }
            assert forall|k1: int, k2: int|
                0 <= k1 < k2 < out@.len() implies out@[k1].1 != out@[k2].1 by {
                let a1: (u64, u64) = out@[k1];
                let a2: (u64, u64) = out@[k2];
                if k1 == p || k2 == p {
                    let other: (u64, u64) = if k1 == p { a2 } else { a1 };
                    let j = choose|j: int| 0 <= j < i && v@[j] == other;
                    assert(v@[j].1 != v@[i as int].1);
                } else {
                    let j1 = choose|j: int| 0 <= j < i && v@[j] == a1;
                    let j2 = choose|j: int| 0 <= j < i && v@[j] == a2;
                    if j1 == j2 {
                        assert(a1 == a2);
                        let b1: int = if k1 < p { k1 } else { k1 - 1 };
                        let b2: int = if k2 < p { k2 } else { k2 - 1 };
                        assert(pre[b1] == a1 && pre[b2] == a2);
                        if b1 < b2 {
                            assert(pre[b1].1 != pre[b2].1);
                        } else if b2 < b1 {
                            assert(pre[b2].1 != pre[b1].1);
                        } else {
                            assert(k1 == k2);
                        }
                    } else if j1 < j2 {
                        assert(v@[j1].1 != v@[j2].1);
                    } else {
                        assert(v@[j2].1 != v@[j1].1);
                    }
                }
            }
        }
        i = i + 1;
    }
    out
}

} // verus!

