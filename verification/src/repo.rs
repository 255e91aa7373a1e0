//! The repository: the ingestion pipeline and the read/triage operations,
//! wired over the bundle store, the search index, and the inbox workflow by
//! explicit composition. Its well-formedness ties the three together: every
//! pending or archived document has a bundle, every bundle belongs to a
//! pending or archived document, only such documents are indexed, and every
//! stored fragment with extracted text is indexed under its slot.

use vstd::prelude::*;
use crate::content::{compute_address, content_address};
use crate::errors::RepoError;
use crate::extract::{extract, extract_model, supported};
use crate::ids::DocId;
use crate::inbox::{EntryView, Inbox, InboxEntry};
use crate::indexer::SearchIndex;
use crate::store::{Bundle, BundleStore, BundleView, Fragment};
use crate::text::tokenize;

verus! {

/// The document archive: content-addressed storage, full-text index, and
/// inbox, kept consistent with each other.
pub struct Repository {
    pub store: BundleStore,
    pub index: SearchIndex,
    pub inbox: Inbox,
}

impl Repository {
    /// Cross-component well-formedness.
    pub open spec fn wf(&self) -> bool {
        &&& self.store.wf()
        &&& self.index.wf()
        &&& self.inbox.wf()
        &&& forall|id: u64| #[trigger]
            self.inbox.is_pending(id) ==> self.store@.contains_key(id)
        &&& forall|id: u64| #[trigger]
            self.inbox.is_archived(id) ==> self.store@.contains_key(id)
        &&& forall|id: u64| #[trigger]
            self.store@.contains_key(id) ==> self.inbox.is_pending(id)
                || self.inbox.is_archived(id)
        &&& forall|id: u64| #[trigger]
            self.index.doc_present(id) ==> self.inbox.is_pending(id)
                || self.inbox.is_archived(id)
        &&& forall|id: u64, f: int|
            (self.inbox.is_pending(id) || self.inbox.is_archived(id)) && 0 <= f
                < self.store@[id].fragments.len()
                ==> ((#[trigger] self.store@[id].fragments[f]).text matches Some(tx)
                    ==> self.index.tokens_at(id, f as usize) == Some(tokenize(tx)))
    }

    /// A fresh, empty repository.
    pub fn new() -> (s: Self)
        ensures
            s.wf(),
            s.store@ == Map::<u64, BundleView>::empty(),
            s.inbox.pending_seq() == Seq::<EntryView>::empty(),
            forall|id: u64| s.inbox.state_of(id) is Fresh,
    {
        Repository { store: BundleStore::new(), index: SearchIndex::new(), inbox: Inbox::new() }
    }

    /// Ingests a raw uploaded document: extracts its fragments, persists the
    /// bundle under its content address, indexes every fragment with text,
    /// and finally records the document as pending. On any failure the
    /// repository is unchanged — a partially ingested document is never
    /// visible. Re-ingesting content that is already pending or archived
    /// changes nothing and returns the same identifier; content whose
    /// identifier was deleted is refused, since identifiers are never
    /// reused.
    pub fn ingest(&mut self, raw: Vec<u8>, now: u64) -> (r: Result<DocId, RepoError>)
        requires
            old(self).wf(),
            old(self).inbox.clock_le(now),
        ensures
            final(self).wf(),
            match r {
                Ok(id) => {
                    &&& id.value == content_address(raw@)
                    &&& supported(raw@)
                    &&& (old(self).inbox.state_of(id.value) is Fresh ==> {
                        &&& final(self).store@ == old(self).store@.insert(
                            id.value,
                            BundleView { content: raw@, fragments: extract_model(raw@) },
                        )
                        &&& final(self).inbox.pending_seq() == old(self).inbox.pending_seq()
                            .push(
                            EntryView {
                                doc: id.value,
                                uploaded: now,
                                labels: Set::<Seq<char>>::empty(),
                                properties: Map::<Seq<char>, Seq<char>>::empty(),
                            },
                        )
                        &&& final(self).inbox.state_of(id.value) is Pending
                        &&& forall|f: int|
                            0 <= f < extract_model(raw@).len() ==> ((#[trigger] extract_model(
                                raw@,
                            )[f]).text matches Some(tx) ==> final(self).index.tokens_at(
                                id.value,
                                f as usize,
                            ) == Some(tokenize(tx)))
                    })
                    &&& (!(old(self).inbox.state_of(id.value) is Fresh) ==> *final(self) == *old(
                        self,
                    ))
                },
                Err(e) => {
                    &&& *final(self) == *old(self)
                    &&& (e == RepoError::UnsupportedFormat || e == RepoError::NotFound)
                    &&& (e == RepoError::UnsupportedFormat <==> !supported(raw@))
                    &&& (e == RepoError::NotFound <==> supported(raw@) && old(
                        self,
                    ).inbox.state_of(content_address(raw@)) is Deleted)
                },
            },
            r is Err <==> (!supported(raw@) || old(self).inbox.state_of(
                content_address(raw@),
            ) is Deleted),
            forall|d: u64|
                d != content_address(raw@) ==> final(self).inbox.state_of(d) == old(
                    self,
                ).inbox.state_of(d),
    {
        let frags = match extract(&raw) {
            Ok(f) => f,
            Err(e) => {
                return Err(e);
            },
        };
        let addr = compute_address(&raw);
        let id = DocId { value: addr };
        if self.inbox.was_deleted(id) {
            proof {
                crate::inbox::lemma_state_exclusivity(self.inbox, addr);
            }
            return Err(RepoError::NotFound);
        }
        let already_pending = match self.inbox.get(id) {
            Ok(_) => true,
            Err(_) => false,
        };
        if already_pending {
            return Ok(id);
        }
        let already_archived = match self.inbox.get_archived(id) {
            Ok(_) => true,
            Err(_) => false,
        };
        if already_archived {
            return Ok(id);
        }
        proof {
            assert(old(self).inbox.state_of(addr) is Fresh);
            assert(!self.store@.contains_key(addr));
        }
        let ghost raw_view = raw@;
        let ghost index0 = self.index;
        let ghost store0 = self.store;
        let ghost inbox0 = self.inbox;
        let mut f: usize = 0;
        while f < frags.len()
            invariant
                0 <= f <= frags@.len(),
                id.value == addr,
                self.index.wf(),
                self.store == store0,
                self.inbox == inbox0,
                frags@.map_values(|fr: Fragment| fr@) == extract_model(raw_view),
                forall|g: int|
                    0 <= g < f ==> ((#[trigger] frags@[g]@).text matches Some(tx)
                        ==> self.index.tokens_at(addr, g as usize) == Some(tokenize(tx))),
                forall|d: u64, ff: usize|
                    d != addr ==> self.index.tokens_at(d, ff) == index0.tokens_at(d, ff),
                forall|d: u64|
                    d != addr ==> self.index.doc_present(d) == index0.doc_present(d),
                forall|d: u64, t: Seq<u8>|
                    d != addr ==> self.index.doc_has_token(d, t) == index0.doc_has_token(d, t),
            decreases frags@.len() - f,
        {
            let ghost idx_pre = self.index;
            let fr = &frags[f];
            match &fr.text {
                Some(t) => {
                    self.index.index_fragment(id, f, t);
                    proof {
                        assert(frags@[f as int]@.text == Some(t@));
                        assert(self.index.tokens_at(addr, f) == Some(tokenize(t@)));
                        assert forall|g: int|
                            0 <= g < f + 1 implies ((#[trigger] frags@[g]@).text matches Some(
                            tx,
                        ) ==> self.index.tokens_at(addr, g as usize) == Some(tokenize(tx))) by {
                            if g < f {
                                assert(self.index.tokens_at(addr, g as usize)
                                    == idx_pre.tokens_at(addr, g as usize));
                            }
                        }
                    }
                },
                None => {
                    proof {
                        assert(frags@[f as int]@.text is None);
                    }
                },
            }
            f = f + 1;
        }
        let ghost frag_views = frags@.map_values(|fr: Fragment| fr@);
        let stored = self.store.put_bundle(raw, frags);
        proof {
            assert(stored.value == addr);
            assert(self.store@ == store0@.insert(
                addr,
                BundleView { content: raw_view, fragments: frag_views },
            ));
        }
        self.inbox.create_pending(id, now);
        proof {
            self.lemma_ingest_wf(*old(self), index0, addr, raw_view);
        }
        Ok(id)
    }

    proof fn lemma_ingest_wf(&self, pre: Repository, index0: SearchIndex, addr: u64, raw_view: Seq<u8>)
        requires
            pre.wf(),
            !pre.inbox.is_pending(addr),
            !pre.inbox.is_archived(addr),
            !pre.store@.contains_key(addr),
            self.store.wf(),
            self.index.wf(),
            self.inbox.wf(),
            index0 == pre.index,
            self.store@ == pre.store@.insert(
                addr,
                BundleView { content: raw_view, fragments: extract_model(raw_view) },
            ),
            self.inbox.state_of(addr) is Pending,
            forall|d: u64| d != addr ==> self.inbox.state_of(d) == pre.inbox.state_of(d),
            forall|g: int|
                0 <= g < extract_model(raw_view).len() ==> ((#[trigger] extract_model(
                    raw_view,
                )[g]).text matches Some(tx) ==> self.index.tokens_at(addr, g as usize) == Some(
                    tokenize(tx),
                )),
            forall|d: u64, ff: usize|
                d != addr ==> self.index.tokens_at(d, ff) == index0.tokens_at(d, ff),
            forall|d: u64| d != addr ==> self.index.doc_present(d) == index0.doc_present(d),
        ensures
            self.wf(),
    {
        assert forall|d: u64| d != addr
            implies (self.inbox.is_pending(d) == pre.inbox.is_pending(d))
                && (self.inbox.is_archived(d) == pre.inbox.is_archived(d)) by {
            assert(self.inbox.state_of(d) == pre.inbox.state_of(d));
            crate::inbox::lemma_state_exclusivity(self.inbox, d);
            crate::inbox::lemma_state_exclusivity(pre.inbox, d);
        }
        crate::inbox::lemma_state_exclusivity(self.inbox, addr);
        assert(self.inbox.is_pending(addr));
        assert forall|id: u64| #[trigger]
            self.inbox.is_pending(id) implies self.store@.contains_key(id) by {
            if id != addr {
                assert(pre.inbox.is_pending(id));
            }
        }
        assert forall|id: u64| #[trigger]
            self.inbox.is_archived(id) implies self.store@.contains_key(id) by {
            assert(id != addr);
            assert(pre.inbox.is_archived(id));
        }
        assert forall|id: u64| #[trigger]
            self.store@.contains_key(id) implies self.inbox.is_pending(id)
                || self.inbox.is_archived(id) by {
            if id != addr {
                assert(pre.store@.contains_key(id));
            }
        }
        assert forall|id: u64| #[trigger]
            self.index.doc_present(id) implies self.inbox.is_pending(id)
                || self.inbox.is_archived(id) by {
            if id != addr {
                assert(index0.doc_present(id));
                assert(pre.index.doc_present(id));
            }
        }
        assert forall|id: u64, f: int|
            (self.inbox.is_pending(id) || self.inbox.is_archived(id)) && 0 <= f
                < self.store@[id].fragments.len()
            implies ((#[trigger] self.store@[id].fragments[f]).text matches Some(tx)
                ==> self.index.tokens_at(id, f as usize) == Some(tokenize(tx))) by {
            if id == addr {
                assert(self.store@[id].fragments == extract_model(raw_view));
            } else {
                assert(self.store@[id] == pre.store@[id]);
                assert(pre.inbox.is_pending(id) || pre.inbox.is_archived(id));
                assert(self.index.tokens_at(id, f as usize) == pre.index.tokens_at(
                    id,
                    f as usize,
                ));
            }
        }
    }

    /// Retrieves the bundle of `id`. Fails with `NotFound` exactly when no
    /// bundle is stored under that identifier.
    pub fn get_bundle(&self, id: DocId) -> (r: Result<&Bundle, RepoError>)
        requires
            self.wf(),
        ensures
            match r {
                Ok(b) => self.store@.contains_key(id.value) && b@ == self.store@[id.value],
                Err(e) => e == RepoError::NotFound && !self.store@.contains_key(id.value),
            },
    {
        self.store.get_bundle(id)
    }

    /// Retrieves one fragment of the bundle of `id`. Fails with `NotFound`
    /// when the bundle does not exist and with `OutOfRange` when the index
    /// is not below the bundle's fragment count.
    pub fn get_fragment(&self, id: DocId, index: usize) -> (r: Result<&Fragment, RepoError>)
        requires
            self.wf(),
        ensures
            match r {
                Ok(frag) => {
                    &&& self.store@.contains_key(id.value)
                    &&& (index as int) < self.store@[id.value].fragments.len()
                    &&& frag@ == self.store@[id.value].fragments[index as int]
                },
                Err(e) => {
                    &&& (e == RepoError::NotFound || e == RepoError::OutOfRange)
                    &&& (e == RepoError::NotFound <==> !self.store@.contains_key(id.value))
                    &&& (e == RepoError::OutOfRange <==> self.store@.contains_key(id.value)
                        && index as int >= self.store@[id.value].fragments.len())
                },
            },
    {
        self.store.get_fragment(id, index)
    }

    /// Searches the index; see `SearchIndex::search` for the ranking
    /// guarantees.
    pub fn search(&self, query: &Vec<u8>) -> (r: Vec<DocId>)
        requires
            self.wf(),
        ensures
            forall|k: int|
                0 <= k < r@.len() ==> self.index.doc_present(#[trigger] r@[k].value)
                    && self.index.doc_matches(r@[k].value, tokenize(query@)),
            forall|d: u64|
                self.index.doc_present(d) && self.index.doc_matches(d, tokenize(query@))
                    ==> exists|k: int| 0 <= k < r@.len() && r@[k].value == d,
            forall|k1: int, k2: int| 0 <= k1 < k2 < r@.len() ==> r@[k1].value != r@[k2].value,
            forall|k1: int, k2: int|
                0 <= k1 < k2 < r@.len() ==> crate::indexer::rank_le(
                    (self.index.score(r@[k1].value, tokenize(query@)), r@[k1].value),
                    (self.index.score(r@[k2].value, tokenize(query@)), r@[k2].value),
                ),
    {
        self.index.search(query)
    }

    /// The pending documents, oldest upload first.
    pub fn list(&self) -> (r: Vec<DocId>)
        requires
            self.wf(),
        ensures
            r@.len() == self.inbox.pending_seq().len(),
            forall|k: int|
                0 <= k < r@.len() ==> r@[k].value == self.inbox.pending_seq()[k].doc,
            forall|k1: int, k2: int|
                0 <= k1 <= k2 < r@.len() ==> self.inbox.pending_seq()[k1].uploaded
                    <= self.inbox.pending_seq()[k2].uploaded,
    {
        self.inbox.list()
    }

    /// Retrieves the pending inbox entry for `id`.
    pub fn get_entry(&self, id: DocId) -> (r: Result<&InboxEntry, RepoError>)
        requires
            self.wf(),
        ensures
            match r {
                Ok(e) => self.inbox.is_pending(id.value) && e@ == self.inbox.pending_entry(
                    id.value,
                ),
                Err(e) => e == RepoError::NotFound && !self.inbox.is_pending(id.value),
            },
    {
        self.inbox.get(id)
    }

    /// Retrieves the filed metadata of an archived document.
    pub fn get_archived(&self, id: DocId) -> (r: Result<&InboxEntry, RepoError>)
        requires
            self.wf(),
        ensures
            match r {
                Ok(e) => self.inbox.is_archived(id.value) && e@ == self.inbox.archived_entry(
                    id.value,
                ),
                Err(e) => e == RepoError::NotFound && !self.inbox.is_archived(id.value),
            },
    {
        self.inbox.get_archived(id)
    }

    /// Deletes a pending document: the inbox entry, the bundle with all its
    /// fragments, and every index posting are removed together, and the
    /// identifier is retired. Fails with `NotFound` exactly when `id` is not
    /// pending, so a repeated delete reports `NotFound`; after a successful
    /// delete, `get_bundle` fails with `NotFound` for good.
    pub fn delete(&mut self, id: DocId) -> (r: Result<(), RepoError>)
        requires
            old(self).wf(),
        ensures
            final(self).wf(),
            match r {
                Ok(()) => {
                    &&& old(self).inbox.is_pending(id.value)
                    &&& final(self).inbox.state_of(id.value) is Deleted
                    &&& final(self).store@ == old(self).store@.remove(id.value)
                    &&& !final(self).store@.contains_key(id.value)
                    &&& !final(self).index.doc_present(id.value)
                },
                Err(e) => {
                    &&& e == RepoError::NotFound
                    &&& !old(self).inbox.is_pending(id.value)
                    &&& *final(self) == *old(self)
                },
            },
            forall|d: u64|
                d != id.value ==> final(self).inbox.state_of(d) == old(self).inbox.state_of(d),
    {
        let ghost pre = *self;
        match self.inbox.delete(id) {
            Ok(()) => {
                self.store.delete_bundle(id);
                self.index.remove_document(id);
                proof {
                    self.lemma_delete_wf(pre, id.value);
                }
                Ok(())
            },
            Err(e) => Err(e),
        }
    }

    proof fn lemma_delete_wf(&self, pre: Repository, addr: u64)
        requires
            pre.wf(),
            self.store.wf(),
            self.index.wf(),
            self.inbox.wf(),
            self.store@ == pre.store@.remove(addr),
            self.inbox.state_of(addr) is Deleted,
            forall|d: u64| d != addr ==> self.inbox.state_of(d) == pre.inbox.state_of(d),
            !self.index.doc_present(addr),
            forall|d: u64, ff: usize|
                d != addr ==> self.index.tokens_at(d, ff) == pre.index.tokens_at(d, ff),
            forall|d: u64| d != addr ==> self.index.doc_present(d) == pre.index.doc_present(d),
        ensures
            self.wf(),
    {
        assert forall|d: u64| d != addr
            implies (self.inbox.is_pending(d) == pre.inbox.is_pending(d))
                && (self.inbox.is_archived(d) == pre.inbox.is_archived(d)) by {
            assert(self.inbox.state_of(d) == pre.inbox.state_of(d));
            crate::inbox::lemma_state_exclusivity(self.inbox, d);
            crate::inbox::lemma_state_exclusivity(pre.inbox, d);
        }
        crate::inbox::lemma_state_exclusivity(self.inbox, addr);
        assert forall|id: u64| #[trigger]
            self.inbox.is_pending(id) implies self.store@.contains_key(id) by {
            assert(id != addr);
            assert(pre.inbox.is_pending(id));
        }
        assert forall|id: u64| #[trigger]
            self.inbox.is_archived(id) implies self.store@.contains_key(id) by {
            assert(id != addr);
            assert(pre.inbox.is_archived(id));
        }
        assert forall|id: u64| #[trigger]
            self.store@.contains_key(id) implies self.inbox.is_pending(id)
                || self.inbox.is_archived(id) by {
            assert(id != addr);
            assert(pre.store@.contains_key(id));
            assert(pre.inbox.is_pending(id) || pre.inbox.is_archived(id));
        }
        assert forall|id: u64| #[trigger]
            self.index.doc_present(id) implies self.inbox.is_pending(id)
                || self.inbox.is_archived(id) by {
            assert(id != addr);
            assert(pre.index.doc_present(id));
        }
        assert forall|id: u64, f: int|
            (self.inbox.is_pending(id) || self.inbox.is_archived(id)) && 0 <= f
                < self.store@[id].fragments.len()
            implies ((#[trigger] self.store@[id].fragments[f]).text matches Some(tx)
                ==> self.index.tokens_at(id, f as usize) == Some(tokenize(tx))) by {
            assert(id != addr);
            assert(self.store@[id] == pre.store@[id]);
            assert(pre.inbox.is_pending(id) || pre.inbox.is_archived(id));
            assert(self.index.tokens_at(id, f as usize) == pre.index.tokens_at(id, f as usize));
        }
    }

    /// Archives a pending document: merges the supplied labels and
    /// properties into its metadata, removes it from the triage queue, and
    /// files it permanently. The bundle and the index postings are retained.
    /// Fails with `NotFound` exactly when `id` is not pending.
    pub fn archive(
        &mut self,
        id: DocId,
        labels: &Vec<String>,
        properties: &Vec<(String, String)>,
    ) -> (r: Result<(), RepoError>)
        requires
            old(self).wf(),
        ensures
            final(self).wf(),
            final(self).store == old(self).store,
            final(self).index == old(self).index,
            match r {
                Ok(()) => {
                    &&& old(self).inbox.is_pending(id.value)
                    &&& final(self).inbox.state_of(id.value) is Archived
                    &&& final(self).inbox.archived_entry(id.value) == (EntryView {
                        doc: id.value,
                        uploaded: old(self).inbox.pending_entry(id.value).uploaded,
                        labels: old(self).inbox.pending_entry(id.value).labels.union(
                            labels.deep_view().to_set(),
                        ),
                        properties: old(self).inbox.pending_entry(id.value).properties
                            .union_prefer_right(
                            crate::metadata::props_map(properties.deep_view()),
                        ),
                    })
                },
                Err(e) => {
                    &&& e == RepoError::NotFound
                    &&& !old(self).inbox.is_pending(id.value)
                    &&& *final(self) == *old(self)
                },
            },
            forall|d: u64|
                d != id.value ==> final(self).inbox.state_of(d) == old(self).inbox.state_of(d),
    {
        let ghost pre = *self;
        match self.inbox.archive(id, labels, properties) {
            Ok(()) => {
                proof {
                    self.lemma_archive_wf(pre, id.value);
                }
                Ok(())
            },
            Err(e) => Err(e),
        }
    }

    proof fn lemma_archive_wf(&self, pre: Repository, addr: u64)
        requires
            pre.wf(),
            self.inbox.wf(),
            self.store == pre.store,
            self.index == pre.index,
            pre.inbox.is_pending(addr),
            self.inbox.state_of(addr) is Archived,
            forall|d: u64| d != addr ==> self.inbox.state_of(d) == pre.inbox.state_of(d),
        ensures
            self.wf(),
    {
        assert forall|d: u64| d != addr
            implies (self.inbox.is_pending(d) == pre.inbox.is_pending(d))
                && (self.inbox.is_archived(d) == pre.inbox.is_archived(d)) by {
            assert(self.inbox.state_of(d) == pre.inbox.state_of(d));
            crate::inbox::lemma_state_exclusivity(self.inbox, d);
            crate::inbox::lemma_state_exclusivity(pre.inbox, d);
        }
        crate::inbox::lemma_state_exclusivity(self.inbox, addr);
        assert forall|id: u64| #[trigger]
            self.inbox.is_pending(id) implies self.store@.contains_key(id) by {
            assert(id != addr);
            assert(pre.inbox.is_pending(id));
        }
        assert forall|id: u64| #[trigger]
            self.inbox.is_archived(id) implies self.store@.contains_key(id) by {
            if id != addr {
                assert(pre.inbox.is_archived(id));
            } else {
                assert(pre.inbox.is_pending(addr));
            }
        }
        assert forall|id: u64| #[trigger]
            self.store@.contains_key(id) implies self.inbox.is_pending(id)
                || self.inbox.is_archived(id) by {
            assert(pre.store@.contains_key(id));
            assert(pre.inbox.is_pending(id) || pre.inbox.is_archived(id));
            if id != addr {
            } else {
                assert(self.inbox.is_archived(addr));
            }
        }
        assert forall|id: u64| #[trigger]
            self.index.doc_present(id) implies self.inbox.is_pending(id)
                || self.inbox.is_archived(id) by {
            assert(pre.index.doc_present(id));
            assert(pre.inbox.is_pending(id) || pre.inbox.is_archived(id));
            if id == addr {
                assert(self.inbox.is_archived(addr));
            }
        }
        assert forall|id: u64, f: int|
            (self.inbox.is_pending(id) || self.inbox.is_archived(id)) && 0 <= f
                < self.store@[id].fragments.len()
            implies ((#[trigger] self.store@[id].fragments[f]).text matches Some(tx)
                ==> self.index.tokens_at(id, f as usize) == Some(tokenize(tx))) by {
            if id != addr {
                assert(pre.inbox.is_pending(id) || pre.inbox.is_archived(id));
            } else {
                assert(pre.inbox.is_pending(addr));
            }
        }
    }
}

/// Law: a document that is not pending never stands in the triage queue.
/// Together with `ingest`'s guarantee that a failed ingestion leaves the
/// repository unchanged, a document whose ingestion failed is never visible
/// in `list`.
pub proof fn lemma_absent_from_queue(repo: Repository, d: u64)
    requires
        repo.wf(),
        !(repo.inbox.state_of(d) is Pending),
    ensures
        forall|k: int|
            0 <= k < repo.inbox.pending_seq().len()
                ==> (#[trigger] repo.inbox.pending_seq()[k]).doc != d,
{
    crate::inbox::lemma_pending_queue(repo.inbox, d);
    crate::inbox::lemma_state_exclusivity(repo.inbox, d);
}

/// Law: deletion is permanent — while the repository is well-formed, a
/// deleted document has no bundle to retrieve and no postings to find, and
/// it is in no other lifecycle state.
pub proof fn lemma_deleted_stays_gone(repo: Repository, id: u64)
    requires
        repo.wf(),
        repo.inbox.state_of(id) is Deleted,
    ensures
        !repo.store@.contains_key(id),
        !repo.index.doc_present(id),
        !repo.inbox.is_pending(id),
        !repo.inbox.is_archived(id),
{
    crate::inbox::lemma_state_exclusivity(repo.inbox, id);
}

} // verus!
