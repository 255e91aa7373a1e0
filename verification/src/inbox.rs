//! The inbox workflow: a state machine per document identifier. A document
//! is created `Pending` at upload completion, and leaves the inbox through
//! exactly one of two terminal transitions — `archive`, which files it with
//! merged labels and properties, or `delete`, which retires the identifier
//! for good.

use vstd::prelude::*;
use crate::errors::RepoError;
use crate::ids::DocId;
use crate::metadata::{merge_labels, merge_properties, props_map, unique_keys, unique_seq};

verus! {

/// The lifecycle state of a document identifier.
pub enum DocState {
    /// The identifier was never used.
    Fresh,
    /// The document awaits triage in the inbox.
    Pending,
    /// The document was filed permanently; its bundle is retained.
    Archived,
    /// The document was removed; the identifier is never reused.
    Deleted,
}

/// A document awaiting triage, or the metadata of a filed document: upload
/// timestamp, labels (a set), and properties (a map, keys unique).
pub struct InboxEntry {
    pub doc: u64,
    pub uploaded: u64,
    pub labels: Vec<String>,
    pub properties: Vec<(String, String)>,
}

/// The mathematical model of an inbox entry.
pub ghost struct EntryView {
    pub doc: u64,
    pub uploaded: u64,
    pub labels: Set<Seq<char>>,
    pub properties: Map<Seq<char>, Seq<char>>,
}

impl InboxEntry {
    /// Labels hold no duplicates; property keys are unique.
    pub open spec fn wf(&self) -> bool {
        unique_seq(self.labels.deep_view()) && unique_keys(self.properties.deep_view())
    }
}

impl View for InboxEntry {
    type V = EntryView;

    open spec fn view(&self) -> EntryView {
        EntryView {
            doc: self.doc,
            uploaded: self.uploaded,
            labels: self.labels.deep_view().to_set(),
            properties: props_map(self.properties.deep_view()),
        }
    }
}

/// The inbox workflow state: pending entries in upload order, the metadata
/// of archived documents, and the identifiers retired by deletion.
pub struct Inbox {
    pending: Vec<InboxEntry>,
    archived: Vec<InboxEntry>,
    deleted: Vec<u64>,
}

impl Inbox {
    /// The pending entries, oldest upload first.
    pub closed spec fn pending_seq(&self) -> Seq<EntryView> {
        self.pending@.map_values(|e: InboxEntry| e@)
    }

    /// Whether `id` is pending.
    pub closed spec fn is_pending(&self, id: u64) -> bool {
        exists|i: int| 0 <= i < self.pending@.len() && self.pending@[i].doc == id
    }

    /// Whether `id` is archived.
    pub closed spec fn is_archived(&self, id: u64) -> bool {
        exists|i: int| 0 <= i < self.archived@.len() && self.archived@[i].doc == id
    }

    /// Whether `id` was deleted.
    pub closed spec fn is_deleted(&self, id: u64) -> bool {
        self.deleted@.contains(id)
    }

    /// The lifecycle state of `id`. Under `wf` the three record sets are
    /// disjoint, so each identifier is in exactly one state.
    pub open spec fn state_of(&self, id: u64) -> DocState {
        if self.is_pending(id) {
            DocState::Pending
        } else if self.is_archived(id) {
            DocState::Archived
        } else if self.is_deleted(id) {
            DocState::Deleted
        } else {
            DocState::Fresh
        }
    }

    spec fn pending_index_of(&self, id: u64) -> int {
        choose|i: int| 0 <= i < self.pending@.len() && self.pending@[i].doc == id
    }

    spec fn archived_index_of(&self, id: u64) -> int {
        choose|i: int| 0 <= i < self.archived@.len() && self.archived@[i].doc == id
    }

    /// The model of the pending entry for `id`.
    pub closed spec fn pending_entry(&self, id: u64) -> EntryView {
        self.pending@[self.pending_index_of(id)]@
    }

    /// The model of the archived metadata for `id`.
    pub closed spec fn archived_entry(&self, id: u64) -> EntryView {
        self.archived@[self.archived_index_of(id)]@
    }

    /// Whether `t` is no earlier than every pending upload timestamp, so an
    /// entry uploaded at `t` may be appended to the triage queue.
    pub closed spec fn clock_le(&self, t: u64) -> bool {
        forall|i: int| 0 <= i < self.pending@.len() ==> self.pending@[i].uploaded <= t
    }

    /// Well-formedness: identifiers are unique within each record set, the
    /// sets are pairwise disjoint, pending entries are sorted by upload
    /// timestamp, and every entry's metadata is well-formed.
    pub closed spec fn wf(&self) -> bool {
        &&& forall|i: int, j: int|
            0 <= i < j < self.pending@.len() ==> self.pending@[i].doc != self.pending@[j].doc
        &&& forall|i: int, j: int|
            0 <= i < j < self.archived@.len() ==> self.archived@[i].doc != self.archived@[j].doc
        &&& forall|i: int, j: int|
            0 <= i < j < self.deleted@.len() ==> self.deleted@[i] != self.deleted@[j]
        &&& forall|i: int| 0 <= i < self.pending@.len()
            ==> !self.is_archived(#[trigger] self.pending@[i].doc)
                && !self.is_deleted(self.pending@[i].doc)
        &&& forall|i: int| 0 <= i < self.archived@.len()
            ==> !self.is_deleted(#[trigger] self.archived@[i].doc)
        &&& forall|i: int, j: int|
            0 <= i <= j < self.pending@.len() ==> self.pending@[i].uploaded
                <= self.pending@[j].uploaded
        &&& forall|i: int| 0 <= i < self.pending@.len() ==> (#[trigger] self.pending@[i]).wf()
        &&& forall|i: int| 0 <= i < self.archived@.len() ==> (#[trigger] self.archived@[i]).wf()
    }

    proof fn lemma_pending_found(&self, id: u64, i: int)
        requires
            self.wf(),
            0 <= i < self.pending@.len(),
            self.pending@[i].doc == id,
        ensures
            self.pending_index_of(id) == i,
            self.is_pending(id),
            self.pending_entry(id) == self.pending@[i]@,
    {
        assert(self.is_pending(id));
        let j = self.pending_index_of(id);
        if i < j {
            assert(self.pending@[i].doc != self.pending@[j].doc);
        } else if j < i {
            assert(self.pending@[j].doc != self.pending@[i].doc);
        }
    }

    proof fn lemma_archived_found(&self, id: u64, i: int)
        requires
            self.wf(),
            0 <= i < self.archived@.len(),
            self.archived@[i].doc == id,
        ensures
            self.archived_index_of(id) == i,
            self.is_archived(id),
            self.archived_entry(id) == self.archived@[i]@,
    {
        assert(self.is_archived(id));
        let j = self.archived_index_of(id);
        if i < j {
            assert(self.archived@[i].doc != self.archived@[j].doc);
        } else if j < i {
            assert(self.archived@[j].doc != self.archived@[i].doc);
        }
    }

    /// A fresh, empty inbox.
    pub fn new() -> (s: Self)
        ensures
            s.wf(),
            s.pending_seq() == Seq::<EntryView>::empty(),
            forall|id: u64| s.state_of(id) is Fresh,
            forall|id: u64| !s.is_pending(id) && !s.is_archived(id) && !s.is_deleted(id),
    {
        let s = Inbox { pending: Vec::new(), archived: Vec::new(), deleted: Vec::new() };
        proof {
            assert(s.pending_seq() =~= Seq::<EntryView>::empty());
        }
        s
    }

    fn find_pending(&self, id: u64) -> (r: Option<usize>)
        ensures
            match r {
                Some(i) => 0 <= i < self.pending@.len() && self.pending@[i as int].doc == id,
                None => !self.is_pending(id),
            },
    {
        let mut i: usize = 0;
        while i < self.pending.len()
            invariant
                0 <= i <= self.pending@.len(),
                forall|j: int| 0 <= j < i ==> self.pending@[j].doc != id,
            decreases self.pending@.len() - i,
        {
            if self.pending[i].doc == id {
                return Some(i);
            }
            i = i + 1;
        }
        None
    }

    fn find_archived(&self, id: u64) -> (r: Option<usize>)
        ensures
            match r {
                Some(i) => 0 <= i < self.archived@.len() && self.archived@[i as int].doc == id,
                None => !self.is_archived(id),
            },
    {
        let mut i: usize = 0;
        while i < self.archived.len()
            invariant
                0 <= i <= self.archived@.len(),
                forall|j: int| 0 <= j < i ==> self.archived@[j].doc != id,
            decreases self.archived@.len() - i,
        {
            if self.archived[i].doc == id {
                return Some(i);
            }
            i = i + 1;
        }
        None
    }

    /// Whether `t` may serve as the next upload timestamp: it must not
    /// precede any timestamp already queued.
    pub fn clock_ok(&self, t: u64) -> (r: bool)
        ensures
            r == self.clock_le(t),
    {
        let mut i: usize = 0;
        while i < self.pending.len()
            invariant
                0 <= i <= self.pending@.len(),
                forall|j: int| 0 <= j < i ==> self.pending@[j].uploaded <= t,
            decreases self.pending@.len() - i,
        {
            if self.pending[i].uploaded > t {
                return false;
            }
            i = i + 1;
        }
        true
    }

    /// Whether `id` was deleted earlier: such an identifier is retired and
    /// never reused.
    pub fn was_deleted(&self, id: DocId) -> (r: bool)
        ensures
            r == self.is_deleted(id.value),
    {
        let mut i: usize = 0;
        while i < self.deleted.len()
            invariant
                0 <= i <= self.deleted@.len(),
                forall|j: int| 0 <= j < i ==> self.deleted@[j] != id.value,
            decreases self.deleted@.len() - i,
        {
            if self.deleted[i] == id.value {
                proof {
                    assert(self.deleted@[i as int] == id.value);
                }
                return true;
            }
            i = i + 1;
        }
        proof {
            if self.is_deleted(id.value) {
                let j = choose|j: int|
                    0 <= j < self.deleted@.len() && self.deleted@[j] == id.value;
            }
        }
        false
    }

    /// Records a newly ingested document as pending, with empty metadata.
    /// The caller supplies the upload timestamp, which may not precede those
    /// already queued, keeping the triage queue sorted oldest-first.
    pub fn create_pending(&mut self, id: DocId, uploaded: u64)
        requires
            old(self).wf(),
            old(self).state_of(id.value) is Fresh,
            old(self).clock_le(uploaded),
        ensures
            final(self).wf(),
            final(self).pending_seq() == old(self).pending_seq().push(
                EntryView {
                    doc: id.value,
                    uploaded,
                    labels: Set::<Seq<char>>::empty(),
                    properties: Map::<Seq<char>, Seq<char>>::empty(),
                },
            ),
            final(self).state_of(id.value) is Pending,
            forall|d: u64| d != id.value ==> final(self).state_of(d) == old(self).state_of(d),
            forall|d: u64| d != id.value && old(self).is_pending(d)
                ==> final(self).pending_entry(d) == old(self).pending_entry(d),
            forall|d: u64| old(self).is_archived(d)
                ==> final(self).archived_entry(d) == old(self).archived_entry(d),
    {
        let entry = InboxEntry {
            doc: id.value,
            uploaded,
            labels: Vec::new(),
            properties: Vec::new(),
        };
        proof {
            assert(entry@.labels =~= Set::<Seq<char>>::empty()) by {
                assert(entry.labels.deep_view() =~= Seq::<Seq<char>>::empty());
                if exists|x: Seq<char>| entry.labels.deep_view().to_set().contains(x) {
                    let x = choose|x: Seq<char>| entry.labels.deep_view().to_set().contains(x);
                    assert(entry.labels.deep_view().contains(x));
                }
            }
            assert(entry@.properties =~= Map::<Seq<char>, Seq<char>>::empty()) by {
                assert(entry.properties.deep_view() =~= Seq::<(Seq<char>, Seq<char>)>::empty());
            }
        }
        let ghost pre = *self;
        self.pending.push(entry);
        proof {
            let n = pre.pending@.len() as int;
            assert(self.pending@ =~= pre.pending@.push(entry));
            assert(self.pending_seq() =~= pre.pending_seq().push(entry@));
            assert(self.pending@[n].doc == id.value);
            assert(self.is_pending(id.value));
            assert forall|i: int, j: int|
                0 <= i < j < self.pending@.len()
                implies self.pending@[i].doc != self.pending@[j].doc by {
                if j == n {
                    assert(!pre.is_pending(id.value));
                    assert(pre.pending@[i].doc != id.value);
                }
            }
            assert forall|i: int| 0 <= i < self.pending@.len()
                implies !self.is_archived(#[trigger] self.pending@[i].doc)
                    && !self.is_deleted(self.pending@[i].doc) by {
                if i < n {
                    assert(!pre.is_archived(pre.pending@[i].doc));
                    assert(!pre.is_deleted(pre.pending@[i].doc));
                }
                assert(self.archived@ == pre.archived@);
            }
            assert forall|d: u64| d != id.value
                implies self.state_of(d) == pre.state_of(d) by {
                assert(self.is_pending(d) ==> pre.is_pending(d)) by {
                    if self.is_pending(d) {
                        let i = choose|i: int|
                            0 <= i < self.pending@.len() && self.pending@[i].doc == d;
                        assert(i < n);
                        assert(pre.pending@[i].doc == d);
                    }
                }
                assert(pre.is_pending(d) ==> self.is_pending(d)) by {
                    if pre.is_pending(d) {
                        let i = choose|i: int|
                            0 <= i < pre.pending@.len() && pre.pending@[i].doc == d;
                        assert(self.pending@[i].doc == d);
                    }
                }
            }
            assert forall|d: u64| d != id.value && pre.is_pending(d)
                implies self.pending_entry(d) == pre.pending_entry(d) by {
                let i = choose|i: int| 0 <= i < pre.pending@.len() && pre.pending@[i].doc == d;
                pre.lemma_pending_found(d, i);
                self.lemma_pending_found(d, i);
            }
            assert forall|d: u64| pre.is_archived(d)
                implies self.archived_entry(d) == pre.archived_entry(d) by {
                let i = choose|i: int|
                    0 <= i < pre.archived@.len() && pre.archived@[i].doc == d;
                pre.lemma_archived_found(d, i);
                self.lemma_archived_found(d, i);
            }
        }
    }

    /// The identifiers of all pending documents, ordered by upload timestamp
    /// ascending — the triage queue, oldest first.
    pub fn list(&self) -> (r: Vec<DocId>)
        requires
            self.wf(),
        ensures
            r@.len() == self.pending_seq().len(),
            forall|k: int| 0 <= k < r@.len() ==> r@[k].value == self.pending_seq()[k].doc,
            forall|k1: int, k2: int|
                0 <= k1 <= k2 < r@.len() ==> self.pending_seq()[k1].uploaded
                    <= self.pending_seq()[k2].uploaded,
    {
        let mut r: Vec<DocId> = Vec::new();
        let mut i: usize = 0;
        while i < self.pending.len()
            invariant
                0 <= i <= self.pending@.len(),
                r@.len() == i,
                forall|k: int| 0 <= k < i ==> r@[k].value == self.pending_seq()[k].doc,
            decreases self.pending@.len() - i,
        {
            r.push(DocId { value: self.pending[i].doc });
            i = i + 1;
        }
        r
    }

    /// Retrieves the pending entry for `id`. Fails with `NotFound` exactly
    /// when `id` is not pending.
    pub fn get(&self, id: DocId) -> (r: Result<&InboxEntry, RepoError>)
        requires
            self.wf(),
        ensures
            match r {
                Ok(e) => self.is_pending(id.value) && e@ == self.pending_entry(id.value),
                Err(e) => e == RepoError::NotFound && !self.is_pending(id.value),
            },
    {
        match self.find_pending(id.value) {
            Some(i) => {
                proof {
                    self.lemma_pending_found(id.value, i as int);
                }
                Ok(&self.pending[i])
            },
            None => Err(RepoError::NotFound),
        }
    }

    /// Retrieves the filed metadata of an archived document. Fails with
    /// `NotFound` exactly when `id` is not archived.
    pub fn get_archived(&self, id: DocId) -> (r: Result<&InboxEntry, RepoError>)
        requires
            self.wf(),
        ensures
            match r {
                Ok(e) => self.is_archived(id.value) && e@ == self.archived_entry(id.value),
                Err(e) => e == RepoError::NotFound && !self.is_archived(id.value),
            },
    {
        match self.find_archived(id.value) {
            Some(i) => {
                proof {
                    self.lemma_archived_found(id.value, i as int);
                }
                Ok(&self.archived[i])
            },
            None => Err(RepoError::NotFound),
        }
    }

    proof fn lemma_pending_removed(&self, pre: Inbox, at: int)
        requires
            pre.wf(),
            0 <= at < pre.pending@.len(),
            self.pending@ == pre.pending@.remove(at),
        ensures
            !self.is_pending(pre.pending@[at].doc),
            forall|d: u64| d != pre.pending@[at].doc
                ==> (self.is_pending(d) <==> pre.is_pending(d)),
            forall|d: u64| d != pre.pending@[at].doc && pre.is_pending(d)
                ==> self.pending_index_of(d) < self.pending@.len()
                    && self.pending@[self.pending_index_of(d)]@ == pre.pending_entry(d),
            forall|i: int, j: int|
                0 <= i < j < self.pending@.len() ==> self.pending@[i].doc != self.pending@[j].doc,
            forall|i: int, j: int|
                0 <= i <= j < self.pending@.len() ==> self.pending@[i].uploaded
                    <= self.pending@[j].uploaded,
            forall|i: int| 0 <= i < self.pending@.len() ==> (#[trigger] self.pending@[i]).wf(),
            forall|i: int| 0 <= i < self.pending@.len()
                ==> pre.is_pending(#[trigger] self.pending@[i].doc),
            self.pending_seq() == pre.pending_seq().remove(at),
    {
        let removed = pre.pending@[at].doc;
        let n = self.pending@.len() as int;
        assert forall|i: int| 0 <= i < n implies #[trigger] self.pending@[i]
            == pre.pending@[if i < at { i } else { i + 1 }] by {}
        assert forall|i: int| 0 <= i < n
            implies pre.is_pending(#[trigger] self.pending@[i].doc) by {
            let pi: int = if i < at { i } else { i + 1 };
            assert(pre.pending@[pi].doc == self.pending@[i].doc);
        }
        if self.is_pending(removed) {
            let i = choose|i: int| 0 <= i < n && self.pending@[i].doc == removed;
            let pi: int = if i < at { i } else { i + 1 };
            assert(pre.pending@[pi].doc == pre.pending@[at].doc);
            assert(false);
        }
        assert forall|d: u64| d != removed && pre.is_pending(d) implies self.is_pending(d) by {
            let pi = choose|i: int| 0 <= i < pre.pending@.len() && pre.pending@[i].doc == d;
            assert(pi != at);
            let i: int = if pi < at { pi } else { pi - 1 };
            assert(self.pending@[i].doc == d);
        }
        assert forall|d: u64| d != removed && pre.is_pending(d)
            implies self.pending_index_of(d) < self.pending@.len()
                && self.pending@[self.pending_index_of(d)]@ == pre.pending_entry(d) by {
            let pi = choose|i: int| 0 <= i < pre.pending@.len() && pre.pending@[i].doc == d;
            pre.lemma_pending_found(d, pi);
            assert(pi != at);
            let i: int = if pi < at { pi } else { pi - 1 };
            assert(self.pending@[i].doc == d);
            let j = self.pending_index_of(d);
            assert(0 <= j < n && self.pending@[j].doc == d);
            let pj: int = if j < at { j } else { j + 1 };
            assert(pre.pending@[pj].doc == d);
            if pj < pi {
                assert(pre.pending@[pj].doc != pre.pending@[pi].doc);
            } else if pi < pj {
                assert(pre.pending@[pi].doc != pre.pending@[pj].doc);
            }
            assert(self.pending@[j] == pre.pending@[pi]);
        }
        assert forall|i: int, j: int|
            0 <= i < j < n implies self.pending@[i].doc != self.pending@[j].doc by {
            let pi: int = if i < at { i } else { i + 1 };
            let pj: int = if j < at { j } else { j + 1 };
            assert(pre.pending@[pi].doc != pre.pending@[pj].doc);
        }
        assert forall|i: int, j: int|
            0 <= i <= j < n implies self.pending@[i].uploaded <= self.pending@[j].uploaded by {
            let pi: int = if i < at { i } else { i + 1 };
            let pj: int = if j < at { j } else { j + 1 };
            assert(pre.pending@[pi].uploaded <= pre.pending@[pj].uploaded);
        }
        assert forall|i: int| 0 <= i < n implies (#[trigger] self.pending@[i]).wf() by {
            let pi: int = if i < at { i } else { i + 1 };
            assert(pre.pending@[pi].wf());
        }
        assert(self.pending_seq() =~= pre.pending_seq().remove(at));
    }

    /// Deletes a pending document: the identifier is retired and never
    /// reused. Fails with `NotFound` exactly when `id` is not pending — so a
    /// second delete of the same identifier reports `NotFound`.
    pub fn delete(&mut self, id: DocId) -> (r: Result<(), RepoError>)
        requires
            old(self).wf(),
        ensures
            final(self).wf(),
            match r {
                Ok(()) => {
                    &&& old(self).is_pending(id.value)
                    &&& final(self).state_of(id.value) is Deleted
                    &&& final(self).pending_seq() == old(self).pending_seq().remove(
                        old(self).pending_index_of_pub(id.value),
                    )
                },
                Err(e) => {
                    &&& e == RepoError::NotFound
                    &&& !old(self).is_pending(id.value)
                    &&& *final(self) == *old(self)
                },
            },
            forall|d: u64| d != id.value ==> final(self).state_of(d) == old(self).state_of(d),
            forall|d: u64| d != id.value && old(self).is_pending(d)
                ==> final(self).pending_entry(d) == old(self).pending_entry(d),
            forall|d: u64| old(self).is_archived(d)
                ==> final(self).archived_entry(d) == old(self).archived_entry(d),
    {
        match self.find_pending(id.value) {
            Some(i) => {
                let ghost pre = *self;
                proof {
                    pre.lemma_pending_found(id.value, i as int);
                }
                self.pending.remove(i);
                self.deleted.push(id.value);
                proof {
                    let mid = Inbox {
                        pending: self.pending,
                        archived: pre.archived,
                        deleted: pre.deleted,
                    };
                    mid.lemma_pending_removed(pre, i as int);
                    assert(self.pending@ == mid.pending@);
                    assert(self.deleted@ =~= pre.deleted@.push(id.value));
                    self.lemma_after_delete(pre, mid, id.value, i as int);
                }
                Ok(())
            },
            None => Err(RepoError::NotFound),
        }
    }

    /// The position of the pending entry for `id` in the triage queue.
    pub closed spec fn pending_index_of_pub(&self, id: u64) -> int {
        self.pending_index_of(id)
    }

    proof fn lemma_after_delete(&self, pre: Inbox, mid: Inbox, id: u64, at: int)
        requires
            pre.wf(),
            0 <= at < pre.pending@.len(),
            pre.pending@[at].doc == id,
            mid.pending@ == pre.pending@.remove(at),
            mid.archived@ == pre.archived@,
            mid.deleted@ == pre.deleted@,
            self.pending@ == mid.pending@,
            self.archived@ == pre.archived@,
            self.deleted@ == pre.deleted@.push(id),
        ensures
            self.wf(),
            self.state_of(id) is Deleted,
            self.pending_seq() == pre.pending_seq().remove(at),
            forall|d: u64| d != id ==> self.state_of(d) == pre.state_of(d),
            forall|d: u64| d != id && pre.is_pending(d)
                ==> self.pending_entry(d) == pre.pending_entry(d),
            forall|d: u64| pre.is_archived(d)
                ==> self.archived_entry(d) == pre.archived_entry(d),
    {
        mid.lemma_pending_removed(pre, at);
        assert(self.is_pending(id) == mid.is_pending(id));
        assert(self.is_deleted(id)) by {
            assert(self.deleted@[self.deleted@.len() - 1] == id);
        }
        assert(!pre.is_deleted(id)) by {
            assert(pre.pending@[at].doc == id);
        }
        assert(!self.is_archived(id)) by {
            if self.is_archived(id) {
                let i = choose|i: int|
                    0 <= i < pre.archived@.len() && pre.archived@[i].doc == id;
                assert(!pre.is_archived(pre.pending@[at].doc));
            }
        }
        assert forall|d: u64| self.is_deleted(d) implies pre.is_deleted(d) || d == id by {
            let i = choose|i: int| 0 <= i < self.deleted@.len() && self.deleted@[i] == d;
            if i < pre.deleted@.len() {
                assert(pre.deleted@[i] == d);
            }
        }
        assert forall|d: u64| pre.is_deleted(d) implies self.is_deleted(d) by {
            let i = choose|i: int| 0 <= i < pre.deleted@.len() && pre.deleted@[i] == d;
            assert(self.deleted@[i] == d);
        }
        // wf of the result
        assert forall|i: int, j: int|
            0 <= i < j < self.deleted@.len() implies self.deleted@[i] != self.deleted@[j] by {
            if j == self.deleted@.len() - 1 {
                assert(pre.deleted@[i] != id) by {
                    if pre.deleted@[i] == id {
                        assert(pre.is_deleted(id));
                    }
                }
            } else {
                assert(pre.deleted@[i] != pre.deleted@[j]);
            }
        }
        assert forall|i: int| 0 <= i < self.pending@.len()
            implies !self.is_archived(#[trigger] self.pending@[i].doc)
                && !self.is_deleted(self.pending@[i].doc) by {
            let d = self.pending@[i].doc;
            assert(pre.is_pending(d));
            let pi = choose|p: int| 0 <= p < pre.pending@.len() && pre.pending@[p].doc == d;
            assert(!pre.is_archived(pre.pending@[pi].doc));
            assert(!pre.is_deleted(pre.pending@[pi].doc));
            assert(d != id) by {
                mid.lemma_pending_removed(pre, at);
            }
        }
        assert forall|i: int| 0 <= i < self.archived@.len()
            implies !self.is_deleted(#[trigger] self.archived@[i].doc) by {
            assert(!pre.is_deleted(pre.archived@[i].doc));
            assert(self.archived@[i].doc != id) by {
                if self.archived@[i].doc == id {
                    assert(pre.is_archived(pre.pending@[at].doc));
                }
            }
        }
        // frame for other documents
        assert forall|d: u64| d != id implies self.state_of(d) == pre.state_of(d) by {
            assert(self.is_pending(d) <==> pre.is_pending(d));
            assert(self.is_archived(d) <==> pre.is_archived(d));
            assert(self.is_deleted(d) <==> pre.is_deleted(d) || d == id);
        }
        assert forall|d: u64| pre.is_archived(d)
            implies self.archived_entry(d) == pre.archived_entry(d) by {
            let i = choose|i: int| 0 <= i < pre.archived@.len() && pre.archived@[i].doc == d;
            pre.lemma_archived_found(d, i);
            self.lemma_archived_found(d, i);
        }
        assert forall|d: u64| d != id && pre.is_pending(d)
            implies self.pending_entry(d) == pre.pending_entry(d) by {
            let j = self.pending_index_of(d);
            assert(self.is_pending(d));
            assert(0 <= j < self.pending@.len() && self.pending@[j].doc == d);
        }
    }

    /// Archives a pending document: merges the supplied labels (set union)
    /// and properties (incoming keys override) into the entry's metadata,
    /// removes the entry from the triage queue, and files the metadata.
    /// Fails with `NotFound` exactly when `id` is not pending.
    pub fn archive(
        &mut self,
        id: DocId,
        labels: &Vec<String>,
        properties: &Vec<(String, String)>,
    ) -> (r: Result<(), RepoError>)
        requires
            old(self).wf(),
        ensures
            final(self).wf(),
            match r {
                Ok(()) => {
                    &&& old(self).is_pending(id.value)
                    &&& final(self).state_of(id.value) is Archived
                    &&& final(self).archived_entry(id.value) == (EntryView {
                        doc: id.value,
                        uploaded: old(self).pending_entry(id.value).uploaded,
                        labels: old(self).pending_entry(id.value).labels.union(
                            labels.deep_view().to_set(),
                        ),
                        properties: old(self).pending_entry(id.value).properties
                            .union_prefer_right(props_map(properties.deep_view())),
                    })
                    &&& final(self).pending_seq() == old(self).pending_seq().remove(
                        old(self).pending_index_of_pub(id.value),
                    )
                },
                Err(e) => {
                    &&& e == RepoError::NotFound
                    &&& !old(self).is_pending(id.value)
                    &&& *final(self) == *old(self)
                },
            },
            forall|d: u64| d != id.value ==> final(self).state_of(d) == old(self).state_of(d),
            forall|d: u64| d != id.value && old(self).is_pending(d)
                ==> final(self).pending_entry(d) == old(self).pending_entry(d),
            forall|d: u64| d != id.value && old(self).is_archived(d)
                ==> final(self).archived_entry(d) == old(self).archived_entry(d),
    {
        match self.find_pending(id.value) {
            Some(i) => {
                let ghost pre = *self;
                proof {
                    pre.lemma_pending_found(id.value, i as int);
                    assert(pre.pending@[i as int].wf());
                }
                let mut entry = self.pending.remove(i);
                merge_labels(&mut entry.labels, labels);
                merge_properties(&mut entry.properties, properties);
                let ghost merged = entry;
                self.archived.push(entry);
                proof {
                    let mid = Inbox {
                        pending: self.pending,
                        archived: pre.archived,
                        deleted: pre.deleted,
                    };
                    mid.lemma_pending_removed(pre, i as int);
                    assert(merged@ == EntryView {
                        doc: id.value,
                        uploaded: pre.pending_entry(id.value).uploaded,
                        labels: pre.pending_entry(id.value).labels.union(
                            labels.deep_view().to_set(),
                        ),
                        properties: pre.pending_entry(id.value).properties.union_prefer_right(
                            props_map(properties.deep_view()),
                        ),
                    });
                    self.lemma_after_archive(pre, mid, merged, id.value, i as int);
                }
                Ok(())
            },
            None => Err(RepoError::NotFound),
        }
    }

    proof fn lemma_after_archive(&self, pre: Inbox, mid: Inbox, merged: InboxEntry, id: u64, at: int)
        requires
            pre.wf(),
            0 <= at < pre.pending@.len(),
            pre.pending@[at].doc == id,
            merged.doc == id,
            merged.wf(),
            mid.pending@ == pre.pending@.remove(at),
            mid.archived@ == pre.archived@,
            mid.deleted@ == pre.deleted@,
            self.pending@ == mid.pending@,
            self.archived@ == pre.archived@.push(merged),
            self.deleted@ == pre.deleted@,
        ensures
            self.wf(),
            self.state_of(id) is Archived,
            self.archived_entry(id) == merged@,
            self.pending_seq() == pre.pending_seq().remove(at),
            forall|d: u64| d != id ==> self.state_of(d) == pre.state_of(d),
            forall|d: u64| d != id && pre.is_pending(d)
                ==> self.pending_entry(d) == pre.pending_entry(d),
            forall|d: u64| d != id && pre.is_archived(d)
                ==> self.archived_entry(d) == pre.archived_entry(d),
    {
        mid.lemma_pending_removed(pre, at);
        let na = pre.archived@.len() as int;
        assert(self.archived@[na].doc == id);
        assert(self.is_archived(id));
        assert(!pre.is_archived(id)) by {
            assert(!pre.is_archived(pre.pending@[at].doc));
        }
        assert(!self.is_pending(id));
        assert forall|d: u64| self.is_archived(d) implies pre.is_archived(d) || d == id by {
            let i = choose|i: int| 0 <= i < self.archived@.len() && self.archived@[i].doc == d;
            if i < na {
                assert(pre.archived@[i].doc == d);
            }
        }
        assert forall|d: u64| pre.is_archived(d) implies self.is_archived(d) by {
            let i = choose|i: int| 0 <= i < pre.archived@.len() && pre.archived@[i].doc == d;
            assert(self.archived@[i].doc == d);
        }
        // wf of the result
        assert forall|i: int, j: int|
            0 <= i < j < self.archived@.len()
            implies self.archived@[i].doc != self.archived@[j].doc by {
            if j == na {
                assert(pre.archived@[i].doc != id) by {
                    if pre.archived@[i].doc == id {
                        assert(pre.is_archived(id));
                    }
                }
            } else {
                assert(pre.archived@[i].doc != pre.archived@[j].doc);
            }
        }
        assert forall|i: int| 0 <= i < self.pending@.len()
            implies !self.is_archived(#[trigger] self.pending@[i].doc)
                && !self.is_deleted(self.pending@[i].doc) by {
            let d = self.pending@[i].doc;
            assert(pre.is_pending(d));
            let pi = choose|p: int| 0 <= p < pre.pending@.len() && pre.pending@[p].doc == d;
            assert(!pre.is_archived(pre.pending@[pi].doc));
            assert(!pre.is_deleted(pre.pending@[pi].doc));
            assert(d != id);
        }
        assert forall|i: int| 0 <= i < self.archived@.len()
            implies !self.is_deleted(#[trigger] self.archived@[i].doc) by {
            if i < na {
                assert(!pre.is_deleted(pre.archived@[i].doc));
            } else {
                assert(self.archived@[i].doc == id);
                assert(!pre.is_deleted(pre.pending@[at].doc));
            }
        }
        assert forall|i: int| 0 <= i < self.archived@.len()
            implies (#[trigger] self.archived@[i]).wf() by {
            if i < na {
                assert(pre.archived@[i].wf());
            }
        }
        self.lemma_archived_found(id, na);
        // frame for other documents
        assert forall|d: u64| d != id implies self.state_of(d) == pre.state_of(d) by {
            assert(self.is_pending(d) <==> pre.is_pending(d));
            assert(self.is_archived(d) <==> pre.is_archived(d));
        }
        assert forall|d: u64| d != id && pre.is_archived(d)
            implies self.archived_entry(d) == pre.archived_entry(d) by {
            let i = choose|i: int| 0 <= i < pre.archived@.len() && pre.archived@[i].doc == d;
            pre.lemma_archived_found(d, i);
            self.lemma_archived_found(d, i);
        }
        assert forall|d: u64| d != id && pre.is_pending(d)
            implies self.pending_entry(d) == pre.pending_entry(d) by {
            let j = self.pending_index_of(d);
            assert(self.is_pending(d));
            assert(0 <= j < self.pending@.len() && self.pending@[j].doc == d);
        }
    }
}

/// Law: the triage queue holds exactly the pending documents, each once — a
/// document is pending if and only if its identifier stands somewhere in
/// `pending_seq`, and no identifier stands there twice.
pub proof fn lemma_pending_queue(inbox: Inbox, d: u64)
    requires
        inbox.wf(),
    ensures
        inbox.is_pending(d) <==> exists|k: int|
            0 <= k < inbox.pending_seq().len() && inbox.pending_seq()[k].doc == d,
        forall|k1: int, k2: int|
            0 <= k1 < k2 < inbox.pending_seq().len() ==> inbox.pending_seq()[k1].doc
                != inbox.pending_seq()[k2].doc,
{
    assert forall|k: int| 0 <= k < inbox.pending_seq().len()
        implies #[trigger] inbox.pending_seq()[k].doc == inbox.pending@[k].doc by {}
    if inbox.is_pending(d) {
        let i = choose|i: int| 0 <= i < inbox.pending@.len() && inbox.pending@[i].doc == d;
        assert(inbox.pending_seq()[i].doc == d);
    }
    if exists|k: int| 0 <= k < inbox.pending_seq().len() && inbox.pending_seq()[k].doc == d {
        let k = choose|k: int|
            0 <= k < inbox.pending_seq().len() && inbox.pending_seq()[k].doc == d;
        assert(inbox.pending@[k].doc == d);
    }
}

/// Law: under well-formedness every document identifier is in exactly one of
/// the four lifecycle states — pending, archived, deleted, or never used.
pub proof fn lemma_state_exclusivity(inbox: Inbox, id: u64)
    requires
        inbox.wf(),
    ensures
        inbox.state_of(id) is Pending <==> inbox.is_pending(id),
        inbox.state_of(id) is Archived <==> inbox.is_archived(id),
        inbox.state_of(id) is Deleted <==> inbox.is_deleted(id),
        inbox.state_of(id) is Fresh <==> !inbox.is_pending(id) && !inbox.is_archived(id)
            && !inbox.is_deleted(id),
        !(inbox.is_pending(id) && inbox.is_archived(id)),
        !(inbox.is_pending(id) && inbox.is_deleted(id)),
        !(inbox.is_archived(id) && inbox.is_deleted(id)),
{
    if inbox.is_pending(id) {
        let i = choose|i: int|
            0 <= i < inbox.pending@.len() && inbox.pending@[i].doc == id;
        assert(!inbox.is_archived(inbox.pending@[i].doc));
        assert(!inbox.is_deleted(inbox.pending@[i].doc));
    }
    if inbox.is_archived(id) {
        let i = choose|i: int|
            0 <= i < inbox.archived@.len() && inbox.archived@[i].doc == id;
        assert(!inbox.is_deleted(inbox.archived@[i].doc));
    }
}

} // verus!
