//! The content-addressed bundle store: immutable document bundles and their
//! fragments, addressed by the FNV-1a hash of the bundle's raw content.
//!
//! The store's model is a map from address to bundle. A bundle, once stored,
//! is never overwritten: re-submitting content whose address is already
//! present leaves the store unchanged, which gives deduplication and lets
//! clients rely on retrieval being stable until deletion.

use vstd::prelude::*;
use crate::content::{compute_address, content_address};
use crate::errors::RepoError;
use crate::ids::DocId;

verus! {

/// One addressable sub-unit of a bundle (for example one page): its raw
/// content and, when text extraction succeeded, the extracted text.
pub struct Fragment {
    pub content: Vec<u8>,
    pub text: Option<Vec<u8>>,
}

/// The mathematical model of a fragment.
pub ghost struct FragmentView {
    pub content: Seq<u8>,
    pub text: Option<Seq<u8>>,
}

impl View for Fragment {
    type V = FragmentView;

    open spec fn view(&self) -> FragmentView {
        FragmentView {
            content: self.content@,
            text: match self.text {
                Some(t) => Some(t@),
                None => None,
            },
        }
    }
}

/// The immutable unit of stored document data: the raw uploaded content and
/// the ordered fragment sequence fixed at ingestion time.
pub struct Bundle {
    pub content: Vec<u8>,
    pub fragments: Vec<Fragment>,
}

/// The mathematical model of a bundle.
pub ghost struct BundleView {
    pub content: Seq<u8>,
    pub fragments: Seq<FragmentView>,
}

impl View for Bundle {
    type V = BundleView;

    open spec fn view(&self) -> BundleView {
        BundleView {
            content: self.content@,
            fragments: self.fragments@.map_values(|f: Fragment| f@),
        }
    }
}

struct StoredBundle {
    id: u64,
    bundle: Bundle,
}

/// Content-addressed storage for immutable bundles, modelled as a map from
/// 64-bit content address to bundle.
pub struct BundleStore {
    records: Vec<StoredBundle>,
}

impl View for BundleStore {
    type V = Map<u64, BundleView>;

    closed spec fn view(&self) -> Map<u64, BundleView> {
        Map::new(
            |id: u64| self.spec_has(id),
            |id: u64| self.records@[self.spec_index_of(id)].bundle@,
        )
    }
}

impl BundleStore {
    /// Whether a bundle with address `id` is stored.
    pub closed spec fn spec_has(&self, id: u64) -> bool {
        exists|i: int| 0 <= i < self.records@.len() && self.records@[i].id == id
    }

    spec fn spec_index_of(&self, id: u64) -> int {
        choose|i: int| 0 <= i < self.records@.len() && self.records@[i].id == id
    }

    /// The number of stored bundles.
    pub closed spec fn spec_count(&self) -> nat {
        self.records@.len()
    }

    /// Well-formedness: addresses are unique, and every record is stored
    /// under the content address of its own bytes.
    pub closed spec fn wf(&self) -> bool {
        &&& forall|i: int, j: int|
            0 <= i < j < self.records@.len() ==> self.records@[i].id != self.records@[j].id
        &&& forall|i: int|
            0 <= i < self.records@.len() ==> #[trigger] self.records@[i].id == content_address(
                self.records@[i].bundle.content@,
            )
    }

    proof fn lemma_found(&self, id: u64, i: int)
        requires
            self.wf(),
            0 <= i < self.records@.len(),
            self.records@[i].id == id,
        ensures
            self.spec_index_of(id) == i,
            self@.contains_key(id),
            self@[id] == self.records@[i].bundle@,
    {
        assert(self.spec_has(id));
        let j = self.spec_index_of(id);
        assert(0 <= j < self.records@.len() && self.records@[j].id == id);
        if i < j {
            assert(self.records@[i].id != self.records@[j].id);
        } else if j < i {
            assert(self.records@[j].id != self.records@[i].id);
        }
    }

    /// A fresh, empty store.
    pub fn new() -> (s: Self)
        ensures
            s.wf(),
            s@ == Map::<u64, BundleView>::empty(),
            s.spec_count() == 0,
    {
        let s = BundleStore { records: Vec::new() };
        proof {
            assert(s@ =~= Map::<u64, BundleView>::empty());
        }
        s
    }

    fn find(&self, id: u64) -> (r: Option<usize>)
        ensures
            match r {
                Some(i) => 0 <= i < self.records@.len() && self.records@[i as int].id == id,
                None => !self.spec_has(id),
            },
    {
        let mut i: usize = 0;
        while i < self.records.len()
            invariant
                0 <= i <= self.records@.len(),
                forall|j: int| 0 <= j < i ==> self.records@[j].id != id,
            decreases self.records@.len() - i,
        {
            if self.records[i].id == id {
                return Some(i);
            }
            i = i + 1;
        }
        None
    }

    /// The number of bundles currently stored.
    pub fn bundle_count(&self) -> (r: usize)
        ensures
            r == self.spec_count(),
    {
        self.records.len()
    }

    /// Stores a bundle under the content address of `content`, unless a
    /// bundle with that address is already present, and returns the
    /// resulting document identifier. Idempotent: re-submitting identical
    /// content returns the same identifier and leaves the store unchanged.
    pub fn put_bundle(&mut self, content: Vec<u8>, fragments: Vec<Fragment>) -> (r: DocId)
        requires
            old(self).wf(),
        ensures
            final(self).wf(),
            r.value == content_address(content@),
            final(self)@ == spec_put(
                old(self)@,
                content@,
                fragments@.map_values(|f: Fragment| f@),
            ),
            old(self)@.contains_key(r.value) ==> final(self).spec_count()
                == old(self).spec_count(),
            !old(self)@.contains_key(r.value) ==> final(self).spec_count()
                == old(self).spec_count() + 1,
    {
        let id = compute_address(&content);
        match self.find(id) {
            Some(i) => {
                proof {
                    self.lemma_found(id, i as int);
                }
                DocId { value: id }
            },
            None => {
                let ghost pre = *self;
                self.records.push(StoredBundle { id, bundle: Bundle { content, fragments } });
                proof {
                    self.lemma_push_view(pre);
                }
                DocId { value: id }
            },
        }
    }

    proof fn lemma_push_view(&self, pre: BundleStore)
        requires
            pre.wf(),
            self.records@.len() == pre.records@.len() + 1,
            self.records@ == pre.records@.push(self.records@.last()),
            !pre.spec_has(self.records@.last().id),
            self.records@.last().id == content_address(self.records@.last().bundle.content@),
        ensures
            self.wf(),
            self@ == pre@.insert(self.records@.last().id, self.records@.last().bundle@),
    {
        let rec = self.records@.last();
        let n = pre.records@.len() as int;
        assert forall|i: int, j: int|
            0 <= i < j < self.records@.len() implies self.records@[i].id != self.records@[j].id by {
            if j < n {
                assert(pre.records@[i].id != pre.records@[j].id);
            } else {
                assert(self.records@[i] == pre.records@[i]);
                assert(!pre.spec_has(rec.id));
                assert(pre.records@[i].id != rec.id);
            }
        }
        assert forall|i: int|
            0 <= i < self.records@.len() implies #[trigger] self.records@[i].id
            == content_address(self.records@[i].bundle.content@) by {
            if i < n {
                assert(self.records@[i] == pre.records@[i]);
            }
        }
        assert(self@ =~= pre@.insert(rec.id, rec.bundle@)) by {
            assert forall|k: u64| #[trigger] self@.contains_key(k) implies pre@.insert(
                rec.id,
                rec.bundle@,
            ).contains_key(k) by {
                let i = choose|i: int|
                    0 <= i < self.records@.len() && self.records@[i].id == k;
                if i < n {
                    assert(pre.records@[i].id == k);
                    assert(pre.spec_has(k));
                }
            }
            assert forall|k: u64| #[trigger] pre@.insert(rec.id, rec.bundle@).contains_key(k)
                implies self@.contains_key(k) by {
                if k == rec.id {
                    assert(self.records@[n].id == k);
                    assert(self.spec_has(k));
                } else {
                    let i = choose|i: int|
                        0 <= i < pre.records@.len() && pre.records@[i].id == k;
                    assert(self.records@[i].id == k);
                    assert(self.spec_has(k));
                }
            }
            assert forall|k: u64| self@.contains_key(k) implies #[trigger] self@[k] == pre@.insert(
                rec.id,
                rec.bundle@,
            )[k] by {
                let i = choose|i: int|
                    0 <= i < self.records@.len() && self.records@[i].id == k;
                self.lemma_found(k, i);
                if k == rec.id {
                    if i < n {
                        assert(pre.records@[i].id == rec.id);
                        assert(pre.spec_has(rec.id));
                        assert(false);
                    }
                    assert(self@[k] == rec.bundle@);
                } else {
                    assert(i < n);
                    assert(pre.records@[i].id == k);
                    pre.lemma_found(k, i);
                }
            }
        }
    }

    /// Retrieves the bundle stored under `id`. Fails with `NotFound` exactly
    /// when no bundle with that address exists.
    pub fn get_bundle(&self, id: DocId) -> (r: Result<&Bundle, RepoError>)
        requires
            self.wf(),
        ensures
            match r {
                Ok(b) => self@.contains_key(id.value) && b@ == self@[id.value],
                Err(e) => e == RepoError::NotFound && !self@.contains_key(id.value),
            },
    {
        match self.find(id.value) {
            Some(i) => {
                proof {
                    self.lemma_found(id.value, i as int);
                }
                Ok(&self.records[i].bundle)
            },
            None => Err(RepoError::NotFound),
        }
    }

    /// Retrieves one fragment of the bundle stored under `id`. Fails with
    /// `NotFound` when no such bundle exists, and with `OutOfRange` when the
    /// bundle exists but `index` is not below its fragment count.
    pub fn get_fragment(&self, id: DocId, index: usize) -> (r: Result<&Fragment, RepoError>)
        requires
            self.wf(),
        ensures
            match r {
                Ok(f) => {
                    &&& self@.contains_key(id.value)
                    &&& (index as int) < self@[id.value].fragments.len()
                    &&& f@ == self@[id.value].fragments[index as int]
                },
                Err(e) => {
                    &&& (e == RepoError::NotFound || e == RepoError::OutOfRange)
                    &&& (e == RepoError::NotFound <==> !self@.contains_key(id.value))
                    &&& (e == RepoError::OutOfRange <==> self@.contains_key(id.value)
                        && index as int >= self@[id.value].fragments.len())
                },
            },
    {
        match self.find(id.value) {
            Some(i) => {
                proof {
                    self.lemma_found(id.value, i as int);
                }
                let b = &self.records[i].bundle;
                if index < b.fragments.len() {
                    Ok(&b.fragments[index])
                } else {
                    Err(RepoError::OutOfRange)
                }
            },
            None => Err(RepoError::NotFound),
        }
    }

    /// Removes the bundle stored under `id` together with all its fragments.
    /// Succeeds whether or not such a bundle exists, which makes deletion
    /// idempotent.
    pub fn delete_bundle(&mut self, id: DocId)
        requires
            old(self).wf(),
        ensures
            final(self).wf(),
            final(self)@ == old(self)@.remove(id.value),
            !final(self)@.contains_key(id.value),
    {
        match self.find(id.value) {
            Some(i) => {
                let ghost pre = *self;
                self.records.remove(i);
                proof {
                    self.lemma_remove_view(pre, i as int);
                    assert(self@ =~= pre@.remove(id.value));
                }
            },
            None => {
                proof {
                    assert(self@ =~= self@.remove(id.value));
                }
            },
        }
    }

    proof fn lemma_remove_view(&self, pre: BundleStore, at: int)
        requires
            pre.wf(),
            0 <= at < pre.records@.len(),
            self.records@ == pre.records@.remove(at),
        ensures
            self.wf(),
            self@ =~= pre@.remove(pre.records@[at].id),
    {
        let removed = pre.records@[at].id;
        let n = self.records@.len() as int;
        assert forall|i: int| 0 <= i < n implies #[trigger] self.records@[i]
            == pre.records@[if i < at { i } else { i + 1 }] by {}
        assert forall|i: int, j: int|
            0 <= i < j < n implies self.records@[i].id != self.records@[j].id by {
            let pi: int = if i < at { i } else { i + 1 };
            let pj: int = if j < at { j } else { j + 1 };
            assert(pre.records@[pi].id != pre.records@[pj].id);
        }
        assert forall|i: int| 0 <= i < n implies #[trigger] self.records@[i].id
            == content_address(self.records@[i].bundle.content@) by {
            let pi: int = if i < at { i } else { i + 1 };
            assert(pre.records@[pi].id == content_address(pre.records@[pi].bundle.content@));
        }
        assert forall|k: u64| #[trigger] self@.contains_key(k) implies pre@.remove(
            removed,
        ).contains_key(k) by {
            let i = choose|i: int| 0 <= i < n && self.records@[i].id == k;
            let pi: int = if i < at { i } else { i + 1 };
            assert(pre.records@[pi].id == k);
            assert(pre.spec_has(k));
            if k == removed {
                assert(pre.records@[at].id == pre.records@[pi].id);
                assert(at == pi);
                assert(false);
            }
        }
        assert forall|k: u64| #[trigger] pre@.remove(removed).contains_key(k)
            implies self@.contains_key(k) by {
            let pi = choose|i: int| 0 <= i < pre.records@.len() && pre.records@[i].id == k;
            assert(pi != at);
            let i: int = if pi < at { pi } else { pi - 1 };
            assert(self.records@[i].id == k);
            assert(self.spec_has(k));
        }
        assert forall|k: u64| self@.contains_key(k) implies #[trigger] self@[k] == pre@.remove(
            removed,
        )[k] by {
            let i = choose|i: int| 0 <= i < n && self.records@[i].id == k;
            self.lemma_found(k, i);
            let pi: int = if i < at { i } else { i + 1 };
            assert(pre.records@[pi].id == k);
            pre.lemma_found(k, pi);
        }
    }
}

/// The model of `put_bundle`: insert under the content address, unless that
/// address is already taken, in which case nothing changes.
pub open spec fn spec_put(
    m: Map<u64, BundleView>,
    content: Seq<u8>,
    fragments: Seq<FragmentView>,
) -> Map<u64, BundleView> {
    if m.contains_key(content_address(content)) {
        m
    } else {
        m.insert(content_address(content), BundleView { content, fragments })
    }
}

/// Law: storing content whose address is already present changes nothing —
/// identical content is deduplicated and storage does not grow.
pub proof fn lemma_put_deduplicates(
    m: Map<u64, BundleView>,
    content: Seq<u8>,
    fragments: Seq<FragmentView>,
)
    requires
        m.contains_key(content_address(content)),
    ensures
        spec_put(m, content, fragments) == m,
{
}

/// Law: a stored bundle is immutable — `put_bundle` never changes the bundle
/// held under an existing address, whatever content is submitted.
pub proof fn lemma_immutability(
    m: Map<u64, BundleView>,
    id: u64,
    content: Seq<u8>,
    fragments: Seq<FragmentView>,
)
    requires
        m.contains_key(id),
    ensures
        spec_put(m, content, fragments).contains_key(id),
        spec_put(m, content, fragments)[id] == m[id],
{
}

} // verus!
