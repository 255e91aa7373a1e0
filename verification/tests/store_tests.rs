use docrepo::errors::RepoError;
use docrepo::store::{BundleStore, Fragment};

fn frag(content: &[u8], text: Option<&[u8]>) -> Fragment {
    Fragment { content: content.to_vec(), text: text.map(|t| t.to_vec()) }
}

#[test]
fn content_addressing_deduplicates() {
    let mut store = BundleStore::new();
    let id1 = store.put_bundle(b"same bytes".to_vec(), vec![frag(b"same bytes", None)]);
    assert_eq!(store.bundle_count(), 1);
    let id2 = store.put_bundle(b"same bytes".to_vec(), vec![frag(b"same bytes", None)]);
    assert_eq!(id1, id2);
    assert_eq!(store.bundle_count(), 1);
    let id3 = store.put_bundle(b"other bytes".to_vec(), vec![]);
    assert_ne!(id1, id3);
    assert_eq!(store.bundle_count(), 2);
}

#[test]
fn stored_content_is_immutable_until_deleted() {
    let mut store = BundleStore::new();
    let id = store.put_bundle(b"original".to_vec(), vec![]);
    assert_eq!(store.get_bundle(id).unwrap().content, b"original".to_vec());
    // a second put with the same address changes nothing
    store.put_bundle(b"original".to_vec(), vec![frag(b"ignored", None)]);
    assert_eq!(store.get_bundle(id).unwrap().content, b"original".to_vec());
    assert_eq!(store.get_bundle(id).unwrap().fragments.len(), 0);
    store.delete_bundle(id);
    assert_eq!(store.get_bundle(id).err(), Some(RepoError::NotFound));
}

#[test]
fn get_fragment_distinguishes_not_found_and_out_of_range() {
    let mut store = BundleStore::new();
    let absent = store.put_bundle(b"x".to_vec(), vec![]);
    store.delete_bundle(absent);
    assert_eq!(store.get_fragment(absent, 0).err(), Some(RepoError::NotFound));

    let id = store.put_bundle(
        b"doc".to_vec(),
        vec![frag(b"page one", Some(b"page one")), frag(b"\x00\x01", None)],
    );
    let f0 = store.get_fragment(id, 0).unwrap();
    assert_eq!(f0.content, b"page one".to_vec());
    assert_eq!(f0.text, Some(b"page one".to_vec()));
    let f1 = store.get_fragment(id, 1).unwrap();
    assert_eq!(f1.text, None);
    assert_eq!(store.get_fragment(id, 2).err(), Some(RepoError::OutOfRange));
}

#[test]
fn delete_is_idempotent() {
    let mut store = BundleStore::new();
    let id = store.put_bundle(b"bytes".to_vec(), vec![]);
    store.delete_bundle(id);
    store.delete_bundle(id);
    assert_eq!(store.bundle_count(), 0);
    assert_eq!(store.get_bundle(id).err(), Some(RepoError::NotFound));
}
