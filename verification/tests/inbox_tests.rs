use docrepo::errors::RepoError;
use docrepo::ids::DocId;
use docrepo::inbox::Inbox;
use docrepo::metadata::{merge_labels, merge_properties};

fn labels(items: &[&str]) -> Vec<String> {
    items.iter().map(|s| s.to_string()).collect()
}

fn properties(items: &[(&str, &str)]) -> Vec<(String, String)> {
    items.iter().map(|(k, v)| (k.to_string(), v.to_string())).collect()
}

#[test]
fn list_orders_pending_documents_by_upload_time() {
    let mut inbox = Inbox::new();
    inbox.create_pending(DocId { value: 30 }, 100);
    inbox.create_pending(DocId { value: 10 }, 200);
    inbox.create_pending(DocId { value: 20 }, 300);
    let listed: Vec<u64> = inbox.list().iter().map(|d| d.value).collect();
    assert_eq!(listed, vec![30, 10, 20]);
}

#[test]
fn get_returns_the_pending_entry() {
    let mut inbox = Inbox::new();
    inbox.create_pending(DocId { value: 1 }, 42);
    let entry = inbox.get(DocId { value: 1 }).unwrap();
    assert_eq!(entry.doc, 1);
    assert_eq!(entry.uploaded, 42);
    assert!(entry.labels.is_empty());
    assert!(entry.properties.is_empty());
    assert_eq!(inbox.get(DocId { value: 2 }).err(), Some(RepoError::NotFound));
}

#[test]
fn delete_is_terminal_and_a_second_delete_reports_not_found() {
    let mut inbox = Inbox::new();
    inbox.create_pending(DocId { value: 1 }, 1);
    assert_eq!(inbox.delete(DocId { value: 1 }), Ok(()));
    assert_eq!(inbox.delete(DocId { value: 1 }), Err(RepoError::NotFound));
    assert_eq!(inbox.get(DocId { value: 1 }).err(), Some(RepoError::NotFound));
    assert!(inbox.was_deleted(DocId { value: 1 }));
    assert_eq!(inbox.list().len(), 0);
}

#[test]
fn archive_merges_metadata_and_leaves_the_pending_state() {
    let mut inbox = Inbox::new();
    inbox.create_pending(DocId { value: 5 }, 7);
    let r = inbox.archive(
        DocId { value: 5 },
        &labels(&["tax", "tax", "2023"]),
        &properties(&[("year", "2022"), ("year", "2023")]),
    );
    assert_eq!(r, Ok(()));
    assert_eq!(inbox.get(DocId { value: 5 }).err(), Some(RepoError::NotFound));
    let filed = inbox.get_archived(DocId { value: 5 }).unwrap();
    assert_eq!(filed.uploaded, 7);
    let mut filed_labels = filed.labels.clone();
    filed_labels.sort();
    assert_eq!(filed_labels, labels(&["2023", "tax"]));
    // within one call the last value for a key wins
    assert_eq!(filed.properties, properties(&[("year", "2023")]));
    // archive is terminal: the document is no longer pending
    assert_eq!(
        inbox.archive(DocId { value: 5 }, &labels(&["more"]), &properties(&[])),
        Err(RepoError::NotFound)
    );
}

#[test]
fn merging_twice_accumulates_labels_and_overrides_properties() {
    // first merge: {a} and {k: 1}; second merge: {b} and {k: 2}
    let mut merged_labels = Vec::new();
    merge_labels(&mut merged_labels, &labels(&["a"]));
    merge_labels(&mut merged_labels, &labels(&["b"]));
    let mut sorted = merged_labels.clone();
    sorted.sort();
    assert_eq!(sorted, labels(&["a", "b"]));

    let mut merged_props = Vec::new();
    merge_properties(&mut merged_props, &properties(&[("k", "1")]));
    merge_properties(&mut merged_props, &properties(&[("k", "2")]));
    assert_eq!(merged_props, properties(&[("k", "2")]));
}

#[test]
fn merging_existing_labels_does_not_duplicate_them() {
    let mut existing = labels(&["a", "b"]);
    merge_labels(&mut existing, &labels(&["b", "c"]));
    let mut sorted = existing.clone();
    sorted.sort();
    assert_eq!(sorted, labels(&["a", "b", "c"]));
}

#[test]
fn clock_ok_accepts_only_non_decreasing_timestamps() {
    let mut inbox = Inbox::new();
    assert!(inbox.clock_ok(0));
    inbox.create_pending(DocId { value: 1 }, 50);
    assert!(inbox.clock_ok(50));
    assert!(inbox.clock_ok(51));
    assert!(!inbox.clock_ok(49));
}
