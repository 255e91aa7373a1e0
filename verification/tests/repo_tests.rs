use docrepo::errors::RepoError;
use docrepo::repo::Repository;

fn labels(items: &[&str]) -> Vec<String> {
    items.iter().map(|s| s.to_string()).collect()
}

fn properties(items: &[(&str, &str)]) -> Vec<(String, String)> {
    items.iter().map(|(k, v)| (k.to_string(), v.to_string())).collect()
}

#[test]
fn end_to_end_upload_triage_and_retrieval() {
    let mut repo = Repository::new();
    let raw = b"%DOCalpha\x0cbeta".to_vec();
    let x = repo.ingest(raw.clone(), 1).unwrap();

    let listed: Vec<u64> = repo.list().iter().map(|d| d.value).collect();
    assert!(listed.contains(&x.value));

    let found: Vec<u64> = repo.search(&b"alpha".to_vec()).iter().map(|d| d.value).collect();
    assert!(found.contains(&x.value));
    let found: Vec<u64> = repo.search(&b"beta".to_vec()).iter().map(|d| d.value).collect();
    assert!(found.contains(&x.value));

    let r = repo.archive(x, &labels(&["tax"]), &properties(&[("year", "2023")]));
    assert_eq!(r, Ok(()));

    // no longer pending, but the content is retained
    assert_eq!(repo.get_entry(x).err(), Some(RepoError::NotFound));
    let bundle = repo.get_bundle(x).unwrap();
    assert_eq!(bundle.content, raw);
    assert_eq!(bundle.fragments.len(), 2);
    assert_eq!(bundle.fragments[0].text, Some(b"alpha".to_vec()));

    let filed = repo.get_archived(x).unwrap();
    assert_eq!(filed.labels, labels(&["tax"]));
    assert_eq!(filed.properties, properties(&[("year", "2023")]));
}

#[test]
fn failed_ingestion_is_never_visible() {
    let mut repo = Repository::new();
    repo.ingest(b"%DOCfirst".to_vec(), 1).unwrap();
    let before = repo.list().len();
    assert_eq!(
        repo.ingest(b"not a document".to_vec(), 2).err(),
        Some(RepoError::UnsupportedFormat)
    );
    assert_eq!(repo.list().len(), before);
    assert_eq!(repo.search(&b"document".to_vec()).len(), 0);
}

#[test]
fn identical_content_ingests_to_the_same_identifier_once() {
    let mut repo = Repository::new();
    let a = repo.ingest(b"%DOCsame".to_vec(), 1).unwrap();
    let b = repo.ingest(b"%DOCsame".to_vec(), 2).unwrap();
    assert_eq!(a, b);
    assert_eq!(repo.list().len(), 1);
}

#[test]
fn delete_cascades_and_retires_the_identifier() {
    let mut repo = Repository::new();
    let x = repo.ingest(b"%DOCshred me".to_vec(), 1).unwrap();
    assert_eq!(repo.delete(x), Ok(()));
    // a second delete reports not found; nothing is corrupted
    assert_eq!(repo.delete(x), Err(RepoError::NotFound));
    assert_eq!(repo.get_bundle(x).err(), Some(RepoError::NotFound));
    assert_eq!(repo.get_entry(x).err(), Some(RepoError::NotFound));
    assert_eq!(repo.search(&b"shred".to_vec()).len(), 0);
    // the identifier is never reused: the same content cannot come back
    assert_eq!(repo.ingest(b"%DOCshred me".to_vec(), 2).err(), Some(RepoError::NotFound));
}

#[test]
fn archived_content_ingests_as_a_no_op() {
    let mut repo = Repository::new();
    let x = repo.ingest(b"%DOCkeep".to_vec(), 1).unwrap();
    repo.archive(x, &labels(&["kept"]), &properties(&[])).unwrap();
    let again = repo.ingest(b"%DOCkeep".to_vec(), 2).unwrap();
    assert_eq!(x, again);
    assert_eq!(repo.list().len(), 0);
    assert!(repo.get_archived(x).is_ok());
}

#[test]
fn archive_of_a_missing_document_reports_not_found() {
    let mut repo = Repository::new();
    let x = repo.ingest(b"%DOConly one".to_vec(), 1).unwrap();
    repo.delete(x).unwrap();
    assert_eq!(
        repo.archive(x, &labels(&["late"]), &properties(&[])),
        Err(RepoError::NotFound)
    );
}

#[test]
fn fragment_retrieval_reports_out_of_range_past_the_page_count() {
    let mut repo = Repository::new();
    let x = repo.ingest(b"%DOCone\x0ctwo".to_vec(), 1).unwrap();
    assert_eq!(repo.get_fragment(x, 0).unwrap().content, b"one".to_vec());
    assert_eq!(repo.get_fragment(x, 1).unwrap().content, b"two".to_vec());
    assert_eq!(repo.get_fragment(x, 2).err(), Some(RepoError::OutOfRange));
}

#[test]
fn identifiers_round_trip_through_their_text_form() {
    let mut repo = Repository::new();
    let x = repo.ingest(b"%DOCaddressable".to_vec(), 1).unwrap();
    let text = x.to_text();
    assert_eq!(text.len(), 16);
    let back = docrepo::ids::DocId::parse(&text).unwrap();
    assert_eq!(back, x);
    assert!(repo.get_bundle(back).is_ok());
}

#[test]
fn search_ranks_across_documents_in_the_repository() {
    let mut repo = Repository::new();
    let once = repo.ingest(b"%DOCreport for a meeting".to_vec(), 1).unwrap();
    let thrice = repo.ingest(b"%DOCreport\x0creport report".to_vec(), 2).unwrap();
    let found: Vec<u64> = repo.search(&b"report".to_vec()).iter().map(|d| d.value).collect();
    assert_eq!(found.len(), 2);
    assert_eq!(found[0], thrice.value);
    assert_eq!(found[1], once.value);
}
