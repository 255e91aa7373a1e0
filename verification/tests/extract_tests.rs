use docrepo::errors::RepoError;
use docrepo::extract::extract;

#[test]
fn rejects_bytes_without_the_document_magic() {
    assert_eq!(extract(&b"nope".to_vec()).err(), Some(RepoError::UnsupportedFormat));
    assert_eq!(extract(&Vec::new()).err(), Some(RepoError::UnsupportedFormat));
    assert_eq!(extract(&b"%DO".to_vec()).err(), Some(RepoError::UnsupportedFormat));
    assert_eq!(extract(&b"DOC%x".to_vec()).err(), Some(RepoError::UnsupportedFormat));
}

#[test]
fn splits_pages_in_document_order() {
    let raw = b"%DOCalpha\x0cbeta".to_vec();
    let frags = extract(&raw).unwrap();
    assert_eq!(frags.len(), 2);
    assert_eq!(frags[0].content, b"alpha".to_vec());
    assert_eq!(frags[0].text, Some(b"alpha".to_vec()));
    assert_eq!(frags[1].content, b"beta".to_vec());
    assert_eq!(frags[1].text, Some(b"beta".to_vec()));
}

#[test]
fn a_binary_page_carries_no_text_without_failing_the_call() {
    let raw = b"%DOCreadable\x0c\x00\x01\x02\x0ctail".to_vec();
    let frags = extract(&raw).unwrap();
    assert_eq!(frags.len(), 3);
    assert_eq!(frags[0].text, Some(b"readable".to_vec()));
    assert_eq!(frags[1].text, None);
    assert_eq!(frags[1].content, b"\x00\x01\x02".to_vec());
    assert_eq!(frags[2].text, Some(b"tail".to_vec()));
}

#[test]
fn an_empty_body_is_one_empty_page() {
    let frags = extract(&b"%DOC".to_vec()).unwrap();
    assert_eq!(frags.len(), 1);
    assert_eq!(frags[0].content, Vec::<u8>::new());
    assert_eq!(frags[0].text, Some(Vec::new()));
}
