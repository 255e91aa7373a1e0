use docrepo::errors::RepoError;
use docrepo::ids::DocId;

#[test]
fn to_text_renders_sixteen_lowercase_hex_digits() {
    let id = DocId { value: 0xdeadbeef };
    assert_eq!(id.to_text(), "00000000deadbeef");
    let zero = DocId { value: 0 };
    assert_eq!(zero.to_text(), "0000000000000000");
    let max = DocId { value: u64::MAX };
    assert_eq!(max.to_text(), "ffffffffffffffff");
}

#[test]
fn parse_reads_exact_values() {
    let id = DocId::parse("0000000000000010").unwrap();
    assert_eq!(id.value, 16);
    let id = DocId::parse("00000000deadbeef").unwrap();
    assert_eq!(id.value, 0xdeadbeef);
}

#[test]
fn parse_is_the_inverse_of_to_text() {
    for value in [0u64, 1, 16, 255, 0xdeadbeef, u64::MAX, 0x0123456789abcdef] {
        let id = DocId { value };
        let text = id.to_text();
        assert_eq!(text.len(), 16);
        let back = DocId::parse(&text).unwrap();
        assert_eq!(back.value, value);
    }
}

#[test]
fn parse_rejects_malformed_identifiers() {
    assert_eq!(DocId::parse(""), Err(RepoError::InvalidIdentifier));
    assert_eq!(DocId::parse("123"), Err(RepoError::InvalidIdentifier));
    assert_eq!(DocId::parse("00000000DEADBEEF"), Err(RepoError::InvalidIdentifier));
    assert_eq!(DocId::parse("000000000000001g"), Err(RepoError::InvalidIdentifier));
    assert_eq!(DocId::parse("00000000000000100"), Err(RepoError::InvalidIdentifier));
    assert_eq!(DocId::parse("0000-00000000010"), Err(RepoError::InvalidIdentifier));
}

#[test]
fn error_messages_are_fixed() {
    assert_eq!(RepoError::InvalidIdentifier.describe(), "invalid document identifier");
    assert_eq!(RepoError::NotFound.describe(), "not found");
    assert_eq!(RepoError::OutOfRange.describe(), "fragment index out of range");
    assert_eq!(RepoError::UnsupportedFormat.describe(), "unsupported document format");
}
