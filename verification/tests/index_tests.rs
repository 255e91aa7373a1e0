use docrepo::ids::DocId;
use docrepo::indexer::SearchIndex;

fn ids(found: &[DocId]) -> Vec<u64> {
    found.iter().map(|d| d.value).collect()
}

#[test]
fn search_recall_matches_all_query_tokens() {
    let mut index = SearchIndex::new();
    let doc = DocId { value: 7 };
    index.index_fragment(doc, 0, &b"invoice march".to_vec());
    assert_eq!(ids(&index.search(&b"invoice".to_vec())), vec![7]);
    assert_eq!(ids(&index.search(&b"march".to_vec())), vec![7]);
    assert_eq!(ids(&index.search(&b"invoice march".to_vec())), vec![7]);
    assert_eq!(ids(&index.search(&b"invoice march april".to_vec())), Vec::<u64>::new());
    assert_eq!(ids(&index.search(&b"april".to_vec())), Vec::<u64>::new());
}

#[test]
fn a_document_appears_once_even_if_many_fragments_match() {
    let mut index = SearchIndex::new();
    let doc = DocId { value: 3 };
    index.index_fragment(doc, 0, &b"ledger entry".to_vec());
    index.index_fragment(doc, 1, &b"ledger closing".to_vec());
    assert_eq!(ids(&index.search(&b"ledger".to_vec())), vec![3]);
}

#[test]
fn results_rank_by_term_frequency_then_ascending_identifier() {
    let mut index = SearchIndex::new();
    index.index_fragment(DocId { value: 9 }, 0, &b"cat".to_vec());
    index.index_fragment(DocId { value: 2 }, 0, &b"cat cat cat".to_vec());
    index.index_fragment(DocId { value: 5 }, 0, &b"cat dog".to_vec());
    // doc 2 scores 3, docs 5 and 9 score 1 and tie-break ascending
    assert_eq!(ids(&index.search(&b"cat".to_vec())), vec![2, 5, 9]);
}

#[test]
fn tokenization_folds_case_and_strips_punctuation() {
    let mut index = SearchIndex::new();
    let doc = DocId { value: 1 };
    index.index_fragment(doc, 0, &b"Invoice, MARCH! (2023)".to_vec());
    assert_eq!(ids(&index.search(&b"invoice".to_vec())), vec![1]);
    assert_eq!(ids(&index.search(&b"InVoIcE".to_vec())), vec![1]);
    assert_eq!(ids(&index.search(&b"march 2023".to_vec())), vec![1]);
    assert_eq!(ids(&index.search(&b"(invoice)".to_vec())), vec![1]);
}

#[test]
fn reindexing_a_fragment_replaces_its_postings() {
    let mut index = SearchIndex::new();
    let doc = DocId { value: 4 };
    index.index_fragment(doc, 0, &b"draft".to_vec());
    assert_eq!(ids(&index.search(&b"draft".to_vec())), vec![4]);
    index.index_fragment(doc, 0, &b"final".to_vec());
    assert_eq!(ids(&index.search(&b"draft".to_vec())), Vec::<u64>::new());
    assert_eq!(ids(&index.search(&b"final".to_vec())), vec![4]);
}

#[test]
fn remove_document_clears_all_postings_and_is_idempotent() {
    let mut index = SearchIndex::new();
    let doc = DocId { value: 6 };
    let other = DocId { value: 8 };
    index.index_fragment(doc, 0, &b"shared words".to_vec());
    index.index_fragment(doc, 1, &b"more words".to_vec());
    index.index_fragment(other, 0, &b"shared tail".to_vec());
    index.remove_document(doc);
    assert_eq!(ids(&index.search(&b"words".to_vec())), Vec::<u64>::new());
    assert_eq!(ids(&index.search(&b"shared".to_vec())), vec![8]);
    index.remove_document(doc);
    assert_eq!(ids(&index.search(&b"shared".to_vec())), vec![8]);
}

#[test]
fn empty_query_matches_every_indexed_document() {
    let mut index = SearchIndex::new();
    index.index_fragment(DocId { value: 11 }, 0, &b"alpha".to_vec());
    index.index_fragment(DocId { value: 10 }, 0, &b"beta".to_vec());
    // all scores are zero, so order is ascending identifier
    assert_eq!(ids(&index.search(&b"".to_vec())), vec![10, 11]);
    assert_eq!(ids(&index.search(&b", . ;".to_vec())), vec![10, 11]);
}
