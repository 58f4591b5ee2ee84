//! Behavior of tokenization, ranking and the result cap.

use simple_milli::db::Database;
use simple_milli::tokenize::{is_prefix, tokenize};
use simple_milli::value::{FieldValue, Record};

fn text_rec(text: &str) -> Record {
    Record { fields: vec![(b"text".to_vec(), FieldValue::Text(text.as_bytes().to_vec()))] }
}

#[test]
fn tokenizer_lowercases_and_splits_on_non_alphanumerics() {
    let toks = tokenize(&b"Hello, World-42!".to_vec());
    assert_eq!(toks, vec![b"hello".to_vec(), b"world".to_vec(), b"42".to_vec()]);
    assert!(tokenize(&b"...".to_vec()).is_empty());
    assert!(tokenize(&b"".to_vec()).is_empty());
    assert_eq!(tokenize(&b"ABC".to_vec()), vec![b"abc".to_vec()]);
}

#[test]
fn prefix_test_matches_starts_with() {
    assert!(is_prefix(&b"doc".to_vec(), &b"document".to_vec()));
    assert!(is_prefix(&b"".to_vec(), &b"anything".to_vec()));
    assert!(!is_prefix(&b"docs".to_vec(), &b"doc".to_vec()));
    assert!(!is_prefix(&b"cat".to_vec(), &b"car".to_vec()));
}

#[test]
fn search_matches_are_case_insensitive_prefixes() {
    let mut db = Database::new();
    db.add_document(1, &text_rec("HELLO there")).unwrap();
    db.add_document(2, &text_rec("unrelated words")).unwrap();
    let hits = db.search(&b"he".to_vec(), 10);
    assert_eq!(hits.len(), 1);
    assert_eq!(hits[0].0, 0);
}

#[test]
fn more_matched_tokens_rank_first_then_lower_ids() {
    let mut db = Database::new();
    db.add_document(1, &text_rec("alpha")).unwrap();
    db.add_document(2, &text_rec("alpha beta")).unwrap();
    db.add_document(3, &text_rec("beta alpha")).unwrap();
    db.add_document(4, &text_rec("gamma")).unwrap();
    let hits = db.search(&b"alpha beta".to_vec(), 10);
    let ids: Vec<u32> = hits.iter().map(|h| h.0).collect();
    // Both tokens matched by documents 1 and 2; one token by document 0;
    // ties resolve to the lower internal id.
    assert_eq!(ids, vec![1, 2, 0]);
}

#[test]
fn search_never_exceeds_the_limit() {
    let mut db = Database::new();
    for i in 0..5u64 {
        db.add_document(i, &text_rec("shared token")).unwrap();
    }
    let hits = db.search(&b"shared".to_vec(), 2);
    assert_eq!(hits.len(), 2);
    assert_eq!(hits[0].0, 0);
    assert_eq!(hits[1].0, 1);
    assert_eq!(db.search(&b"shared".to_vec(), 0).len(), 0);
    assert_eq!(db.search(&b"shared".to_vec(), 100).len(), 5);
}

#[test]
fn repeated_searches_return_identical_results() {
    let mut db = Database::new();
    db.add_document(1, &text_rec("alpha beta gamma")).unwrap();
    db.add_document(2, &text_rec("beta gamma delta")).unwrap();
    db.add_document(3, &text_rec("gamma delta epsilon")).unwrap();
    let first = db.search(&b"gamma delta".to_vec(), 10);
    let second = db.search(&b"gamma delta".to_vec(), 10);
    assert_eq!(first.len(), second.len());
    for (a, b) in first.iter().zip(second.iter()) {
        assert_eq!(a.0, b.0);
        assert_eq!(a.1.fields.len(), b.1.fields.len());
    }
}

#[test]
fn repeated_query_tokens_count_once() {
    let mut db = Database::new();
    db.add_document(1, &text_rec("alpha")).unwrap();
    db.add_document(2, &text_rec("alpha beta")).unwrap();
    let hits = db.search(&b"alpha alpha alpha".to_vec(), 10);
    // Repeating a token must not outweigh a second distinct token.
    let ids: Vec<u32> = hits.iter().map(|h| h.0).collect();
    assert_eq!(ids, vec![0, 1]);
}

#[test]
fn opaque_data_fields_are_not_indexed() {
    let mut db = Database::new();
    let record = Record {
        fields: vec![(b"payload".to_vec(), FieldValue::Data(b"secretword".to_vec()))],
    };
    db.add_document(1, &record).unwrap();
    assert!(db.search(&b"secretword".to_vec(), 10).is_empty());
}

#[test]
fn empty_query_returns_nothing() {
    let mut db = Database::new();
    db.add_document(1, &text_rec("anything at all")).unwrap();
    assert!(db.search(&b"".to_vec(), 10).is_empty());
    assert!(db.search(&b"!!!".to_vec(), 10).is_empty());
}

#[test]
fn tokens_in_any_textual_field_are_searchable() {
    let mut db = Database::new();
    let record = Record {
        fields: vec![
            (b"title".to_vec(), FieldValue::Text(b"quiet morning".to_vec())),
            (b"body".to_vec(), FieldValue::Text(b"loud evening".to_vec())),
        ],
    };
    db.add_document(1, &record).unwrap();
    assert_eq!(db.search(&b"quiet".to_vec(), 10).len(), 1);
    assert_eq!(db.search(&b"evening".to_vec(), 10).len(), 1);
}
