//! Behavior of ingestion, lookup and the transaction boundary.

use simple_milli::db::Database;
use simple_milli::errors::DbError;
use simple_milli::fields::FieldDict;
use simple_milli::store::DocStore;
use simple_milli::value::{Document, FieldValue, Record};

fn rec(id: u64, name: &str) -> Record {
    Record {
        fields: vec![
            (b"id".to_vec(), FieldValue::Data(id.to_string().into_bytes())),
            (b"name".to_vec(), FieldValue::Text(name.as_bytes().to_vec())),
        ],
    }
}

fn name_of(record: &Record) -> Vec<u8> {
    for (n, v) in &record.fields {
        if n.as_slice() == b"name" {
            match v {
                FieldValue::Text(t) => return t.clone(),
                FieldValue::Data(d) => return d.clone(),
            }
        }
    }
    panic!("record has no name field");
}

#[test]
fn insert_and_search_prefix_returns_all_in_order() {
    let mut db = Database::new();
    let batch = vec![
        (100u64, rec(100, "Document 1")),
        (101u64, rec(101, "Document 2")),
        (102u64, rec(102, "Document 3")),
    ];
    let results = db.add_documents(&batch);
    assert_eq!(results.len(), 3);
    assert_eq!(results[0], Ok(0));
    assert_eq!(results[1], Ok(1));
    assert_eq!(results[2], Ok(2));
    let hits = db.search(&b"Doc".to_vec(), 10);
    assert_eq!(hits.len(), 3);
    assert_eq!(hits[0].0, 0);
    assert_eq!(hits[1].0, 1);
    assert_eq!(hits[2].0, 2);
    assert_eq!(name_of(&hits[0].1), b"Document 1".to_vec());
    assert_eq!(name_of(&hits[1].1), b"Document 2".to_vec());
    assert_eq!(name_of(&hits[2].1), b"Document 3".to_vec());
}

#[test]
fn duplicate_external_id_fails_and_keeps_first_payload() {
    let mut db = Database::new();
    assert_eq!(db.add_document(100, &rec(100, "first payload")), Ok(0));
    let second = db.add_document(100, &rec(100, "second payload"));
    assert_eq!(second, Err(DbError::DuplicateExternalId));
    let kept = db.get_document_by_external_id(100).expect("first payload must remain");
    assert_eq!(name_of(&kept), b"first payload".to_vec());
    assert!(db.get_document_by_internal_id(1).is_none());
}

#[test]
fn search_with_no_matching_token_is_empty() {
    let mut db = Database::new();
    db.add_documents(&vec![
        (100u64, rec(100, "Document 1")),
        (101u64, rec(101, "Document 2")),
        (102u64, rec(102, "Document 3")),
    ]);
    let hits = db.search(&b"zzz".to_vec(), 10);
    assert!(hits.is_empty());
}

#[test]
fn unknown_internal_id_is_absent_not_an_error() {
    let mut db = Database::new();
    db.add_document(7, &rec(7, "only one")).unwrap();
    assert!(db.get_document_by_internal_id(1).is_none());
    assert!(db.get_document_by_internal_id(941).is_none());
    assert!(db.get_document_by_external_id(941).is_none());
}

#[test]
fn round_trip_returns_the_inserted_record() {
    let mut db = Database::new();
    let original = Record {
        fields: vec![
            (b"id".to_vec(), FieldValue::Data(b"42".to_vec())),
            (b"title".to_vec(), FieldValue::Text(b"On Documents".to_vec())),
            (b"raw".to_vec(), FieldValue::Data(vec![0, 159, 146, 150])),
        ],
    };
    db.add_document(42, &original).unwrap();
    let back = db.get_document_by_external_id(42).unwrap();
    assert_eq!(back.fields.len(), original.fields.len());
    for (got, want) in back.fields.iter().zip(original.fields.iter()) {
        assert_eq!(got.0, want.0);
        match (&got.1, &want.1) {
            (FieldValue::Text(a), FieldValue::Text(b)) => assert_eq!(a, b),
            (FieldValue::Data(a), FieldValue::Data(b)) => assert_eq!(a, b),
            _ => panic!("field value kind changed"),
        }
    }
}

#[test]
fn batch_reports_one_result_per_record() {
    let mut db = Database::new();
    let batch = vec![
        (5u64, rec(5, "alpha")),
        (5u64, rec(5, "beta")),
        (6u64, rec(6, "gamma")),
    ];
    let results = db.add_documents(&batch);
    assert_eq!(results.len(), 3);
    assert_eq!(results[0], Ok(0));
    assert_eq!(results[1], Err(DbError::DuplicateExternalId));
    assert_eq!(results[2], Ok(1));
    assert_eq!(name_of(&db.get_document_by_external_id(5).unwrap()), b"alpha".to_vec());
    assert_eq!(name_of(&db.get_document_by_external_id(6).unwrap()), b"gamma".to_vec());
}

#[test]
fn read_snapshot_ignores_later_commits() {
    let mut db = Database::new();
    db.add_document(1, &rec(1, "early document")).unwrap();
    let snapshot = db.begin_read();
    db.add_document(2, &rec(2, "late document")).unwrap();
    // The snapshot predates the second commit and never observes it.
    assert!(snapshot.get_document_by_external_id(2).is_none());
    assert_eq!(snapshot.search(&b"document".to_vec(), 10).len(), 1);
    // The database itself sees both.
    assert!(db.get_document_by_external_id(2).is_some());
    assert_eq!(db.search(&b"document".to_vec(), 10).len(), 2);
}

#[test]
fn empty_record_round_trips() {
    let mut db = Database::new();
    db.add_document(9, &Record { fields: vec![] }).unwrap();
    let back = db.get_document_by_external_id(9).unwrap();
    assert!(back.fields.is_empty());
}

#[test]
fn get_many_omits_missing_ids() {
    let mut docs = DocStore::new();
    docs.append(Document { fields: vec![(0, FieldValue::Text(b"zero".to_vec()))] });
    docs.append(Document { fields: vec![(0, FieldValue::Text(b"one".to_vec()))] });
    let found = docs.get_many(&vec![1, 5, 0]);
    assert_eq!(found.len(), 2);
    assert_eq!(found[0].0, 1);
    assert_eq!(found[1].0, 0);
    assert!(docs.get_one(2).is_none());
    assert!(docs.get_one(0).is_some());
}

#[test]
fn field_dictionary_allocates_stable_ids() {
    let mut dict = FieldDict::new();
    let a = dict.id_for(&b"title".to_vec());
    let b = dict.id_for(&b"body".to_vec());
    let a_again = dict.id_for(&b"title".to_vec());
    assert_eq!(a, 0);
    assert_eq!(b, 1);
    assert_eq!(a_again, a);
    assert_eq!(dict.name_for(0).unwrap(), &b"title".to_vec());
    assert_eq!(dict.name_for(1).unwrap(), &b"body".to_vec());
    assert_eq!(dict.name_for(2), Err(DbError::UnknownFieldId));
}
