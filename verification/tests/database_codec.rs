//! Tests of the database type and its document codec: the exact document
//! shape, the round trip, and malformed documents.

use retropkg::database::{Database, PackageRecord};
use retropkg::errors::PkgError;
use retropkg::jsondb::{parse_db, serialize_db};

fn rec(name: &str, version: &str, raw: &str) -> PackageRecord {
    PackageRecord {
        name: name.as_bytes().to_vec(),
        version: version.as_bytes().to_vec(),
        raw_manifest: raw.as_bytes().to_vec(),
    }
}

#[test]
fn empty_database_document_shape() {
    let db = Database::new();
    let out = serialize_db(&db);
    assert_eq!(out, b"{\"packages\":{}}".to_vec());
}

#[test]
fn one_record_document_shape() {
    let mut db = Database::new();
    db.upsert(rec("foo", "1.0", "m"));
    let out = serialize_db(&db);
    assert_eq!(
        out,
        b"{\"packages\":{\"foo\":{\"version\":\"1.0\",\"manifest\":\"m\"}}}".to_vec()
    );
}

#[test]
fn newlines_and_quotes_are_escaped() {
    let mut db = Database::new();
    db.upsert(rec("q", "1", "a\nb\"c\\d\te\rf"));
    let out = serialize_db(&db);
    let text = String::from_utf8(out.clone()).unwrap();
    assert_eq!(
        text,
        "{\"packages\":{\"q\":{\"version\":\"1\",\"manifest\":\"a\\nb\\\"c\\\\d\\te\\rf\"}}}"
    );
    let back = parse_db(&out).unwrap();
    let listed = back.list();
    assert_eq!(listed.len(), 1);
    assert_eq!(listed[0].0, b"q".to_vec());
}

#[test]
fn round_trip_preserves_every_record() {
    let mut db = Database::new();
    db.upsert(rec("alpha", "0.1", "[package]\nname = \"alpha\"\nversion = \"0.1\"\n"));
    db.upsert(rec("beta", "2.7", "[package]\nname = \"beta\"\nversion = \"2.7\"\n"));
    let out = serialize_db(&db);
    let back = parse_db(&out).unwrap();
    let listed = back.list();
    assert_eq!(listed.len(), 2);
    assert_eq!(listed[0].0, b"alpha".to_vec());
    assert_eq!(listed[0].1, b"0.1".to_vec());
    assert_eq!(listed[1].0, b"beta".to_vec());
    assert_eq!(listed[1].1, b"2.7".to_vec());
}

#[test]
fn truncated_document_is_a_parse_error() {
    let good = b"{\"packages\":{\"foo\":{\"version\":\"1\",\"manifest\":\"m\"}}}";
    for cut in 1..good.len() {
        assert!(
            matches!(parse_db(&good[..cut]), Err(PkgError::ParseError)),
            "prefix of length {} parsed",
            cut
        );
    }
}

#[test]
fn trailing_garbage_is_a_parse_error() {
    let mut doc = b"{\"packages\":{}}".to_vec();
    doc.push(b' ');
    assert!(matches!(parse_db(&doc), Err(PkgError::ParseError)));
}

#[test]
fn duplicate_names_in_a_document_are_a_parse_error() {
    let doc = b"{\"packages\":{\"d\":{\"version\":\"1\",\"manifest\":\"m\"},\"d\":{\"version\":\"2\",\"manifest\":\"m\"}}}";
    assert!(matches!(parse_db(doc), Err(PkgError::ParseError)));
}

#[test]
fn bad_escape_is_a_parse_error() {
    let doc = b"{\"packages\":{\"e\":{\"version\":\"1\",\"manifest\":\"\\x\"}}}";
    assert!(matches!(parse_db(doc), Err(PkgError::ParseError)));
}

#[test]
fn database_remove_is_exact() {
    let mut db = Database::new();
    db.upsert(rec("a", "1", "m"));
    db.upsert(rec("b", "2", "m"));
    assert!(db.remove(b"a").is_ok());
    assert!(matches!(db.remove(b"a"), Err(PkgError::NotFoundError)));
    let listed = db.list();
    assert_eq!(listed.len(), 1);
    assert_eq!(listed[0].0, b"b".to_vec());
}

#[test]
fn database_upsert_replaces_in_place() {
    let mut db = Database::new();
    db.upsert(rec("a", "1", "m"));
    db.upsert(rec("b", "2", "m"));
    db.upsert(rec("a", "9", "m2"));
    let listed = db.list();
    assert_eq!(listed.len(), 2);
    assert_eq!(listed[0].0, b"a".to_vec());
    assert_eq!(listed[0].1, b"9".to_vec());
    assert_eq!(listed[1].0, b"b".to_vec());
}
