//! End-to-end tests of the pure operation pipelines: install, remove,
//! list, and the validation-before-effects rule, all over concrete byte inputs.

use retropkg::errors::{PkgError, SchemaField};
use retropkg::ops::{install_update, list_installed, remove_update};

fn manifest(name: &str, version: &str) -> Vec<u8> {
    format!("[package]\nname = \"{}\"\nversion = \"{}\"\n", name, version).into_bytes()
}

#[test]
fn install_records_name_and_version() {
    let m = manifest("foo", "1.0");
    let plan = install_update(Some(&m), None).unwrap();
    assert_eq!(plan.name, b"foo".to_vec());
    assert_eq!(plan.version, b"1.0".to_vec());
    let listed = list_installed(Some(&plan.new_db)).unwrap();
    assert_eq!(listed.len(), 1);
    assert_eq!(listed[0].0, b"foo".to_vec());
    assert_eq!(listed[0].1, b"1.0".to_vec());
}

#[test]
fn install_twice_overwrites_without_conflict() {
    let m1 = manifest("foo", "1.0");
    let m2 = manifest("foo", "2.0");
    let plan1 = install_update(Some(&m1), None).unwrap();
    let plan2 = install_update(Some(&m2), Some(&plan1.new_db)).unwrap();
    let listed = list_installed(Some(&plan2.new_db)).unwrap();
    assert_eq!(listed.len(), 1);
    assert_eq!(listed[0].0, b"foo".to_vec());
    assert_eq!(listed[0].1, b"2.0".to_vec());
}

#[test]
fn remove_deletes_exactly_one_entry() {
    let pa = install_update(Some(&manifest("a", "0.1")), None).unwrap();
    let pb = install_update(Some(&manifest("b", "0.2")), Some(&pa.new_db)).unwrap();
    let pc = install_update(Some(&manifest("c", "0.3")), Some(&pb.new_db)).unwrap();
    let after = remove_update(b"b", Some(&pc.new_db)).unwrap();
    let listed = list_installed(Some(&after)).unwrap();
    assert_eq!(listed.len(), 2);
    assert_eq!(listed[0].0, b"a".to_vec());
    assert_eq!(listed[0].1, b"0.1".to_vec());
    assert_eq!(listed[1].0, b"c".to_vec());
    assert_eq!(listed[1].1, b"0.3".to_vec());
}

#[test]
fn remove_absent_name_is_not_found() {
    let pa = install_update(Some(&manifest("a", "0.1")), None).unwrap();
    let r = remove_update(b"zzz", Some(&pa.new_db));
    assert_eq!(r.err(), Some(PkgError::NotFoundError));
}

#[test]
fn remove_without_database_file_is_database_not_found() {
    let r = remove_update(b"anything", None);
    assert_eq!(r.err(), Some(PkgError::DatabaseNotFoundError));
}

#[test]
fn list_without_database_file_reports_zero_packages() {
    let listed = list_installed(None).unwrap();
    assert_eq!(listed.len(), 0);
}

#[test]
fn list_after_three_installs_reports_three() {
    let p1 = install_update(Some(&manifest("one", "1")), None).unwrap();
    let p2 = install_update(Some(&manifest("two", "2")), Some(&p1.new_db)).unwrap();
    let p3 = install_update(Some(&manifest("three", "3")), Some(&p2.new_db)).unwrap();
    let listed = list_installed(Some(&p3.new_db)).unwrap();
    assert_eq!(listed.len(), 3);
    assert_eq!(listed[0].0, b"one".to_vec());
    assert_eq!(listed[0].1, b"1".to_vec());
    assert_eq!(listed[1].0, b"two".to_vec());
    assert_eq!(listed[1].1, b"2".to_vec());
    assert_eq!(listed[2].0, b"three".to_vec());
    assert_eq!(listed[2].1, b"3".to_vec());
}

#[test]
fn missing_version_is_a_schema_error_and_produces_nothing() {
    let m = b"[package]\nname = \"foo\"\n".to_vec();
    let r = install_update(Some(&m), None);
    assert!(matches!(r, Err(PkgError::SchemaError(SchemaField::Version))));
    // No database document came out of the failed install, so there is
    // nothing a caller could deploy or persist.
}

#[test]
fn missing_name_is_a_schema_error() {
    let m = b"[package]\nversion = \"1.0\"\n".to_vec();
    let r = install_update(Some(&m), None);
    assert!(matches!(r, Err(PkgError::SchemaError(SchemaField::Name))));
}

#[test]
fn missing_package_section_is_a_schema_error() {
    let m = b"[other]\nname = \"foo\"\nversion = \"1.0\"\n".to_vec();
    let r = install_update(Some(&m), None);
    assert!(matches!(r, Err(PkgError::SchemaError(SchemaField::PackageSection))));
}

#[test]
fn absent_manifest_is_missing_file() {
    let r = install_update(None, None);
    assert!(matches!(r, Err(PkgError::MissingFileError)));
}

#[test]
fn malformed_manifest_is_a_parse_error() {
    let m = b"[package]\nname foo\n".to_vec();
    let r = install_update(Some(&m), None);
    assert!(matches!(r, Err(PkgError::ParseError)));
}

#[test]
fn corrupt_database_file_is_a_parse_error_everywhere() {
    let m = manifest("foo", "1.0");
    let bad = b"not a database".to_vec();
    assert!(matches!(install_update(Some(&m), Some(&bad)), Err(PkgError::ParseError)));
    assert!(matches!(remove_update(b"foo", Some(&bad)), Err(PkgError::ParseError)));
    assert!(matches!(list_installed(Some(&bad)), Err(PkgError::ParseError)));
}

#[test]
fn database_survives_awkward_bytes_in_manifest() {
    // The raw manifest text is kept verbatim in the database document;
    // quotes and backslashes in a version must survive the round trip.
    let m = b"[package]\nname = \"odd\"\nversion = \"1.0+x\\y\"\n".to_vec();
    let plan = install_update(Some(&m), None).unwrap();
    assert_eq!(plan.version, b"1.0+x\\y".to_vec());
    let listed = list_installed(Some(&plan.new_db)).unwrap();
    assert_eq!(listed.len(), 1);
    assert_eq!(listed[0].1, b"1.0+x\\y".to_vec());
}

#[test]
fn reinstall_into_larger_database_keeps_others() {
    let p1 = install_update(Some(&manifest("keep", "7")), None).unwrap();
    let p2 = install_update(Some(&manifest("redo", "1")), Some(&p1.new_db)).unwrap();
    let p3 = install_update(Some(&manifest("redo", "2")), Some(&p2.new_db)).unwrap();
    let listed = list_installed(Some(&p3.new_db)).unwrap();
    assert_eq!(listed.len(), 2);
    assert_eq!(listed[0].0, b"keep".to_vec());
    assert_eq!(listed[0].1, b"7".to_vec());
    assert_eq!(listed[1].0, b"redo".to_vec());
    assert_eq!(listed[1].1, b"2".to_vec());
}
