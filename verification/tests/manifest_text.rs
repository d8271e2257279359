//! Tests of the manifest text format: what the line-based parser accepts
//! and rejects.

use retropkg::errors::{PkgError, SchemaField};
use retropkg::manifest::parse_manifest;

#[test]
fn plain_manifest_parses() {
    let m = b"[package]\nname = \"foo\"\nversion = \"1.0\"\n";
    let man = parse_manifest(m).unwrap();
    assert_eq!(man.name, b"foo".to_vec());
    assert_eq!(man.version, b"1.0".to_vec());
}

#[test]
fn comments_blank_lines_and_spaces_are_skipped() {
    let m = b"# a package\n\n  [package]  \n  name   =  \"sp\"  \n# note\nversion = \"0.0.1\"\n";
    let man = parse_manifest(m).unwrap();
    assert_eq!(man.name, b"sp".to_vec());
    assert_eq!(man.version, b"0.0.1".to_vec());
}

#[test]
fn crlf_line_endings_parse() {
    let m = b"[package]\r\nname = \"win\"\r\nversion = \"3\"\r\n";
    let man = parse_manifest(m).unwrap();
    assert_eq!(man.name, b"win".to_vec());
    assert_eq!(man.version, b"3".to_vec());
}

#[test]
fn no_trailing_newline_parses() {
    let m = b"[package]\nname = \"tail\"\nversion = \"9\"";
    let man = parse_manifest(m).unwrap();
    assert_eq!(man.version, b"9".to_vec());
}

#[test]
fn later_assignment_wins() {
    let m = b"[package]\nname = \"first\"\nname = \"second\"\nversion = \"1\"\n";
    let man = parse_manifest(m).unwrap();
    assert_eq!(man.name, b"second".to_vec());
}

#[test]
fn fields_in_other_sections_do_not_count() {
    let m = b"[meta]\nname = \"x\"\nversion = \"1\"\n[package]\nname = \"real\"\nversion = \"2\"\n";
    let man = parse_manifest(m).unwrap();
    assert_eq!(man.name, b"real".to_vec());
    assert_eq!(man.version, b"2".to_vec());
}

#[test]
fn assignment_before_any_section_is_a_parse_error() {
    let m = b"name = \"x\"\n[package]\nversion = \"1\"\n";
    assert!(matches!(parse_manifest(m), Err(PkgError::ParseError)));
}

#[test]
fn unquoted_value_is_a_parse_error() {
    let m = b"[package]\nname = foo\nversion = \"1\"\n";
    assert!(matches!(parse_manifest(m), Err(PkgError::ParseError)));
}

#[test]
fn unclosed_section_header_is_a_parse_error() {
    let m = b"[package\nname = \"x\"\nversion = \"1\"\n";
    assert!(matches!(parse_manifest(m), Err(PkgError::ParseError)));
}

#[test]
fn empty_manifest_lacks_the_package_section() {
    assert!(matches!(
        parse_manifest(b""),
        Err(PkgError::SchemaError(SchemaField::PackageSection))
    ));
}

#[test]
fn empty_name_value_is_a_schema_error() {
    let m = b"[package]\nname = \"\"\nversion = \"1\"\n";
    assert!(matches!(parse_manifest(m), Err(PkgError::SchemaError(SchemaField::Name))));
}

#[test]
fn empty_version_value_is_a_schema_error() {
    let m = b"[package]\nname = \"x\"\nversion = \"\"\n";
    assert!(matches!(parse_manifest(m), Err(PkgError::SchemaError(SchemaField::Version))));
}
