//! The error taxonomy of the package manager.

use vstd::prelude::*;

verus! {

/// Which required manifest field was found missing (or not a string).
#[derive(Clone, Copy, PartialEq, Eq, Structural, Debug)]
pub enum SchemaField {
    /// The `[package]` section itself.
    PackageSection,
    /// `name` inside `[package]`.
    Name,
    /// `version` inside `[package]`.
    Version,
}

/// Every way an operation of this library can fail.
///
/// Opening, reading, writing and archive unpacking happen outside the
/// library, so `IOError` and `ArchiveFormatError` are produced by the
/// surrounding application; they are part of the taxonomy so that every
/// failure of the tool has one type.
#[derive(Clone, Copy, PartialEq, Eq, Structural, Debug)]
pub enum PkgError {
    /// A file could not be opened, read, written or created.
    IOError,
    /// The package archive could not be decompressed or unpacked.
    ArchiveFormatError,
    /// The manifest file was absent from the extracted archive.
    MissingFileError,
    /// Malformed structured text: a manifest or a database document.
    ParseError,
    /// The manifest lacks a required field.
    SchemaError(SchemaField),
    /// The package named for removal is not in the database.
    NotFoundError,
    /// Removal was attempted while no database file exists at all.
    DatabaseNotFoundError,
}

} // verus!
