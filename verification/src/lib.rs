//! A minimal local package manager core: manifest parsing and validation,
//! a persisted package database with install / remove / list semantics,
//! and the pure part of the three user-facing operations.
//!
//! Everything here works on plain bytes and in-memory values; reading and
//! writing files, unpacking archives and command-line handling live in the
//! surrounding application.

pub mod cli;
pub mod database;
pub mod errors;
pub mod jsondb;
pub mod manifest;
pub mod ops;
pub mod scan;
