//! The pure part of the three user-facing operations. Each function takes
//! the file contents the application read (the manifest text from the
//! extracted archive, the database file if one exists) and returns what
//! should be written back, or the exact error. The application only moves
//! bytes: everything the operations decide is decided here.
//!
//! Validation always precedes effects, by construction: an install that fails —
//! in particular on a manifest that does not parse or lacks a required
//! field — returns no new database document, so nothing gets written, and
//! the application deploys no files.

use vstd::prelude::*;

use crate::database::{
    has_name, map_of, spec_removed, spec_upsert, wf_recs, Database, PackageRecord, Rec,
};
use crate::errors::PkgError;
use crate::jsondb::{parse_db, ser_db, serialize_db, spec_load};
use crate::manifest::{parse_manifest, spec_manifest};

verus! {

/// The view of an optional byte slice.
pub open spec fn opt_view(x: Option<&[u8]>) -> Option<Seq<u8>> {
    match x {
        None => None,
        Some(s) => Some(s@),
    }
}

/// Loading an optional database file: an absent file is an empty
/// database.
pub open spec fn spec_load_opt(dbf: Option<Seq<u8>>) -> Result<Seq<Rec>, PkgError> {
    match dbf {
        None => Ok(Seq::empty()),
        Some(s) => spec_load(s),
    }
}

/// What install decides: validate the manifest first, load the
/// database, and upsert a record carrying the manifest's name, version
/// and raw text. Yields the new records and the package identity.
pub open spec fn spec_install(man: Option<Seq<u8>>, dbf: Option<Seq<u8>>) -> Result<
    (Seq<Rec>, Seq<u8>, Seq<u8>),
    PkgError,
> {
    match man {
        None => Err(PkgError::MissingFileError),
        Some(m) => match spec_manifest(m) {
            Err(e) => Err(e),
            Ok(nv) => match spec_load_opt(dbf) {
                Err(e) => Err(e),
                Ok(rs) => Ok(
                    (spec_upsert(rs, Rec { name: nv.0, version: nv.1, raw_manifest: m }), nv.0, nv.1),
                ),
            },
        },
    }
}

/// What remove decides: the database file must exist and parse, the name
/// must be present; then exactly that record leaves.
pub open spec fn spec_remove(name: Seq<u8>, dbf: Option<Seq<u8>>) -> Result<Seq<Rec>, PkgError> {
    match dbf {
        None => Err(PkgError::DatabaseNotFoundError),
        Some(s) => match spec_load(s) {
            Err(e) => Err(e),
            Ok(rs) => if !has_name(rs, name) {
                Err(PkgError::NotFoundError)
            } else {
                Ok(spec_removed(rs, name))
            },
        },
    }
}

/// What list reports: an absent database file means zero packages, not an
/// error; otherwise every (name, version) pair, in database order.
pub open spec fn spec_list(dbf: Option<Seq<u8>>) -> Result<Seq<(Seq<u8>, Seq<u8>)>, PkgError> {
    match spec_load_opt(dbf) {
        Err(e) => Err(e),
        Ok(rs) => Ok(rs.map_values(|r: Rec| (r.name, r.version))),
    }
}

/// What a successful install hands back to the application.
pub struct InstallPlan {
    /// The new database document, to replace the database file whole.
    pub new_db: Vec<u8>,
    /// The installed package's name, for the success notification.
    pub name: Vec<u8>,
    /// The installed package's version, for the success notification.
    pub version: Vec<u8>,
}

/// The install pipeline after extraction: manifest validation, database
/// read-modify, new document. `manifest_text` is the manifest file's
/// contents (`None` when the archive has none), `db_file` the database
/// file's contents (`None` when no database file exists yet).
pub fn install_update(manifest_text: Option<&[u8]>, db_file: Option<&[u8]>) -> (r: Result<
    InstallPlan,
    PkgError,
>)
    ensures
        match r {
            Ok(p) => {
                &&& spec_install(opt_view(manifest_text), opt_view(db_file)) matches Ok(o)
                &&& p.name@ == o.1
                &&& p.version@ == o.2
                &&& p.new_db@ == ser_db(o.0)
                &&& wf_recs(o.0)
                &&& spec_load(p.new_db@) == Ok::<Seq<Rec>, PkgError>(o.0)
            },
            Err(e) => spec_install(opt_view(manifest_text), opt_view(db_file)) == Err::<
                (Seq<Rec>, Seq<u8>, Seq<u8>),
                PkgError,
            >(e),
        },
{
    let m: &[u8] = match manifest_text {
        None => {
            return Err(PkgError::MissingFileError);
        },
        Some(m) => m,
    };
    let man = match parse_manifest(m) {
        Err(e) => {
            return Err(e);
        },
        Ok(man) => man,
    };
    let mut db = match db_file {
        None => Database::new(),
        Some(f) => match parse_db(f) {
            Err(e) => {
                return Err(e);
            },
            Ok(db) => db,
        },
    };
    let ghost loaded = db@;
    let raw = vstd::slice::slice_to_vec(m);
    let name_out = vstd::slice::slice_to_vec(man.name.as_slice());
    let version_out = vstd::slice::slice_to_vec(man.version.as_slice());
    let rec = PackageRecord { name: man.name, version: man.version, raw_manifest: raw };
    db.upsert(rec);
    let new_db = serialize_db(&db);
    proof {
        crate::jsondb::lemma_load_ser_db(db@);
    }
    Ok(InstallPlan { new_db, name: name_out, version: version_out })
}

/// The remove pipeline: database read-modify, new document. `db_file` is
/// the database file's contents (`None` when no database file exists).
/// Deployed files are not touched: nothing tracks them.
pub fn remove_update(name: &[u8], db_file: Option<&[u8]>) -> (r: Result<Vec<u8>, PkgError>)
    ensures
        match r {
            Ok(out) => {
                &&& spec_remove(name@, opt_view(db_file)) matches Ok(rs)
                &&& out@ == ser_db(rs)
                &&& wf_recs(rs)
                &&& spec_load(out@) == Ok::<Seq<Rec>, PkgError>(rs)
            },
            Err(e) => spec_remove(name@, opt_view(db_file)) == Err::<Seq<Rec>, PkgError>(e),
        },
{
    let f: &[u8] = match db_file {
        None => {
            return Err(PkgError::DatabaseNotFoundError);
        },
        Some(f) => f,
    };
    let mut db = match parse_db(f) {
        Err(e) => {
            return Err(e);
        },
        Ok(db) => db,
    };
    match db.remove(name) {
        Err(e) => Err(e),
        Ok(()) => {
            let out = serialize_db(&db);
            proof {
                crate::jsondb::lemma_load_ser_db(db@);
            }
            Ok(out)
        },
    }
}

/// The list pipeline: every installed (name, version) pair; an absent
/// database file reports zero packages.
pub fn list_installed(db_file: Option<&[u8]>) -> (r: Result<Vec<(Vec<u8>, Vec<u8>)>, PkgError>)
    ensures
        match r {
            Ok(v) => {
                &&& spec_list(opt_view(db_file)) matches Ok(l)
                &&& v@.len() == l.len()
                &&& forall|i: int|
                    0 <= i < l.len() ==> (#[trigger] v@[i]).0@ == l[i].0 && v@[i].1@ == l[i].1
            },
            Err(e) => spec_list(opt_view(db_file)) == Err::<Seq<(Seq<u8>, Seq<u8>)>, PkgError>(e),
        },
{
    let db = match db_file {
        None => Database::new(),
        Some(f) => match parse_db(f) {
            Err(e) => {
                return Err(e);
            },
            Ok(db) => db,
        },
    };
    let out = db.list();
    proof {
        let l = db@.map_values(|r: Rec| (r.name, r.version));
        assert(l.len() == db@.len());
        assert forall|i: int| 0 <= i < l.len() implies (#[trigger] out@[i]).0@ == l[i].0
            && out@[i].1@ == l[i].1 by {
            assert(l[i] == (db@[i].name, db@[i].version));
        }
    }
    Ok(out)
}

/// Installing the same package name twice overwrites the prior record,
/// with no conflict: the database map afterwards holds exactly the second
/// record under that name, every other entry is as a single install would
/// leave it, and the record count does not grow on the second install.
pub proof fn lemma_reinstall_overwrites(rs: Seq<Rec>, r1: Rec, r2: Rec)
    requires
        wf_recs(rs),
        crate::database::rec_valid(r1),
        crate::database::rec_valid(r2),
        r1.name == r2.name,
    ensures
        map_of(spec_upsert(spec_upsert(rs, r1), r2)) == map_of(rs).insert(r2.name, r2),
        map_of(spec_upsert(spec_upsert(rs, r1), r2))[r2.name] == r2,
        spec_upsert(spec_upsert(rs, r1), r2).len() == spec_upsert(rs, r1).len(),
{
    crate::database::lemma_spec_upsert(rs, r1);
    let rs1 = spec_upsert(rs, r1);
    crate::database::lemma_spec_upsert(rs1, r2);
    assert(map_of(rs).insert(r1.name, r1).insert(r2.name, r2) =~= map_of(rs).insert(r2.name, r2));
    crate::database::lemma_map_of_dom(rs1, r2.name);
    if !has_name(rs1, r2.name) {
        assert(map_of(rs1).contains_key(r1.name));
    }
}

/// Validation blocks effects: a manifest that does not validate makes install
/// fail with exactly that error, whatever the database holds — no new
/// database document exists, so nothing can be deployed or written.
pub proof fn lemma_validation_blocks(m: Seq<u8>, dbf: Option<Seq<u8>>, e: PkgError)
    requires
        spec_manifest(m) == Err::<(Seq<u8>, Seq<u8>), PkgError>(e),
    ensures
        spec_install(Some(m), dbf) == Err::<(Seq<Rec>, Seq<u8>, Seq<u8>), PkgError>(e),
{
}

/// Listing a persisted database reports exactly its records: one
/// (name, version) pair per installed package, so after `N` installs of
/// distinct names the listing has exactly `N` entries with the installed
/// versions. An absent database file lists as zero packages.
pub proof fn lemma_list_after_persist(rs: Seq<Rec>)
    requires
        wf_recs(rs),
    ensures
        spec_list(Some(ser_db(rs))) == Ok::<Seq<(Seq<u8>, Seq<u8>)>, PkgError>(
            rs.map_values(|r: Rec| (r.name, r.version)),
        ),
        spec_list(Some(ser_db(rs)))->Ok_0.len() == rs.len(),
        spec_list(None) == Ok::<Seq<(Seq<u8>, Seq<u8>)>, PkgError>(Seq::empty()),
{
    crate::jsondb::lemma_load_ser_db(rs);
    assert(Seq::<Rec>::empty().map_values(|r: Rec| (r.name, r.version)) =~= Seq::<
        (Seq<u8>, Seq<u8>),
    >::empty());
}

/// Installing a fresh name and listing the produced document: the listing
/// grows by exactly one entry, which carries the installed name and
/// version. So starting from no database file, `N` installs of distinct
/// names list as exactly `N` entries with their installed versions.
pub proof fn lemma_install_fresh_then_list(man: Seq<u8>, dbf: Option<Seq<u8>>)
    requires
        spec_manifest(man) is Ok,
        spec_load_opt(dbf) is Ok,
        !has_name(spec_load_opt(dbf)->Ok_0, spec_manifest(man)->Ok_0.0),
    ensures
        spec_install(Some(man), dbf) is Ok,
        spec_list(Some(ser_db(spec_install(Some(man), dbf)->Ok_0.0))) is Ok,
        spec_list(Some(ser_db(spec_install(Some(man), dbf)->Ok_0.0)))->Ok_0.len()
            == spec_load_opt(dbf)->Ok_0.len() + 1,
        spec_list(Some(ser_db(spec_install(Some(man), dbf)->Ok_0.0)))->Ok_0.last() == (
            spec_manifest(man)->Ok_0.0,
            spec_manifest(man)->Ok_0.1,
        ),
{
    let nv = spec_manifest(man)->Ok_0;
    let rs = spec_load_opt(dbf)->Ok_0;
    let rec = Rec { name: nv.0, version: nv.1, raw_manifest: man };
    assert(wf_recs(rs)) by {
        if dbf is None {
            assert(rs =~= Seq::<Rec>::empty());
        }
    }
    crate::database::lemma_spec_upsert(rs, rec);
    let rs2 = spec_upsert(rs, rec);
    lemma_list_after_persist(rs2);
    let pairs = rs2.map_values(|r: Rec| (r.name, r.version));
    assert(pairs.last() == (rec.name, rec.version)) by {
        assert(rs2[rs2.len() - 1] == rec);
    }
}

} // verus!
