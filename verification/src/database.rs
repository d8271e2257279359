//! The package database: the single source of truth for what is
//! installed. In memory it is a sequence of records with pairwise
//! distinct, non-empty names; its meaning is the map from package name to
//! record. Reading and writing the database file is the codec's and the
//! application's business.

use vstd::prelude::*;

use crate::errors::PkgError;
use crate::scan::bytes_eq;

verus! {

/// The mathematical content of one package record.
pub struct Rec {
    pub name: Seq<u8>,
    pub version: Seq<u8>,
    pub raw_manifest: Seq<u8>,
}

/// The persisted metadata entry for one installed package.
pub struct PackageRecord {
    /// The package name: the unique key, non-empty.
    pub name: Vec<u8>,
    /// The package version, non-empty.
    pub version: Vec<u8>,
    /// The manifest text, kept verbatim for later reference.
    pub raw_manifest: Vec<u8>,
}

impl View for PackageRecord {
    type V = Rec;

    open spec fn view(&self) -> Rec {
        Rec { name: self.name@, version: self.version@, raw_manifest: self.raw_manifest@ }
    }
}

/// A record is valid when its name and version are non-empty.
pub open spec fn rec_valid(r: Rec) -> bool {
    r.name.len() > 0 && r.version.len() > 0
}

/// The database invariant: valid records under pairwise distinct names.
pub open spec fn wf_recs(rs: Seq<Rec>) -> bool {
    &&& forall|i: int, j: int| 0 <= i < j < rs.len() ==> rs[i].name != rs[j].name
    &&& forall|i: int| 0 <= i < rs.len() ==> rec_valid(#[trigger] rs[i])
}

/// The meaning of a record sequence: the map from name to record
/// (a later record under the same name wins, which cannot happen
/// under `wf_recs`).
pub open spec fn map_of(rs: Seq<Rec>) -> Map<Seq<u8>, Rec>
    decreases rs.len(),
{
    if rs.len() == 0 {
        Map::empty()
    } else {
        map_of(rs.drop_last()).insert(rs.last().name, rs.last())
    }
}

/// Whether some record in `rs` carries `n`.
pub open spec fn has_name(rs: Seq<Rec>, n: Seq<u8>) -> bool {
    exists|i: int| 0 <= i < rs.len() && rs[i].name == n
}

/// Index of the first record carrying `n`; `rs.len()` if none does.
pub open spec fn idx_of(rs: Seq<Rec>, n: Seq<u8>) -> int
    decreases rs.len(),
{
    if rs.len() == 0 {
        0
    } else if rs[0].name == n {
        0
    } else {
        1 + idx_of(rs.drop_first(), n)
    }
}

/// An index whose record carries `n`, before which none does, is exactly
/// `idx_of`.
pub proof fn lemma_idx_of_is(rs: Seq<Rec>, n: Seq<u8>, i: int)
    requires
        0 <= i < rs.len(),
        rs[i].name == n,
        forall|k: int| 0 <= k < i ==> rs[k].name != n,
    ensures
        idx_of(rs, n) == i,
    decreases rs.len(),
{
    if i > 0 {
        let t = rs.drop_first();
        assert(t[i - 1] == rs[i]);
        assert forall|k: int| 0 <= k < i - 1 implies t[k].name != n by {
            assert(t[k] == rs[k + 1]);
        }
        lemma_idx_of_is(t, n, i - 1);
    }
}

/// What install does to the records: overwrite the record that carries
/// the name, or append a new one.
pub open spec fn spec_upsert(rs: Seq<Rec>, r: Rec) -> Seq<Rec> {
    if has_name(rs, r.name) {
        rs.update(idx_of(rs, r.name), r)
    } else {
        rs.push(r)
    }
}

/// What remove does to the records: drop the record that carries the
/// name (meaningful only when one does).
pub open spec fn spec_removed(rs: Seq<Rec>, n: Seq<u8>) -> Seq<Rec> {
    rs.remove(idx_of(rs, n))
}

/// A name is in the map exactly when a record carries it.
pub proof fn lemma_map_of_dom(rs: Seq<Rec>, n: Seq<u8>)
    ensures
        map_of(rs).contains_key(n) == has_name(rs, n),
    decreases rs.len(),
{
    if rs.len() > 0 {
        lemma_map_of_dom(rs.drop_last(), n);
        if has_name(rs.drop_last(), n) {
            let i = choose|i: int| 0 <= i < rs.drop_last().len() && rs.drop_last()[i].name == n;
            assert(rs[i].name == n);
        }
        if rs.last().name == n {
            assert(rs[rs.len() - 1].name == n);
        }
        if !map_of(rs).contains_key(n) && has_name(rs, n) {
            let i = choose|i: int| 0 <= i < rs.len() && rs[i].name == n;
            if i < rs.len() - 1 {
                assert(rs.drop_last()[i].name == n);
            }
        }
    }
}

/// Appending a fresh record inserts it into the map.
pub proof fn lemma_map_of_push(rs: Seq<Rec>, r: Rec)
    ensures
        map_of(rs.push(r)) == map_of(rs).insert(r.name, r),
{
    assert(rs.push(r).drop_last() =~= rs);
    assert(rs.push(r).last() == r);
}

/// Overwriting the record that holds a name updates the map at that name.
pub proof fn lemma_map_of_update(rs: Seq<Rec>, i: int, r: Rec)
    requires
        wf_recs(rs),
        0 <= i < rs.len(),
        rs[i].name == r.name,
    ensures
        map_of(rs.update(i, r)) == map_of(rs).insert(r.name, r),
    decreases rs.len(),
{
    let up = rs.update(i, r);
    if i == rs.len() - 1 {
        assert(up.drop_last() =~= rs.drop_last());
        assert(up.last() == r);
        assert(map_of(up) == map_of(rs.drop_last()).insert(r.name, r));
        assert(map_of(rs.drop_last()).insert(r.name, rs.last()).insert(r.name, r) =~= map_of(
            rs.drop_last(),
        ).insert(r.name, r));
    } else {
        assert(wf_recs(rs.drop_last())) by {
            assert(forall|k: int|
                0 <= k < rs.len() - 1 ==> rs.drop_last()[k] == rs[k]);
        }
        assert(rs.drop_last()[i] == rs[i]);
        lemma_map_of_update(rs.drop_last(), i, r);
        assert(up.drop_last() =~= rs.drop_last().update(i, r));
        assert(up.last() == rs.last());
        assert(rs.last().name != r.name);
        assert(map_of(rs.drop_last()).insert(r.name, r).insert(rs.last().name, rs.last()) =~= map_of(
            rs.drop_last(),
        ).insert(rs.last().name, rs.last()).insert(r.name, r));
    }
}

/// Removing the record that holds a name removes that name from the map.
pub proof fn lemma_map_of_remove(rs: Seq<Rec>, i: int)
    requires
        wf_recs(rs),
        0 <= i < rs.len(),
    ensures
        map_of(rs.remove(i)) == map_of(rs).remove(rs[i].name),
    decreases rs.len(),
{
    let n = rs[i].name;
    if i == rs.len() - 1 {
        assert(rs.remove(i) =~= rs.drop_last());
        assert(!has_name(rs.drop_last(), n)) by {
            assert(forall|k: int|
                0 <= k < rs.len() - 1 ==> rs.drop_last()[k] == rs[k]);
        }
        lemma_map_of_dom(rs.drop_last(), n);
        assert(map_of(rs.drop_last()).insert(n, rs.last()).remove(n) =~= map_of(rs.drop_last()));
    } else {
        assert(wf_recs(rs.drop_last())) by {
            assert(forall|k: int|
                0 <= k < rs.len() - 1 ==> rs.drop_last()[k] == rs[k]);
        }
        assert(rs.drop_last()[i] == rs[i]);
        lemma_map_of_remove(rs.drop_last(), i);
        assert(rs.remove(i).drop_last() =~= rs.drop_last().remove(i));
        assert(rs.remove(i).last() == rs.last());
        assert(rs.last().name != n);
        assert(map_of(rs.drop_last()).remove(n).insert(rs.last().name, rs.last()) =~= map_of(
            rs.drop_last(),
        ).insert(rs.last().name, rs.last()).remove(n));
    }
}

/// Where the first record carrying a present name stands.
pub proof fn lemma_idx_of_has(rs: Seq<Rec>, n: Seq<u8>)
    requires
        has_name(rs, n),
    ensures
        0 <= idx_of(rs, n) < rs.len(),
        rs[idx_of(rs, n)].name == n,
        forall|k: int| 0 <= k < idx_of(rs, n) ==> rs[k].name != n,
    decreases rs.len(),
{
    if rs[0].name != n {
        let t = rs.drop_first();
        assert(has_name(t, n)) by {
            let w = choose|i: int| 0 <= i < rs.len() && rs[i].name == n;
            assert(t[w - 1] == rs[w]);
        }
        lemma_idx_of_has(t, n);
        assert(rs[idx_of(rs, n)] == t[idx_of(t, n)]);
        assert forall|k: int| 0 <= k < idx_of(rs, n) implies rs[k].name != n by {
            if k > 0 {
                assert(rs[k] == t[k - 1]);
            }
        }
    }
}

/// The install law: installing a record changes the database map by
/// exactly one entry — the record's name now maps to it — and keeps the
/// invariant. A present name is overwritten in place; a fresh name is
/// appended.
pub proof fn lemma_spec_upsert(rs: Seq<Rec>, r: Rec)
    requires
        wf_recs(rs),
        rec_valid(r),
    ensures
        wf_recs(spec_upsert(rs, r)),
        map_of(spec_upsert(rs, r)) == map_of(rs).insert(r.name, r),
        has_name(rs, r.name) ==> spec_upsert(rs, r).len() == rs.len(),
        !has_name(rs, r.name) ==> spec_upsert(rs, r) == rs.push(r) && spec_upsert(rs, r).len()
            == rs.len() + 1,
{
    if has_name(rs, r.name) {
        lemma_idx_of_has(rs, r.name);
        let i = idx_of(rs, r.name);
        lemma_map_of_update(rs, i, r);
        let up = rs.update(i, r);
        assert forall|x: int, y: int| 0 <= x < y < up.len() implies up[x].name != up[y].name by {
            if x != i && y != i {
                assert(rs[x].name != rs[y].name);
            } else if x == i {
                assert(rs[y].name != rs[i].name);
            } else {
                assert(rs[x].name != rs[i].name);
            }
        }
    } else {
        lemma_map_of_push(rs, r);
        let up = rs.push(r);
        assert forall|x: int, y: int| 0 <= x < y < up.len() implies up[x].name != up[y].name by {
            if y == rs.len() {
                assert(up[x] == rs[x]);
            } else {
                assert(rs[x].name != rs[y].name);
            }
        }
    }
}

/// The remove law: removing a present name deletes exactly that entry
/// from the database map, leaves every other entry unchanged, shortens
/// the records by one, and keeps the invariant.
pub proof fn lemma_spec_removed(rs: Seq<Rec>, n: Seq<u8>)
    requires
        wf_recs(rs),
        has_name(rs, n),
    ensures
        wf_recs(spec_removed(rs, n)),
        map_of(spec_removed(rs, n)) == map_of(rs).remove(n),
        spec_removed(rs, n).len() == rs.len() - 1,
{
    lemma_idx_of_has(rs, n);
    let i = idx_of(rs, n);
    lemma_map_of_remove(rs, i);
    rs.remove_ensures(i);
    let rm = rs.remove(i);
    assert forall|x: int, y: int| 0 <= x < y < rm.len() implies rm[x].name != rm[y].name by {}
    assert forall|x: int| 0 <= x < rm.len() implies rec_valid(#[trigger] rm[x]) by {}
}

/// The in-memory package database.
pub struct Database {
    recs: Vec<PackageRecord>,
}

impl View for Database {
    type V = Seq<Rec>;

    closed spec fn view(&self) -> Seq<Rec> {
        Seq::new(self.recs@.len(), |i: int| self.recs@[i]@)
    }
}

impl Database {
    /// The database invariant.
    pub open spec fn wf(&self) -> bool {
        wf_recs(self@)
    }

    /// An empty database: what an absent database file means.
    pub fn new() -> (db: Database)
        ensures
            db@ =~= Seq::<Rec>::empty(),
            db.wf(),
    {
        Database { recs: Vec::new() }
    }

    /// How many packages are installed.
    pub fn len(&self) -> (n: usize)
        ensures
            n == self@.len(),
    {
        self.recs.len()
    }

    /// The index of the record carrying `name`, if any.
    pub fn find(&self, name: &[u8]) -> (r: Option<usize>)
        ensures
            match r {
                Some(i) => i < self@.len() && self@[i as int].name == name@ && idx_of(self@, name@)
                    == i && has_name(self@, name@),
                None => !has_name(self@, name@),
            },
    {
        let mut i: usize = 0;
        while i < self.recs.len()
            invariant
                i <= self@.len(),
                self@.len() == self.recs@.len(),
                forall|k: int| 0 <= k < i ==> self@[k].name != name@,
                forall|k: int| 0 <= k < self.recs@.len() ==> self@[k] == self.recs@[k]@,
            decreases self@.len() - i,
        {
            if bytes_eq(self.recs[i].name.as_slice(), name) {
                proof {
                    lemma_idx_of_is(self@, name@, i as int);
                }
                return Some(i);
            }
            i = i + 1;
        }
        None
    }

    /// Insert or overwrite: the map gains (or replaces) exactly the entry
    /// for `rec.name`; no other entry moves. Reinstalling a name is not a
    /// conflict.
    pub fn upsert(&mut self, rec: PackageRecord)
        requires
            old(self).wf(),
            rec_valid(rec@),
        ensures
            final(self).wf(),
            final(self)@ == spec_upsert(old(self)@, rec@),
            map_of(final(self)@) == map_of(old(self)@).insert(rec@.name, rec@),
            has_name(old(self)@, rec@.name) ==> final(self)@.len() == old(self)@.len(),
            !has_name(old(self)@, rec@.name) ==> final(self)@ == old(self)@.push(rec@),
    {
        let ghost pre = self@;
        proof {
            lemma_spec_upsert(pre, rec@);
        }
        match self.find(rec.name.as_slice()) {
            Some(i) => {
                self.recs.set(i, rec);
                proof {
                    assert(self@ =~= pre.update(i as int, rec@));
                }
            },
            None => {
                self.recs.push(rec);
                proof {
                    assert(self@ =~= pre.push(rec@));
                }
            },
        }
    }

    /// Delete the entry for `name`; `NotFoundError` when it is absent.
    /// On success exactly that name leaves the map and every other entry
    /// is unchanged.
    pub fn remove(&mut self, name: &[u8]) -> (r: Result<(), PkgError>)
        requires
            old(self).wf(),
        ensures
            final(self).wf(),
            match r {
                Ok(()) => has_name(old(self)@, name@) && final(self)@ == spec_removed(
                    old(self)@,
                    name@,
                ) && map_of(final(self)@) == map_of(old(self)@).remove(name@)
                    && final(self)@.len() == old(self)@.len() - 1,
                Err(e) => e == PkgError::NotFoundError && !has_name(old(self)@, name@)
                    && final(self)@ == old(self)@,
            },
    {
        let ghost pre = self@;
        match self.find(name) {
            None => Err(PkgError::NotFoundError),
            Some(i) => {
                proof {
                    lemma_spec_removed(pre, name@);
                }
                self.recs.remove(i);
                proof {
                    assert(self@ =~= pre.remove(i as int));
                }
                Ok(())
            },
        }
    }

    /// The (name, version) pairs of every installed package, in database
    /// order.
    pub fn list(&self) -> (r: Vec<(Vec<u8>, Vec<u8>)>)
        ensures
            r@.len() == self@.len(),
            forall|i: int|
                0 <= i < r@.len() ==> (#[trigger] r@[i]).0@ == self@[i].name && r@[i].1@
                    == self@[i].version,
    {
        let mut out: Vec<(Vec<u8>, Vec<u8>)> = Vec::new();
        let mut i: usize = 0;
        while i < self.recs.len()
            invariant
                i <= self.recs@.len(),
                self@.len() == self.recs@.len(),
                out@.len() == i,
                forall|k: int| 0 <= k < self.recs@.len() ==> self@[k] == self.recs@[k]@,
                forall|k: int|
                    0 <= k < i ==> (#[trigger] out@[k]).0@ == self@[k].name && out@[k].1@
                        == self@[k].version,
            decreases self.recs@.len() - i,
        {
            let name = vstd::slice::slice_to_vec(self.recs[i].name.as_slice());
            let version = vstd::slice::slice_to_vec(self.recs[i].version.as_slice());
            out.push((name, version));
            i = i + 1;
        }
        out
    }

    /// Read access to the records, for the codec.
    pub fn records(&self) -> (r: &Vec<PackageRecord>)
        ensures
            r@.len() == self@.len(),
            forall|i: int| 0 <= i < r@.len() ==> (#[trigger] r@[i])@ == self@[i],
    {
        &self.recs
    }

    /// Builds a database from records, for the codec; the caller shows
    /// the invariant.
    pub fn from_records(recs: Vec<PackageRecord>) -> (db: Database)
        requires
            wf_recs(Seq::new(recs@.len(), |i: int| recs@[i]@)),
        ensures
            db.wf(),
            db@ == Seq::new(recs@.len(), |i: int| recs@[i]@),
    {
        Database { recs }
    }
}

} // verus!
