//! Package databases and the compact package-reference scheme.
//!
//! A `PkgRef` packs a database index (8 bits) and an in-database package
//! index (24 bits) into one integer. The collection of databases always
//! holds the local database at index 0; references are resolved against
//! whichever snapshot is current, and resolution is always fallible.

use crate::desc::Pkg;
use vstd::prelude::*;
use vstd::slice::slice_subrange;

verus! {

/// Index of a package inside one database's package list.
#[derive(Clone, Copy, Debug, PartialEq, Eq, Structural)]
pub struct PkgIdx(u32);

impl PkgIdx {
    /// The index as a mathematical integer.
    pub closed spec fn as_int(self) -> int {
        self.0 as int
    }

    /// Create from a usize index; indices never approach `u32::MAX`
    /// (there will not be billions of packages).
    pub fn from_usize(idx: usize) -> (r: Self)
        requires
            idx <= u32::MAX,
        ensures
            r.as_int() == idx,
    {
        PkgIdx(idx as u32)
    }

    pub fn to_usize(self) -> (r: usize)
        ensures
            r == self.as_int(),
    {
        self.0 as usize
    }
}

/// Index of a database: 0 is the local database, the rest are sync
/// databases in load order.
#[derive(Clone, Copy, Debug, PartialEq, Eq, Structural)]
pub struct DbIdx(u8);

impl DbIdx {
    /// The index as a mathematical integer.
    pub closed spec fn as_int(self) -> int {
        self.0 as int
    }

    /// Create from a usize index; indices never approach `u8::MAX`
    /// (there will not be hundreds of sync databases).
    pub fn from_usize(idx: usize) -> (r: Self)
        requires
            idx <= u8::MAX,
        ensures
            r.as_int() == idx,
    {
        DbIdx(idx as u8)
    }

    pub fn to_usize(self) -> (r: usize)
        ensures
            r == self.as_int(),
    {
        self.0 as usize
    }
}

/// Law: packing a database index and a package index within the stated
/// bit widths (8 and 24 bits) and unpacking again recovers both exactly.
pub proof fn lemma_pack_unpack(db: u8, pkg: u32)
    requires
        pkg < 0x1000000,
    ensures
        ((db as u32) << 24u32 | pkg) >> 24u32 == db as u32,
        ((db as u32) << 24u32 | pkg) & 0xFFFFFFu32 == pkg,
{
    assert(((db as u32) << 24u32 | pkg) >> 24u32 == db as u32 && ((db as u32) << 24u32 | pkg)
        & 0xFFFFFFu32 == pkg) by (bit_vector)
        requires
            pkg < 0x1000000u32,
    ;
}

/// Refers to a package in either the local or a remote database.
///
/// Internally 8 bits hold the database index and 24 bits the package
/// index. A reference is only valid for the snapshot that produced it;
/// resolution against any snapshot is fallible and never panics.
#[derive(Clone, Copy, Debug, PartialEq, Eq, Structural)]
pub struct PkgRef(u32);

impl PkgRef {
    /// The database index held in this reference.
    pub closed spec fn spec_db(self) -> int {
        (self.0 >> 24u32) as int
    }

    /// The package index held in this reference.
    pub closed spec fn spec_pkg(self) -> int {
        (self.0 & 0xFFFFFFu32) as int
    }

    /// Pack a database index and a package index into one reference.
    pub fn from_components(db: DbIdx, pkg: PkgIdx) -> (r: Self)
        requires
            pkg.as_int() < 0x1000000,
        ensures
            r.spec_db() == db.as_int(),
            r.spec_pkg() == pkg.as_int(),
    {
        let d: u32 = db.0 as u32;
        let p: u32 = pkg.0;
        proof {
            lemma_pack_unpack(db.0, pkg.0);
        }
        PkgRef(d << 24 | p)
    }

    /// A reference into the local database.
    pub fn local(pkg: PkgIdx) -> (r: Self)
        requires
            pkg.as_int() < 0x1000000,
        ensures
            r.spec_db() == 0,
            r.spec_pkg() == pkg.as_int(),
    {
        Self::from_components(DbIdx::from_usize(0), pkg)
    }

    /// Unpack the reference into its database and package indices.
    pub fn into_components(self) -> (r: (DbIdx, PkgIdx))
        ensures
            r.0.as_int() == self.spec_db(),
            r.1.as_int() == self.spec_pkg(),
    {
        proof {
            let x = self.0;
            assert(x >> 24u32 <= 255 && x & 0xFFFFFFu32 < 0x1000000) by (bit_vector);
        }
        (DbIdx((self.0 >> 24) as u8), PkgIdx(self.0 & 0xFF_FFFF))
    }

    /// A human-readable `database/package` label for this reference, with
    /// a placeholder when it does not resolve.
    pub fn display(self, dbs: &Dbs) -> (r: String)
        ensures
            self.spec_db() >= dbs@.len() ==> r@ == "Unresolved db\n"@,
            self.spec_db() < dbs@.len() && self.spec_pkg() >= dbs@[self.spec_db()].pkgs@.len()
                ==> r@ == "unresolved package idx\n"@,
            self.spec_db() < dbs@.len() && self.spec_pkg() < dbs@[self.spec_db()].pkgs@.len()
                ==> r@ == dbs@[self.spec_db()].name@ + "/"@
                + dbs@[self.spec_db()].pkgs@[self.spec_pkg()].desc.name@,
    {
        let (db_opt, pkg_opt) = dbs.resolve(self);
        match db_opt {
            Option::None => "Unresolved db\n".to_owned(),
            Option::Some(db) => match pkg_opt {
                Option::None => "unresolved package idx\n".to_owned(),
                Option::Some(pkg) => {
                    let mut out = db.name.clone();
                    out.append("/");
                    out.append(pkg.desc.name.as_str());
                    out
                },
            },
        }
    }

    /// The reference points into the local database.
    pub fn is_local(self) -> (r: bool)
        ensures
            r == (self.spec_db() == 0),
    {
        let (db, _) = self.into_components();
        db.to_usize() == 0
    }

    /// The reference points into a sync database.
    pub fn is_remote(self) -> (r: bool)
        ensures
            r == (self.spec_db() != 0),
    {
        !self.is_local()
    }
}

/// One package database: its name and its ordered package list.
pub struct Db {
    pub name: String,
    pub pkgs: Vec<Pkg>,
}

/// Filtered package lists computed by the query engine, handed to the
/// list views.
pub struct PkgCache {
    pub filt_local_pkgs: Vec<PkgIdx>,
    pub filt_remote_pkgs: Vec<PkgRef>,
}

impl Default for PkgCache {
    fn default() -> (r: Self)
        ensures
            r.filt_local_pkgs@.len() == 0,
            r.filt_remote_pkgs@.len() == 0,
    {
        PkgCache { filt_local_pkgs: Vec::new(), filt_remote_pkgs: Vec::new() }
    }
}

/// The databases of one load: the local database at index 0, then the
/// sync databases in load order.
pub struct Dbs {
    dbs: Vec<Db>,
}

impl View for Dbs {
    type V = Seq<Db>;

    closed spec fn view(&self) -> Seq<Db> {
        self.dbs@
    }
}

impl Dbs {
    /// Well-formed: non-empty (the local database is present at index 0),
    /// and every index fits the bit widths of a `PkgRef`.
    pub open spec fn wf(self) -> bool {
        &&& 1 <= self@.len() <= 256
        &&& forall|i: int| 0 <= i < self@.len() ==> (#[trigger] self@[i]).pkgs@.len() <= 0x1000000
    }

    /// Build a database collection, checking the well-formedness bounds:
    /// at least the local database, at most 256 databases, and at most
    /// 2^24 packages per database.
    pub fn try_new(dbs: Vec<Db>) -> (r: Option<Dbs>)
        ensures
            r is Some <==> 1 <= dbs@.len() <= 256 && (forall|i: int|
                0 <= i < dbs@.len() ==> (#[trigger] dbs@[i]).pkgs@.len() <= 0x1000000),
            r matches Some(d) ==> d@ == dbs@ && d.wf(),
    {
        if dbs.len() < 1 || dbs.len() > 256 {
            return None;
        }
        let mut i: usize = 0;
        while i < dbs.len()
            invariant
                i <= dbs@.len(),
                forall|k: int| 0 <= k < i ==> (#[trigger] dbs@[k]).pkgs@.len() <= 0x1000000,
            decreases dbs@.len() - i,
        {
            if dbs[i].pkgs.len() > 0x1000000 {
                return None;
            }
            i = i + 1;
        }
        Some(Dbs { dbs })
    }

    /// Resolve a reference: the database at its database index, if any,
    /// and the package at its package index within that database, if
    /// any. A stale or out-of-range reference yields `None` parts,
    /// never a failure.
    pub fn resolve(&self, pkg_ref: PkgRef) -> (r: (Option<&Db>, Option<&Pkg>))
        ensures
            pkg_ref.spec_db() < self@.len() ==> (r.0 matches Some(db) && *db == self@[pkg_ref.spec_db()]),
            pkg_ref.spec_db() >= self@.len() ==> r.0 is None,
            pkg_ref.spec_db() < self@.len() && pkg_ref.spec_pkg() < self@[pkg_ref.spec_db()].pkgs@.len()
                ==> (r.1 matches Some(p) && *p == self@[pkg_ref.spec_db()].pkgs@[pkg_ref.spec_pkg()]),
            !(pkg_ref.spec_db() < self@.len() && pkg_ref.spec_pkg()
                < self@[pkg_ref.spec_db()].pkgs@.len()) ==> r.1 is None,
    {
        let (db_idx, pkg_idx) = pkg_ref.into_components();
        let di = db_idx.to_usize();
        if di < self.dbs.len() {
            let db = &self.dbs[di];
            let pi = pkg_idx.to_usize();
            if pi < db.pkgs.len() {
                (Some(db), Some(&db.pkgs[pi]))
            } else {
                (Some(db), None)
            }
        } else {
            (None, None)
        }
    }

    /// Resolve an index into the local package list.
    pub fn resolve_local(&self, idx: PkgIdx) -> (r: Option<&Pkg>)
        requires
            self.wf(),
        ensures
            idx.as_int() < self@[0].pkgs@.len() ==> (r matches Some(p) && *p == self@[0].pkgs@[idx.as_int()]),
            idx.as_int() >= self@[0].pkgs@.len() ==> r is None,
    {
        let pkgs = self.local_pkgs();
        let i = idx.to_usize();
        if i < pkgs.len() {
            Some(&pkgs[i])
        } else {
            None
        }
    }

    /// The local database's package list.
    pub fn local_pkgs(&self) -> (r: &Vec<Pkg>)
        requires
            self.wf(),
        ensures
            r@ == self@[0].pkgs@,
    {
        &self.dbs[0].pkgs
    }

    /// The number of databases.
    pub fn len(&self) -> (r: usize)
        ensures
            r == self@.len(),
    {
        self.dbs.len()
    }

    /// The database at an index known to be in range.
    pub fn db_at(&self, i: usize) -> (r: &Db)
        requires
            i < self@.len(),
        ensures
            *r == self@[i as int],
    {
        &self.dbs[i]
    }

    /// Every database, paired with its index.
    pub fn all(&self) -> (r: Vec<(DbIdx, &Db)>)
        requires
            self.wf(),
        ensures
            r@.len() == self@.len(),
            forall|i: int|
                0 <= i < r@.len() ==> (#[trigger] r@[i]).0.as_int() == i && *r@[i].1 == self@[i],
    {
        let mut out: Vec<(DbIdx, &Db)> = Vec::new();
        let mut i: usize = 0;
        while i < self.dbs.len()
            invariant
                self.wf(),
                i <= self@.len(),
                out@.len() == i,
                forall|k: int|
                    0 <= k < i ==> (#[trigger] out@[k]).0.as_int() == k && *out@[k].1 == self@[k],
            decreases self@.len() - i,
        {
            out.push((DbIdx::from_usize(i), &self.dbs[i]));
            i = i + 1;
        }
        out
    }

    /// Every sync database, paired with its index.
    pub fn remotes(&self) -> (r: Vec<(DbIdx, &Db)>)
        requires
            self.wf(),
        ensures
            r@.len() == self@.len() - 1,
            forall|i: int|
                0 <= i < r@.len() ==> (#[trigger] r@[i]).0.as_int() == i + 1 && *r@[i].1 == self@[i
                    + 1],
    {
        let mut out: Vec<(DbIdx, &Db)> = Vec::new();
        let mut i: usize = 1;
        while i < self.dbs.len()
            invariant
                self.wf(),
                1 <= i <= self@.len(),
                out@.len() == i - 1,
                forall|k: int|
                    0 <= k < i - 1 ==> (#[trigger] out@[k]).0.as_int() == k + 1 && *out@[k].1
                        == self@[k + 1],
            decreases self@.len() - i,
        {
            out.push((DbIdx::from_usize(i), &self.dbs[i]));
            i = i + 1;
        }
        out
    }

    /// The local database and the slice of sync databases.
    pub fn local_and_syncs(&self) -> (r: (&Db, &[Db]))
        requires
            self.wf(),
        ensures
            *r.0 == self@[0],
            r.1@ == self@.skip(1),
    {
        let first = &self.dbs[0];
        let rest = slice_subrange(self.dbs.as_slice(), 1, self.dbs.len());
        proof {
            assert(rest@ =~= self@.skip(1));
        }
        (first, rest)
    }
}

} // verus!
