//! Dependency matching and reverse lookup.
//!
//! A dependency specification matches a package either directly by name
//! (regardless of version) or through one of the package's `provides`
//! entries, in which case any version constraint of the specification is
//! checked against the provided version. The constraint's comparison
//! operator is honored in full here; a provides entry without a version
//! satisfies no constrained dependency.

use crate::desc::DepVerOp;
use crate::desc::Depend;
use crate::desc::Pkg;
use crate::desc::PkgDesc;
use crate::packages::Db;
use crate::packages::DbIdx;
use crate::packages::Dbs;
use crate::packages::PkgIdx;
use crate::packages::PkgRef;
use crate::util::str_eq;
use crate::vercmp::AbCmp;
use crate::vercmp::vercmp;
use crate::vercmp::vercmp_spec;
use vstd::prelude::*;
use vstd::string::StringSliceAdditionalSpecFns;
use vstd::utf8::encode_utf8;

verus! {

/// Whether a comparison outcome (candidate against required) meets a
/// constraint operator.
pub open spec fn constraint_ok(op: DepVerOp, c: AbCmp) -> bool {
    match op {
        DepVerOp::Equal => c is Same,
        DepVerOp::Less => c is BNewer,
        DepVerOp::LessEq => c is BNewer || c is Same,
        DepVerOp::Greater => c is ANewer,
        DepVerOp::GreaterEq => c is ANewer || c is Same,
    }
}

/// A `provides` entry satisfies a dependency specification: same name,
/// and when the specification carries a version constraint, the entry
/// names a version that meets it.
pub open spec fn provide_satisfies(p: Depend, dep: Depend) -> bool {
    &&& p.name@ == dep.name@
    &&& match dep.ver {
        None => true,
        Some(dv) => match p.ver {
            None => false,
            Some(pv) => constraint_ok(
                dv.op,
                vercmp_spec(encode_utf8(pv.ver@), encode_utf8(dv.ver@)),
            ),
        },
    }
}

/// A dependency specification matches a package: directly by name,
/// regardless of version, or through a `provides` entry.
pub open spec fn dep_matches(dep: Depend, pkg: PkgDesc) -> bool {
    ||| pkg.name@ == dep.name@
    ||| exists|i: int|
        0 <= i < pkg.provides@.len() && provide_satisfies(#[trigger] pkg.provides@[i], dep)
}

/// `candidate` depends on `target`: some entry of `candidate.depends`
/// matches `target`.
pub open spec fn pkg_depends_on(candidate: PkgDesc, target: PkgDesc) -> bool {
    exists|i: int|
        0 <= i < candidate.depends@.len() && dep_matches(#[trigger] candidate.depends@[i], target)
}

/// `candidate` optionally depends on `target`: some entry of
/// `candidate.opt_depends` matches `target`.
pub open spec fn pkg_opt_depends_on(candidate: PkgDesc, target: PkgDesc) -> bool {
    exists|i: int|
        0 <= i < candidate.opt_depends@.len() && dep_matches(
            (#[trigger] candidate.opt_depends@[i]).dep,
            target,
        )
}

fn constraint_ok_exec(op: DepVerOp, c: AbCmp) -> (r: bool)
    ensures
        r == constraint_ok(op, c),
{
    match op {
        DepVerOp::Equal => matches!(c, AbCmp::Same),
        DepVerOp::Less => matches!(c, AbCmp::BNewer),
        DepVerOp::LessEq => !matches!(c, AbCmp::ANewer),
        DepVerOp::Greater => matches!(c, AbCmp::ANewer),
        DepVerOp::GreaterEq => !matches!(c, AbCmp::BNewer),
    }
}

fn provide_satisfies_exec(p: &Depend, dep: &Depend) -> (r: bool)
    ensures
        r == provide_satisfies(*p, *dep),
{
    if !str_eq(p.name.as_str(), dep.name.as_str()) {
        return false;
    }
    match &dep.ver {
        None => true,
        Some(dv) => match &p.ver {
            None => false,
            Some(pv) => {
                let c = vercmp(pv.ver.as_str(), dv.ver.as_str());
                constraint_ok_exec(dv.op, c)
            },
        },
    }
}

/// Whether a dependency specification matches a package, directly by
/// name or through a `provides` entry.
pub fn dep_matches_pkg(dep: &Depend, pkg: &PkgDesc) -> (r: bool)
    ensures
        r == dep_matches(*dep, *pkg),
{
    if str_eq(pkg.name.as_str(), dep.name.as_str()) {
        return true;
    }
    let mut i: usize = 0;
    while i < pkg.provides.len()
        invariant
            i <= pkg.provides@.len(),
            forall|k: int| 0 <= k < i ==> !provide_satisfies(#[trigger] pkg.provides@[k], *dep),
        decreases pkg.provides@.len() - i,
    {
        if provide_satisfies_exec(&pkg.provides[i], dep) {
            return true;
        }
        i = i + 1;
    }
    false
}

/// Whether `candidate` depends on `target` through any of its
/// dependency entries.
pub fn pkg_matches_dep(target: &PkgDesc, candidate: &PkgDesc) -> (r: bool)
    ensures
        r == pkg_depends_on(*candidate, *target),
{
    let mut i: usize = 0;
    while i < candidate.depends.len()
        invariant
            i <= candidate.depends@.len(),
            forall|k: int| 0 <= k < i ==> !dep_matches(#[trigger] candidate.depends@[k], *target),
        decreases candidate.depends@.len() - i,
    {
        if dep_matches_pkg(&candidate.depends[i], target) {
            return true;
        }
        i = i + 1;
    }
    false
}

/// Whether `candidate` optionally depends on `target` through any of
/// its optional-dependency entries.
pub fn pkg_matches_opt_dep(target: &PkgDesc, candidate: &PkgDesc) -> (r: bool)
    ensures
        r == pkg_opt_depends_on(*candidate, *target),
{
    let mut i: usize = 0;
    while i < candidate.opt_depends.len()
        invariant
            i <= candidate.opt_depends@.len(),
            forall|k: int|
                0 <= k < i ==> !dep_matches((#[trigger] candidate.opt_depends@[k]).dep, *target),
        decreases candidate.opt_depends@.len() - i,
    {
        if dep_matches_pkg(&candidate.opt_depends[i].dep, target) {
            return true;
        }
        i = i + 1;
    }
    false
}

/// Law: a dependency specification with no version constraint matches
/// any package of the same name, whatever either version is; and name
/// identity alone suffices even when a constraint is present.
pub proof fn lemma_same_name_matches(dep: Depend, pkg: PkgDesc)
    requires
        pkg.name@ == dep.name@,
    ensures
        dep_matches(dep, pkg),
{
}

/// How a remote package's version relates to the locally installed one.
#[derive(Clone, Copy, Debug, PartialEq, Eq, Structural)]
pub enum RemoteLocalCmp {
    /// Remote is newer
    Newer,
    /// They are the same version
    Same,
    /// Remote is older
    Older,
}

impl RemoteLocalCmp {
    pub fn is_newer(&self) -> (r: bool)
        ensures
            r == (*self is Newer),
    {
        matches!(self, RemoteLocalCmp::Newer)
    }
}

/// The remote-against-local reading of a version comparison.
pub open spec fn remote_cmp_of(c: AbCmp) -> RemoteLocalCmp {
    match c {
        AbCmp::ANewer => RemoteLocalCmp::Newer,
        AbCmp::Same => RemoteLocalCmp::Same,
        AbCmp::BNewer => RemoteLocalCmp::Older,
    }
}

/// Compare a remote package's version against a local package's.
pub fn pkg_ver_cmp(remote: &PkgDesc, local_pkg: &Pkg) -> (r: RemoteLocalCmp)
    ensures
        r == remote_cmp_of(
            vercmp_spec(encode_utf8(remote.version@), encode_utf8(local_pkg.desc.version@)),
        ),
{
    match vercmp(remote.version.as_str(), local_pkg.desc.version.as_str()) {
        AbCmp::ANewer => RemoteLocalCmp::Newer,
        AbCmp::Same => RemoteLocalCmp::Same,
        AbCmp::BNewer => RemoteLocalCmp::Older,
    }
}

/// First index at or after `from` whose package bears `name`, or the
/// list length when none does.
pub open spec fn find_name_from(pkgs: Seq<Pkg>, name: Seq<char>, from: int) -> int
    decreases pkgs.len() - from,
{
    if from < pkgs.len() {
        if pkgs[from].desc.name@ == name {
            from
        } else {
            find_name_from(pkgs, name, from + 1)
        }
    } else {
        pkgs.len() as int
    }
}

pub proof fn lemma_find_name_from_bounds(pkgs: Seq<Pkg>, name: Seq<char>, from: int)
    requires
        0 <= from <= pkgs.len(),
    ensures
        from <= find_name_from(pkgs, name, from) <= pkgs.len(),
        find_name_from(pkgs, name, from) < pkgs.len() ==> pkgs[find_name_from(
            pkgs,
            name,
            from,
        )].desc.name@ == name,
    decreases pkgs.len() - from,
{
    if from < pkgs.len() && pkgs[from].desc.name@ != name {
        lemma_find_name_from_bounds(pkgs, name, from + 1);
    }
}

/// Find the first package of the list bearing the given name.
pub fn find_local_by_name(pkgs: &[Pkg], name: &str) -> (r: Option<PkgIdx>)
    requires
        pkgs@.len() <= u32::MAX,
    ensures
        find_name_from(pkgs@, name@, 0) < pkgs@.len() ==> (r matches Some(i) && i.as_int()
            == find_name_from(pkgs@, name@, 0)),
        find_name_from(pkgs@, name@, 0) == pkgs@.len() ==> r is None,
{
    let mut i: usize = 0;
    while i < pkgs.len()
        invariant
            i <= pkgs@.len(),
            pkgs@.len() <= u32::MAX,
            find_name_from(pkgs@, name@, 0) == find_name_from(pkgs@, name@, i as int),
        decreases pkgs@.len() - i,
    {
        if str_eq(vstd::slice::slice_index_get(pkgs, i).desc.name.as_str(), name) {
            return Some(PkgIdx::from_usize(i));
        }
        i = i + 1;
    }
    None
}

/// Find the local package a remote package corresponds to (first local
/// entry of the same name) and how their versions compare.
pub fn remote_local_cmp(remote: &PkgDesc, local_pkg_list: &[Pkg]) -> (r: Option<
    (PkgIdx, RemoteLocalCmp),
>)
    requires
        local_pkg_list@.len() <= u32::MAX,
    ensures
        ({
            let fi = find_name_from(local_pkg_list@, remote.name@, 0);
            &&& fi < local_pkg_list@.len() ==> (r matches Some((idx, c)) && idx.as_int() == fi && c
                == remote_cmp_of(
                vercmp_spec(
                    encode_utf8(remote.version@),
                    encode_utf8(local_pkg_list@[fi].desc.version@),
                ),
            ))
            &&& fi == local_pkg_list@.len() ==> r is None
        }),
{
    proof {
        lemma_find_name_from_bounds(local_pkg_list@, remote.name@, 0);
    }
    match find_local_by_name(local_pkg_list, remote.name.as_str()) {
        None => None,
        Some(idx) => {
            let local_pkg = vstd::slice::slice_index_get(local_pkg_list, idx.to_usize());
            let cmp = pkg_ver_cmp(remote, local_pkg);
            Some((idx, cmp))
        },
    }
}

/// A reference's indices lie within the given databases.
pub open spec fn ref_in_range(rf: PkgRef, dbs: Seq<Db>) -> bool {
    &&& 0 <= rf.spec_db() < dbs.len()
    &&& 0 <= rf.spec_pkg() < dbs[rf.spec_db()].pkgs@.len()
}

/// The package a pair of indices points at.
pub open spec fn pkg_at(dbs: Seq<Db>, d: int, p: int) -> Pkg {
    dbs[d].pkgs@[p]
}

/// Resolve a dependency specification to the first matching package,
/// scanning the local database first and then the sync databases in
/// load order, each in list order. First match wins.
pub fn resolve_dep<'db>(dep: &Depend, dbs: &'db Dbs) -> (r: Option<(PkgRef, &'db Pkg)>)
    requires
        dbs.wf(),
    ensures
        r matches Some((rf, p)) ==> {
            &&& ref_in_range(rf, dbs@)
            &&& *p == pkg_at(dbs@, rf.spec_db(), rf.spec_pkg())
            &&& dep_matches(*dep, p.desc)
            &&& forall|d: int, q: int|
                #![trigger pkg_at(dbs@, d, q)]
                0 <= d < dbs@.len() && 0 <= q < dbs@[d].pkgs@.len() && (d < rf.spec_db() || (d
                    == rf.spec_db() && q < rf.spec_pkg())) ==> !dep_matches(
                    *dep,
                    pkg_at(dbs@, d, q).desc,
                )
        },
        r is None ==> forall|d: int, q: int|
            #![trigger pkg_at(dbs@, d, q)]
            0 <= d < dbs@.len() && 0 <= q < dbs@[d].pkgs@.len() ==> !dep_matches(
                *dep,
                pkg_at(dbs@, d, q).desc,
            ),
{
    let n = dbs.len();
    let mut di: usize = 0;
    while di < n
        invariant
            dbs.wf(),
            n == dbs@.len(),
            di <= n,
            forall|d: int, q: int|
                #![trigger pkg_at(dbs@, d, q)]
                0 <= d < di && 0 <= q < dbs@[d].pkgs@.len() ==> !dep_matches(
                    *dep,
                    pkg_at(dbs@, d, q).desc,
                ),
        decreases n - di,
    {
        let db = dbs.db_at(di);
        let m = db.pkgs.len();
        let mut pi: usize = 0;
        while pi < m
            invariant
                dbs.wf(),
                n == dbs@.len(),
                di < n,
                m == dbs@[di as int].pkgs@.len(),
                *db == dbs@[di as int],
                pi <= m,
                forall|d: int, q: int|
                    #![trigger pkg_at(dbs@, d, q)]
                    0 <= d < di && 0 <= q < dbs@[d].pkgs@.len() ==> !dep_matches(
                        *dep,
                        pkg_at(dbs@, d, q).desc,
                    ),
                forall|q: int|
                    #![trigger pkg_at(dbs@, di as int, q)]
                    0 <= q < pi ==> !dep_matches(*dep, pkg_at(dbs@, di as int, q).desc),
            decreases m - pi,
        {
            let pkg = &db.pkgs[pi];
            if dep_matches_pkg(dep, &pkg.desc) {
                let rf = PkgRef::from_components(DbIdx::from_usize(di), PkgIdx::from_usize(pi));
                return Some((rf, pkg));
            }
            pi = pi + 1;
        }
        di = di + 1;
    }
    None
}

/// Every package of the scope that depends on `pkg`: the whole snapshot,
/// or only the local database. Results keep database order, then
/// in-database order.
pub fn calc_required_by<'db>(pkg: &Pkg, dbs: &'db Dbs, local_only: bool) -> (r: Vec<
    (PkgRef, &'db Pkg),
>)
    requires
        dbs.wf(),
    ensures
        forall|k: int|
            0 <= k < r@.len() ==> {
                let rf = (#[trigger] r@[k]).0;
                &&& ref_in_range(rf, dbs@)
                &&& (local_only ==> rf.spec_db() == 0)
                &&& *r@[k].1 == pkg_at(dbs@, rf.spec_db(), rf.spec_pkg())
                &&& pkg_depends_on(pkg_at(dbs@, rf.spec_db(), rf.spec_pkg()).desc, pkg.desc)
            },
        forall|d: int, q: int|
            #![trigger pkg_at(dbs@, d, q)]
            0 <= d < dbs@.len() && (local_only ==> d == 0) && 0 <= q < dbs@[d].pkgs@.len()
                && pkg_depends_on(pkg_at(dbs@, d, q).desc, pkg.desc) ==> exists|k: int|
                0 <= k < r@.len() && (#[trigger] r@[k]).0.spec_db() == d && r@[k].0.spec_pkg() == q,
        forall|k1: int, k2: int|
            0 <= k1 < k2 < r@.len() ==> ((#[trigger] r@[k1]).0.spec_db() < (#[trigger] r@[k2]).0.spec_db()
                || (r@[k1].0.spec_db() == r@[k2].0.spec_db() && r@[k1].0.spec_pkg()
                < r@[k2].0.spec_pkg())),
{
    let mut reqs: Vec<(PkgRef, &'db Pkg)> = Vec::new();
    let bound: usize = if local_only {
        1
    } else {
        dbs.len()
    };
    let mut di: usize = 0;
    while di < bound
        invariant
            dbs.wf(),
            bound == if local_only {
                1int
            } else {
                dbs@.len() as int
            },
            bound <= dbs@.len(),
            di <= bound,
            forall|k: int|
                0 <= k < reqs@.len() ==> {
                    let rf = (#[trigger] reqs@[k]).0;
                    &&& ref_in_range(rf, dbs@)
                    &&& rf.spec_db() < di
                    &&& *reqs@[k].1 == pkg_at(dbs@, rf.spec_db(), rf.spec_pkg())
                    &&& pkg_depends_on(pkg_at(dbs@, rf.spec_db(), rf.spec_pkg()).desc, pkg.desc)
                },
            forall|d: int, q: int|
                #![trigger pkg_at(dbs@, d, q)]
                0 <= d < di && 0 <= q < dbs@[d].pkgs@.len() && pkg_depends_on(
                    pkg_at(dbs@, d, q).desc,
                    pkg.desc,
                ) ==> exists|k: int|
                    0 <= k < reqs@.len() && (#[trigger] reqs@[k]).0.spec_db() == d
                        && reqs@[k].0.spec_pkg() == q,
            forall|k1: int, k2: int|
                0 <= k1 < k2 < reqs@.len() ==> ((#[trigger] reqs@[k1]).0.spec_db()
                    < (#[trigger] reqs@[k2]).0.spec_db() || (reqs@[k1].0.spec_db()
                    == reqs@[k2].0.spec_db() && reqs@[k1].0.spec_pkg() < reqs@[k2].0.spec_pkg())),
        decreases bound - di,
    {
        let db = dbs.db_at(di);
        let m = db.pkgs.len();
        let mut pi: usize = 0;
        while pi < m
            invariant
                dbs.wf(),
                di < dbs@.len(),
                m == dbs@[di as int].pkgs@.len(),
                *db == dbs@[di as int],
                pi <= m,
                forall|k: int|
                    0 <= k < reqs@.len() ==> {
                        let rf = (#[trigger] reqs@[k]).0;
                        &&& ref_in_range(rf, dbs@)
                        &&& (rf.spec_db() < di || (rf.spec_db() == di && rf.spec_pkg() < pi))
                        &&& *reqs@[k].1 == pkg_at(dbs@, rf.spec_db(), rf.spec_pkg())
                        &&& pkg_depends_on(pkg_at(dbs@, rf.spec_db(), rf.spec_pkg()).desc, pkg.desc)
                    },
                forall|d: int, q: int|
                    #![trigger pkg_at(dbs@, d, q)]
                    0 <= d < dbs@.len() && 0 <= q < dbs@[d].pkgs@.len() && (d < di || (d == di && q
                        < pi)) && pkg_depends_on(pkg_at(dbs@, d, q).desc, pkg.desc) ==> exists|
                        k: int,
                    |
                        0 <= k < reqs@.len() && (#[trigger] reqs@[k]).0.spec_db() == d
                            && reqs@[k].0.spec_pkg() == q,
                forall|k1: int, k2: int|
                    0 <= k1 < k2 < reqs@.len() ==> ((#[trigger] reqs@[k1]).0.spec_db()
                        < (#[trigger] reqs@[k2]).0.spec_db() || (reqs@[k1].0.spec_db()
                        == reqs@[k2].0.spec_db() && reqs@[k1].0.spec_pkg()
                        < reqs@[k2].0.spec_pkg())),
            decreases m - pi,
        {
            let pkg2 = &db.pkgs[pi];
            let ghost prev = reqs@;
            proof {
                assert(pkg_at(dbs@, di as int, pi as int) == *pkg2);
            }
            let matched = pkg_matches_dep(&pkg.desc, &pkg2.desc);
            if matched {
                let rf = PkgRef::from_components(DbIdx::from_usize(di), PkgIdx::from_usize(pi));
                reqs.push((rf, pkg2));
                proof {
                    assert(reqs@[prev.len() as int].0.spec_db() == di as int);
                    assert(reqs@[prev.len() as int].0.spec_pkg() == pi as int);
                }
            }
            proof {
                assert forall|d: int, q: int|
                    #![trigger pkg_at(dbs@, d, q)]
                    0 <= d < dbs@.len() && 0 <= q < dbs@[d].pkgs@.len() && (d < di || (d
                        == di as int && q < pi + 1)) && pkg_depends_on(
                        pkg_at(dbs@, d, q).desc,
                        pkg.desc,
                    ) implies exists|k: int|
                    0 <= k < reqs@.len() && (#[trigger] reqs@[k]).0.spec_db() == d
                        && reqs@[k].0.spec_pkg() == q by {
                    if d == di as int && q == pi as int {
                        assert(matched);
                        assert(reqs@[prev.len() as int].0.spec_db() == d && reqs@[prev.len()
                            as int].0.spec_pkg() == q);
                    } else {
                        let k0 = choose|k: int|
                            0 <= k < prev.len() && (#[trigger] prev[k]).0.spec_db() == d
                                && prev[k].0.spec_pkg() == q;
                        assert(reqs@[k0] == prev[k0]);
                        assert(reqs@[k0].0.spec_db() == d && reqs@[k0].0.spec_pkg() == q);
                    }
                }
            }
            pi = pi + 1;
        }
        di = di + 1;
    }
    reqs
}

/// Whether `pkg` optionally depends on `dependency`.
pub fn pkg_optionally_depends_on(pkg: &Pkg, dependency: &Pkg) -> (r: bool)
    ensures
        r == pkg_opt_depends_on(pkg.desc, dependency.desc),
{
    pkg_matches_opt_dep(&dependency.desc, &pkg.desc)
}

/// Every package across all databases that optionally depends on
/// `dependency`. Results keep database order, then in-database order.
pub fn pkgs_that_optionally_depend_on<'db>(dependency: &Pkg, dbs: &'db Dbs) -> (r: Vec<
    (PkgRef, &'db Pkg),
>)
    requires
        dbs.wf(),
    ensures
        forall|k: int|
            0 <= k < r@.len() ==> {
                let rf = (#[trigger] r@[k]).0;
                &&& ref_in_range(rf, dbs@)
                &&& *r@[k].1 == pkg_at(dbs@, rf.spec_db(), rf.spec_pkg())
                &&& pkg_opt_depends_on(
                    pkg_at(dbs@, rf.spec_db(), rf.spec_pkg()).desc,
                    dependency.desc,
                )
            },
        forall|d: int, q: int|
            #![trigger pkg_at(dbs@, d, q)]
            0 <= d < dbs@.len() && 0 <= q < dbs@[d].pkgs@.len() && pkg_opt_depends_on(
                pkg_at(dbs@, d, q).desc,
                dependency.desc,
            ) ==> exists|k: int|
                0 <= k < r@.len() && (#[trigger] r@[k]).0.spec_db() == d && r@[k].0.spec_pkg() == q,
        forall|k1: int, k2: int|
            0 <= k1 < k2 < r@.len() ==> ((#[trigger] r@[k1]).0.spec_db() < (#[trigger] r@[k2]).0.spec_db()
                || (r@[k1].0.spec_db() == r@[k2].0.spec_db() && r@[k1].0.spec_pkg()
                < r@[k2].0.spec_pkg())),
{
    let mut found: Vec<(PkgRef, &'db Pkg)> = Vec::new();
    let n = dbs.len();
    let mut di: usize = 0;
    while di < n
        invariant
            dbs.wf(),
            n == dbs@.len(),
            di <= n,
            forall|k: int|
                0 <= k < found@.len() ==> {
                    let rf = (#[trigger] found@[k]).0;
                    &&& ref_in_range(rf, dbs@)
                    &&& rf.spec_db() < di
                    &&& *found@[k].1 == pkg_at(dbs@, rf.spec_db(), rf.spec_pkg())
                    &&& pkg_opt_depends_on(
                        pkg_at(dbs@, rf.spec_db(), rf.spec_pkg()).desc,
                        dependency.desc,
                    )
                },
            forall|d: int, q: int|
                #![trigger pkg_at(dbs@, d, q)]
                0 <= d < di && 0 <= q < dbs@[d].pkgs@.len() && pkg_opt_depends_on(
                    pkg_at(dbs@, d, q).desc,
                    dependency.desc,
                ) ==> exists|k: int|
                    0 <= k < found@.len() && (#[trigger] found@[k]).0.spec_db() == d
                        && found@[k].0.spec_pkg() == q,
            forall|k1: int, k2: int|
                0 <= k1 < k2 < found@.len() ==> ((#[trigger] found@[k1]).0.spec_db()
                    < (#[trigger] found@[k2]).0.spec_db() || (found@[k1].0.spec_db()
                    == found@[k2].0.spec_db() && found@[k1].0.spec_pkg()
                    < found@[k2].0.spec_pkg())),
        decreases n - di,
    {
        let db = dbs.db_at(di);
        let m = db.pkgs.len();
        let mut pi: usize = 0;
        while pi < m
            invariant
                dbs.wf(),
                di < dbs@.len(),
                m == dbs@[di as int].pkgs@.len(),
                *db == dbs@[di as int],
                pi <= m,
                forall|k: int|
                    0 <= k < found@.len() ==> {
                        let rf = (#[trigger] found@[k]).0;
                        &&& ref_in_range(rf, dbs@)
                        &&& (rf.spec_db() < di || (rf.spec_db() == di && rf.spec_pkg() < pi))
                        &&& *found@[k].1 == pkg_at(dbs@, rf.spec_db(), rf.spec_pkg())
                        &&& pkg_opt_depends_on(
                            pkg_at(dbs@, rf.spec_db(), rf.spec_pkg()).desc,
                            dependency.desc,
                        )
                    },
                forall|d: int, q: int|
                    #![trigger pkg_at(dbs@, d, q)]
                    0 <= d < dbs@.len() && 0 <= q < dbs@[d].pkgs@.len() && (d < di || (d == di && q
                        < pi)) && pkg_opt_depends_on(pkg_at(dbs@, d, q).desc, dependency.desc)
                        ==> exists|k: int|
                        0 <= k < found@.len() && (#[trigger] found@[k]).0.spec_db() == d
                            && found@[k].0.spec_pkg() == q,
                forall|k1: int, k2: int|
                    0 <= k1 < k2 < found@.len() ==> ((#[trigger] found@[k1]).0.spec_db()
                        < (#[trigger] found@[k2]).0.spec_db() || (found@[k1].0.spec_db()
                        == found@[k2].0.spec_db() && found@[k1].0.spec_pkg()
                        < found@[k2].0.spec_pkg())),
            decreases m - pi,
        {
            let pkg2 = &db.pkgs[pi];
            let ghost prev = found@;
            proof {
                assert(pkg_at(dbs@, di as int, pi as int) == *pkg2);
            }
            let matched = pkg_optionally_depends_on(pkg2, dependency);
            if matched {
                let rf = PkgRef::from_components(DbIdx::from_usize(di), PkgIdx::from_usize(pi));
                found.push((rf, pkg2));
                proof {
                    assert(found@[prev.len() as int].0.spec_db() == di as int);
                    assert(found@[prev.len() as int].0.spec_pkg() == pi as int);
                }
            }
            proof {
                assert forall|d: int, q: int|
                    #![trigger pkg_at(dbs@, d, q)]
                    0 <= d < dbs@.len() && 0 <= q < dbs@[d].pkgs@.len() && (d < di || (d
                        == di as int && q < pi + 1)) && pkg_opt_depends_on(
                        pkg_at(dbs@, d, q).desc,
                        dependency.desc,
                    ) implies exists|k: int|
                    0 <= k < found@.len() && (#[trigger] found@[k]).0.spec_db() == d
                        && found@[k].0.spec_pkg() == q by {
                    if d == di as int && q == pi as int {
                        assert(matched);
                        assert(found@[prev.len() as int].0.spec_db() == d && found@[prev.len()
                            as int].0.spec_pkg() == q);
                    } else {
                        let k0 = choose|k: int|
                            0 <= k < prev.len() && (#[trigger] prev[k]).0.spec_db() == d
                                && prev[k].0.spec_pkg() == q;
                        assert(found@[k0] == prev[k0]);
                        assert(found@[k0].0.spec_db() == d && found@[k0].0.spec_pkg() == q);
                    }
                }
            }
            pi = pi + 1;
        }
        di = di + 1;
    }
    found
}

} // verus!
