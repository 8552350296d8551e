//! Determining which local packages have a newer version in a sync
//! database.

use crate::packages::Db;
use crate::packages::DbIdx;
use crate::packages::Dbs;
use crate::packages::PkgIdx;
use crate::packages::PkgRef;
use crate::util::str_eq;
use crate::vercmp::AbCmp;
use crate::vercmp::vercmp;
use crate::vercmp::vercmp_spec;
use vstd::prelude::*;
use vstd::string::StringSliceAdditionalSpecFns;
use vstd::utf8::encode_utf8;

verus! {

/// A pending upgrade: the local package and the newer remote package.
#[derive(Clone, Copy, Debug, PartialEq, Eq, Structural)]
pub struct Upgrade {
    pub local: PkgIdx,
    pub remote: PkgRef,
}

/// The sync-database package at `(d, p)` upgrades the local package at
/// `li`: same name, and its version is newer.
pub open spec fn is_upgrade(dbs: Seq<Db>, li: int, d: int, p: int) -> bool {
    &&& 0 <= li < dbs[0].pkgs@.len()
    &&& 1 <= d < dbs.len()
    &&& 0 <= p < dbs[d].pkgs@.len()
    &&& dbs[d].pkgs@[p].desc.name@ == dbs[0].pkgs@[li].desc.name@
    &&& vercmp_spec(
        encode_utf8(dbs[d].pkgs@[p].desc.version@),
        encode_utf8(dbs[0].pkgs@[li].desc.version@),
    ) is ANewer
}

/// An upgrade entry lexicographically precedes the scan position
/// `(li, d, p)`.
pub open spec fn upg_before(u: Upgrade, li: int, d: int, p: int) -> bool {
    ||| u.local.as_int() < li
    ||| (u.local.as_int() == li && (u.remote.spec_db() < d || (u.remote.spec_db() == d
        && u.remote.spec_pkg() < p)))
}

/// Scan every local package against every sync database and report each
/// remote package of the same name with a newer version, in local-list
/// order, then database order, then in-database order.
pub fn determine_upgrades(dbs: &Dbs) -> (r: Vec<Upgrade>)
    requires
        dbs.wf(),
    ensures
        forall|k: int|
            0 <= k < r@.len() ==> is_upgrade(
                dbs@,
                (#[trigger] r@[k]).local.as_int(),
                r@[k].remote.spec_db(),
                r@[k].remote.spec_pkg(),
            ),
        forall|li: int, d: int, p: int|
            #![trigger is_upgrade(dbs@, li, d, p)]
            is_upgrade(dbs@, li, d, p) ==> exists|k: int|
                0 <= k < r@.len() && (#[trigger] r@[k]).local.as_int() == li
                    && r@[k].remote.spec_db() == d && r@[k].remote.spec_pkg() == p,
        forall|k1: int, k2: int|
            0 <= k1 < k2 < r@.len() ==> upg_before(
                #[trigger] r@[k1],
                (#[trigger] r@[k2]).local.as_int(),
                r@[k2].remote.spec_db(),
                r@[k2].remote.spec_pkg(),
            ),
{
    let mut out: Vec<Upgrade> = Vec::new();
    let n = dbs.len();
    let locals = dbs.local_pkgs();
    let nl = locals.len();
    let mut li: usize = 0;
    while li < nl
        invariant
            dbs.wf(),
            n == dbs@.len(),
            locals@ == dbs@[0].pkgs@,
            nl == locals@.len(),
            li <= nl,
            forall|k: int| 0 <= k < out@.len() ==> upg_before(#[trigger] out@[k], li as int, 1, 0),
            forall|k: int|
                0 <= k < out@.len() ==> is_upgrade(
                    dbs@,
                    (#[trigger] out@[k]).local.as_int(),
                    out@[k].remote.spec_db(),
                    out@[k].remote.spec_pkg(),
                ),
            forall|l: int, d: int, p: int|
                #![trigger is_upgrade(dbs@, l, d, p)]
                is_upgrade(dbs@, l, d, p) && l < li ==> exists|k: int|
                    0 <= k < out@.len() && (#[trigger] out@[k]).local.as_int() == l
                        && out@[k].remote.spec_db() == d && out@[k].remote.spec_pkg() == p,
            forall|k1: int, k2: int|
                0 <= k1 < k2 < out@.len() ==> upg_before(
                    #[trigger] out@[k1],
                    (#[trigger] out@[k2]).local.as_int(),
                    out@[k2].remote.spec_db(),
                    out@[k2].remote.spec_pkg(),
                ),
        decreases nl - li,
    {
        let local = &locals[li];
        let mut di: usize = 1;
        while di < n
            invariant
                dbs.wf(),
                n == dbs@.len(),
                locals@ == dbs@[0].pkgs@,
                nl == locals@.len(),
                li < nl,
                *local == dbs@[0].pkgs@[li as int],
                1 <= di <= n,
                forall|k: int|
                    0 <= k < out@.len() ==> upg_before(#[trigger] out@[k], li as int, di as int, 0),
                forall|k: int|
                    0 <= k < out@.len() ==> is_upgrade(
                        dbs@,
                        (#[trigger] out@[k]).local.as_int(),
                        out@[k].remote.spec_db(),
                        out@[k].remote.spec_pkg(),
                    ),
                forall|l: int, d: int, p: int|
                    #![trigger is_upgrade(dbs@, l, d, p)]
                    is_upgrade(dbs@, l, d, p) && (l < li || (l == li && d < di)) ==> exists|k: int|
                        0 <= k < out@.len() && (#[trigger] out@[k]).local.as_int() == l
                            && out@[k].remote.spec_db() == d && out@[k].remote.spec_pkg() == p,
                forall|k1: int, k2: int|
                    0 <= k1 < k2 < out@.len() ==> upg_before(
                        #[trigger] out@[k1],
                        (#[trigger] out@[k2]).local.as_int(),
                        out@[k2].remote.spec_db(),
                        out@[k2].remote.spec_pkg(),
                    ),
            decreases n - di,
        {
            let db = dbs.db_at(di);
            let m = db.pkgs.len();
            let mut ri: usize = 0;
            while ri < m
                invariant
                    dbs.wf(),
                    n == dbs@.len(),
                    locals@ == dbs@[0].pkgs@,
                    nl == locals@.len(),
                    li < nl,
                    *local == dbs@[0].pkgs@[li as int],
                    1 <= di < n,
                    *db == dbs@[di as int],
                    m == dbs@[di as int].pkgs@.len(),
                    ri <= m,
                    forall|k: int|
                        0 <= k < out@.len() ==> upg_before(
                            #[trigger] out@[k],
                            li as int,
                            di as int,
                            ri as int,
                        ),
                    forall|k: int|
                        0 <= k < out@.len() ==> is_upgrade(
                            dbs@,
                            (#[trigger] out@[k]).local.as_int(),
                            out@[k].remote.spec_db(),
                            out@[k].remote.spec_pkg(),
                        ),
                    forall|l: int, d: int, p: int|
                        #![trigger is_upgrade(dbs@, l, d, p)]
                        is_upgrade(dbs@, l, d, p) && (l < li || (l == li && (d < di || (d == di && p
                            < ri)))) ==> exists|k: int|
                            0 <= k < out@.len() && (#[trigger] out@[k]).local.as_int() == l
                                && out@[k].remote.spec_db() == d && out@[k].remote.spec_pkg() == p,
                    forall|k1: int, k2: int|
                        0 <= k1 < k2 < out@.len() ==> upg_before(
                            #[trigger] out@[k1],
                            (#[trigger] out@[k2]).local.as_int(),
                            out@[k2].remote.spec_db(),
                            out@[k2].remote.spec_pkg(),
                        ),
                decreases m - ri,
            {
                let remote = &db.pkgs[ri];
                let ghost prev = out@;
                let mut push_it = false;
                if str_eq(remote.desc.name.as_str(), local.desc.name.as_str()) {
                    match vercmp(remote.desc.version.as_str(), local.desc.version.as_str()) {
                        AbCmp::ANewer => {
                            push_it = true;
                        },
                        _ => {},
                    }
                }
                if push_it {
                    let upg = Upgrade {
                        local: PkgIdx::from_usize(li),
                        remote: PkgRef::from_components(
                            DbIdx::from_usize(di),
                            PkgIdx::from_usize(ri),
                        ),
                    };
                    out.push(upg);
                    proof {
                        assert(out@[prev.len() as int].local.as_int() == li as int);
                        assert(out@[prev.len() as int].remote.spec_db() == di as int);
                        assert(out@[prev.len() as int].remote.spec_pkg() == ri as int);
                    }
                }
                proof {
                    assert(push_it == is_upgrade(dbs@, li as int, di as int, ri as int));
                    assert forall|l: int, d: int, p: int|
                        #![trigger is_upgrade(dbs@, l, d, p)]
                        is_upgrade(dbs@, l, d, p) && (l < li || (l == li && (d < di || (d
                            == di as int && p < ri + 1)))) implies exists|k: int|
                        0 <= k < out@.len() && (#[trigger] out@[k]).local.as_int() == l
                            && out@[k].remote.spec_db() == d && out@[k].remote.spec_pkg() == p by {
                        if l == li as int && d == di as int && p == ri as int {
                            assert(push_it);
                            assert(out@[prev.len() as int].local.as_int() == l
                                && out@[prev.len() as int].remote.spec_db() == d
                                && out@[prev.len() as int].remote.spec_pkg() == p);
                        } else {
                            let k0 = choose|k: int|
                                0 <= k < prev.len() && (#[trigger] prev[k]).local.as_int() == l
                                    && prev[k].remote.spec_db() == d && prev[k].remote.spec_pkg()
                                    == p;
                            assert(out@[k0] == prev[k0]);
                        }
                    }
                }
                ri = ri + 1;
            }
            di = di + 1;
        }
        li = li + 1;
    }
    out
}

} // verus!
