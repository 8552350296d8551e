//! Applying a compiled query to the package lists: which local and
//! remote packages a list view shows.

use crate::deps::RemoteLocalCmp;
use crate::deps::find_name_from;
use crate::deps::pkg_at;
use crate::deps::ref_in_range;
use crate::deps::remote_cmp_of;
use crate::deps::remote_local_cmp;
use crate::desc::InstallReason;
use crate::desc::Pkg;
use crate::desc::PkgDesc;
use crate::packages::DbIdx;
use crate::packages::Dbs;
use crate::packages::PkgIdx;
use crate::packages::PkgRef;
use crate::query_syntax::PkgListQuery;
use crate::query_syntax::QueryFlags;
use crate::vercmp::vercmp_spec;
use vstd::prelude::*;
use vstd::string::StringSliceAdditionalSpecFns;
use vstd::utf8::encode_utf8;

verus! {

/// ASCII lowercase of one byte.
pub open spec fn lower_byte(b: u8) -> u8 {
    if 65 <= b <= 90 {
        (b + 32) as u8
    } else {
        b
    }
}

/// ASCII lowercase of a byte string.
pub open spec fn lower_bytes(s: Seq<u8>) -> Seq<u8> {
    s.map_values(|b: u8| lower_byte(b))
}

/// `n` occurs as a contiguous substring of `h`.
pub open spec fn contains_sub(h: Seq<u8>, n: Seq<u8>) -> bool {
    exists|k: int| 0 <= k && k + n.len() <= h.len() && #[trigger] h.subrange(k, k + n.len()) == n
}

fn to_lower_vec(s: &[u8]) -> (r: Vec<u8>)
    ensures
        r@ == lower_bytes(s@),
{
    let mut out: Vec<u8> = Vec::new();
    let mut i: usize = 0;
    while i < s.len()
        invariant
            i <= s@.len(),
            out@.len() == i,
            forall|j: int| 0 <= j < i ==> out@[j] == lower_byte(s@[j]),
        decreases s@.len() - i,
    {
        let b = s[i];
        if 65 <= b && b <= 90 {
            out.push(b + 32);
        } else {
            out.push(b);
        }
        i = i + 1;
    }
    proof {
        assert(out@ =~= lower_bytes(s@));
    }
    out
}

fn match_at(h: &[u8], n: &[u8], k: usize) -> (r: bool)
    requires
        k + n@.len() <= h@.len(),
    ensures
        r == (h@.subrange(k as int, k + n@.len()) == n@),
{
    let ghost target = h@.subrange(k as int, k + n@.len());
    let hl = h.len();
    let nl = n.len();
    let mut j: usize = 0;
    while j < nl
        invariant
            hl == h@.len(),
            nl == n@.len(),
            k + nl <= hl,
            j <= nl,
            target == h@.subrange(k as int, k + n@.len()),
            forall|m: int| 0 <= m < j ==> target[m] == n@[m],
        decreases nl - j,
    {
        proof {
            assert(target[j as int] == h@[k + j]);
        }
        if h[k + j] != n[j] {
            return false;
        }
        j = j + 1;
    }
    proof {
        assert(target =~= n@);
    }
    true
}

/// Whether `n` occurs as a contiguous substring of `h`.
pub fn contains_bytes(h: &[u8], n: &[u8]) -> (r: bool)
    ensures
        r == contains_sub(h@, n@),
{
    if n.len() > h.len() {
        return false;
    }
    if n.len() == 0 {
        proof {
            let zero: int = 0;
            assert(h@.subrange(zero, zero + n@.len()) =~= n@);
            assert(contains_sub(h@, n@));
        }
        return true;
    }
    let bound = h.len() - n.len();
    let mut k: usize = 0;
    while k <= bound
        invariant
            1 <= n@.len() <= h@.len(),
            bound == h@.len() - n@.len(),
            bound < usize::MAX,
            k <= bound + 1,
            forall|k2: int| 0 <= k2 < k ==> #[trigger] h@.subrange(k2, k2 + n@.len()) != n@,
        decreases bound + 1 - k,
    {
        if match_at(h, n, k) {
            return true;
        }
        k = k + 1;
    }
    false
}

/// The entries of a file list whose lowercased text contains `filt`, in
/// order.
pub open spec fn files_matching(l: Seq<Seq<char>>, filt: Seq<u8>) -> Seq<Seq<char>>
    decreases l.len(),
{
    if l.len() == 0 {
        Seq::<Seq<char>>::empty()
    } else {
        (if contains_sub(lower_bytes(encode_utf8(l[0])), filt) {
            seq![l[0]]
        } else {
            Seq::<Seq<char>>::empty()
        }) + files_matching(l.skip(1), filt)
    }
}

/// The file list a package's file tab shows: the deduplicated list,
/// narrowed case-insensitively to the entries containing the filter text.
pub fn filter_files(files: &[String], filt: &str) -> (r: Vec<String>)
    ensures
        r.deep_view() == files_matching(
            crate::util::dedup_spec(files.deep_view()),
            lower_bytes(encode_utf8(filt@)),
        ),
{
    let filt_lo = to_lower_vec(filt.as_bytes());
    let deduped = crate::util::deduped_files(files);
    let ghost dd = deduped.deep_view();
    let mut out: Vec<String> = Vec::new();
    let mut i: usize = 0;
    proof {
        assert(dd.skip(0) =~= dd);
    }
    while i < deduped.len()
        invariant
            dd == deduped.deep_view(),
            i <= dd.len(),
            filt_lo@ == lower_bytes(encode_utf8(filt@)),
            files_matching(dd, filt_lo@) =~= out.deep_view() + files_matching(
                dd.skip(i as int),
                filt_lo@,
            ),
        decreases dd.len() - i,
    {
        let entry = &deduped[i];
        let ghost prev = out.deep_view();
        let lowered = to_lower_vec(entry.as_str().as_bytes());
        proof {
            assert(dd.skip(i as int)[0] == dd[i as int]);
            assert(dd.skip(i as int).skip(1) =~= dd.skip(i as int + 1));
        }
        if contains_bytes(lowered.as_slice(), filt_lo.as_slice()) {
            out.push(entry.clone());
            proof {
                assert(out.deep_view() =~= prev + seq![dd[i as int]]);
            }
        }
        i = i + 1;
    }
    proof {
        assert(files_matching(dd.skip(dd.len() as int), filt_lo@) =~= Seq::<Seq<char>>::empty());
        assert(out.deep_view() =~= out.deep_view() + Seq::<Seq<char>>::empty());
    }
    out
}

/// A local package passes the query: when the query demands explicitly
/// installed packages the install reason must say so, and the package's
/// name, its lowercased description, or one of its provides entries
/// must contain the lowercased free text.
pub open spec fn local_pred(p: PkgDesc, q: PkgListQuery) -> bool {
    let filt = lower_bytes(encode_utf8(q.string@));
    &&& (q.flags.explicitly_installed ==> p.install_reason is Explicit)
    &&& {
        ||| contains_sub(encode_utf8(p.name@), filt)
        ||| (p.desc matches Some(d) && contains_sub(lower_bytes(encode_utf8(d@)), filt))
        ||| exists|j: int|
            0 <= j < p.provides@.len() && contains_sub(
                encode_utf8((#[trigger] p.provides@[j]).name@),
                filt,
            )
    }
}

fn local_pred_exec(p: &PkgDesc, filt: &[u8], q: &PkgListQuery) -> (r: bool)
    requires
        filt@ == lower_bytes(encode_utf8(q.string@)),
    ensures
        r == local_pred(*p, *q),
{
    let explicit = match p.install_reason {
        InstallReason::Explicit => true,
        InstallReason::Dep => false,
    };
    if q.flags.explicitly_installed && !explicit {
        return false;
    }
    if contains_bytes(p.name.as_str().as_bytes(), filt) {
        return true;
    }
    match &p.desc {
        Some(d) => {
            let lowered = to_lower_vec(d.as_str().as_bytes());
            if contains_bytes(lowered.as_slice(), filt) {
                return true;
            }
        },
        None => {},
    }
    let mut j: usize = 0;
    while j < p.provides.len()
        invariant
            j <= p.provides@.len(),
            filt@ == lower_bytes(encode_utf8(q.string@)),
            q.flags.explicitly_installed ==> p.install_reason is Explicit,
            forall|m: int|
                0 <= m < j ==> !contains_sub(
                    encode_utf8((#[trigger] p.provides@[m]).name@),
                    filt@,
                ),
        decreases p.provides@.len() - j,
    {
        if contains_bytes(p.provides[j].name.as_str().as_bytes(), filt) {
            proof {
                assert(contains_sub(encode_utf8((p.provides@[j as int]).name@), filt@));
            }
            return true;
        }
        j = j + 1;
    }
    false
}

/// The indices of the local packages a query shows, in list order.
pub fn filter_local_pkgs(dbs: &Dbs, query: &PkgListQuery) -> (r: Vec<PkgIdx>)
    requires
        dbs.wf(),
    ensures
        forall|k: int|
            0 <= k < r@.len() ==> 0 <= (#[trigger] r@[k]).as_int() < dbs@[0].pkgs@.len()
                && local_pred(dbs@[0].pkgs@[r@[k].as_int()].desc, *query),
        forall|i: int|
            0 <= i < dbs@[0].pkgs@.len() && local_pred((#[trigger] dbs@[0].pkgs@[i]).desc, *query)
                ==> exists|k: int| 0 <= k < r@.len() && (#[trigger] r@[k]).as_int() == i,
        forall|k1: int, k2: int|
            0 <= k1 < k2 < r@.len() ==> (#[trigger] r@[k1]).as_int() < (#[trigger] r@[k2]).as_int(),
{
    let filt = to_lower_vec(query.string.as_str().as_bytes());
    let locals = dbs.local_pkgs();
    let mut out: Vec<PkgIdx> = Vec::new();
    let mut i: usize = 0;
    while i < locals.len()
        invariant
            dbs.wf(),
            locals@ == dbs@[0].pkgs@,
            filt@ == lower_bytes(encode_utf8(query.string@)),
            i <= locals@.len(),
            forall|k: int|
                0 <= k < out@.len() ==> 0 <= (#[trigger] out@[k]).as_int() < i && local_pred(
                    locals@[out@[k].as_int()].desc,
                    *query,
                ),
            forall|j: int|
                0 <= j < i && local_pred((#[trigger] locals@[j]).desc, *query) ==> exists|k: int|
                    0 <= k < out@.len() && (#[trigger] out@[k]).as_int() == j,
            forall|k1: int, k2: int|
                0 <= k1 < k2 < out@.len() ==> (#[trigger] out@[k1]).as_int()
                    < (#[trigger] out@[k2]).as_int(),
        decreases locals@.len() - i,
    {
        let ghost prev = out@;
        let pkg = &locals[i];
        let matched = local_pred_exec(&pkg.desc, filt.as_slice(), query);
        if matched {
            out.push(PkgIdx::from_usize(i));
            proof {
                assert(out@[prev.len() as int].as_int() == i as int);
            }
        }
        proof {
            assert forall|j: int|
                0 <= j < i + 1 && local_pred((#[trigger] locals@[j]).desc, *query) implies exists|
                k: int,
            | 0 <= k < out@.len() && (#[trigger] out@[k]).as_int() == j by {
                if j == i as int {
                    assert(matched);
                    assert(out@[prev.len() as int].as_int() == j);
                } else {
                    let k0 = choose|k: int|
                        0 <= k < prev.len() && (#[trigger] prev[k]).as_int() == j;
                    assert(out@[k0] == prev[k0]);
                }
            }
        }
        i = i + 1;
    }
    out
}

/// The comparison against the first local package of the same name, if
/// there is one.
pub open spec fn local_cmp_for(locals: Seq<Pkg>, p: PkgDesc) -> Option<RemoteLocalCmp> {
    let fi = find_name_from(locals, p.name@, 0);
    if fi < locals.len() {
        Some(
            remote_cmp_of(
                vercmp_spec(encode_utf8(p.version@), encode_utf8(locals[fi].desc.version@)),
            ),
        )
    } else {
        None
    }
}

/// The flags left over after the remote package's relation to the local
/// one discharges what it can: an installed match discharges
/// `installed`, a newer remote discharges `newer`, an older remote
/// discharges `older`.
pub open spec fn effective_flags(f: QueryFlags, c: Option<RemoteLocalCmp>) -> QueryFlags {
    match c {
        Some(cc) => if f.installed || f.newer || f.older {
            QueryFlags {
                installed: false,
                newer: if cc is Newer {
                    false
                } else {
                    f.newer
                },
                older: if cc is Older {
                    false
                } else {
                    f.older
                },
                explicitly_installed: f.explicitly_installed,
            }
        } else {
            f
        },
        None => f,
    }
}

/// A remote package passes the query: every remote-comparison flag must
/// be discharged by its relation to the locally installed package, and
/// its name or lowercased description must contain the lowercased free
/// text.
pub open spec fn remote_pred(locals: Seq<Pkg>, q: PkgListQuery, p: PkgDesc) -> bool {
    let filt = lower_bytes(encode_utf8(q.string@));
    let f = effective_flags(q.flags, local_cmp_for(locals, p));
    &&& !(f.installed || f.newer || f.older)
    &&& {
        ||| contains_sub(encode_utf8(p.name@), filt)
        ||| (p.desc matches Some(d) && contains_sub(lower_bytes(encode_utf8(d@)), filt))
    }
}

fn remote_pred_exec(locals: &[Pkg], p: &PkgDesc, filt: &[u8], q: &PkgListQuery) -> (r: bool)
    requires
        locals@.len() <= u32::MAX,
        filt@ == lower_bytes(encode_utf8(q.string@)),
    ensures
        r == remote_pred(locals@, *q, *p),
{
    proof {
        crate::deps::lemma_find_name_from_bounds(locals@, p.name@, 0);
    }
    let flags = if q.flags.installed || q.flags.newer || q.flags.older {
        match remote_local_cmp(p, locals) {
            Some((_, cmp)) => QueryFlags {
                installed: false,
                newer: if matches!(cmp, RemoteLocalCmp::Newer) {
                    false
                } else {
                    q.flags.newer
                },
                older: if matches!(cmp, RemoteLocalCmp::Older) {
                    false
                } else {
                    q.flags.older
                },
                explicitly_installed: q.flags.explicitly_installed,
            },
            None => q.flags,
        }
    } else {
        q.flags
    };
    proof {
        assert(flags == effective_flags(q.flags, local_cmp_for(locals@, *p)));
    }
    if flags.installed || flags.newer || flags.older {
        return false;
    }
    if contains_bytes(p.name.as_str().as_bytes(), filt) {
        return true;
    }
    match &p.desc {
        Some(d) => {
            let lowered = to_lower_vec(d.as_str().as_bytes());
            contains_bytes(lowered.as_slice(), filt)
        },
        None => false,
    }
}

/// The references of the remote packages a query shows, in database
/// order then in-database order.
pub fn filter_remote_pkgs(dbs: &Dbs, query: &PkgListQuery) -> (r: Vec<PkgRef>)
    requires
        dbs.wf(),
    ensures
        forall|k: int|
            0 <= k < r@.len() ==> {
                let rf = #[trigger] r@[k];
                &&& ref_in_range(rf, dbs@)
                &&& rf.spec_db() >= 1
                &&& remote_pred(dbs@[0].pkgs@, *query, pkg_at(dbs@, rf.spec_db(), rf.spec_pkg()).desc)
            },
        forall|d: int, p: int|
            #![trigger pkg_at(dbs@, d, p)]
            1 <= d < dbs@.len() && 0 <= p < dbs@[d].pkgs@.len() && remote_pred(
                dbs@[0].pkgs@,
                *query,
                pkg_at(dbs@, d, p).desc,
            ) ==> exists|k: int|
                0 <= k < r@.len() && (#[trigger] r@[k]).spec_db() == d && r@[k].spec_pkg() == p,
        forall|k1: int, k2: int|
            0 <= k1 < k2 < r@.len() ==> ((#[trigger] r@[k1]).spec_db() < (#[trigger] r@[k2]).spec_db()
                || (r@[k1].spec_db() == r@[k2].spec_db() && r@[k1].spec_pkg() < r@[k2].spec_pkg())),
{
    let filt = to_lower_vec(query.string.as_str().as_bytes());
    let n = dbs.len();
    let mut out: Vec<PkgRef> = Vec::new();
    let mut di: usize = 1;
    while di < n
        invariant
            dbs.wf(),
            n == dbs@.len(),
            filt@ == lower_bytes(encode_utf8(query.string@)),
            1 <= di <= n,
            forall|k: int|
                0 <= k < out@.len() ==> {
                    let rf = #[trigger] out@[k];
                    &&& ref_in_range(rf, dbs@)
                    &&& 1 <= rf.spec_db() < di
                    &&& remote_pred(
                        dbs@[0].pkgs@,
                        *query,
                        pkg_at(dbs@, rf.spec_db(), rf.spec_pkg()).desc,
                    )
                },
            forall|d: int, p: int|
                #![trigger pkg_at(dbs@, d, p)]
                1 <= d < di && 0 <= p < dbs@[d].pkgs@.len() && remote_pred(
                    dbs@[0].pkgs@,
                    *query,
                    pkg_at(dbs@, d, p).desc,
                ) ==> exists|k: int|
                    0 <= k < out@.len() && (#[trigger] out@[k]).spec_db() == d && out@[k].spec_pkg()
                        == p,
            forall|k1: int, k2: int|
                0 <= k1 < k2 < out@.len() ==> ((#[trigger] out@[k1]).spec_db()
                    < (#[trigger] out@[k2]).spec_db() || (out@[k1].spec_db() == out@[k2].spec_db()
                    && out@[k1].spec_pkg() < out@[k2].spec_pkg())),
        decreases n - di,
    {
        let db = dbs.db_at(di);
        let m = db.pkgs.len();
        let mut pi: usize = 0;
        while pi < m
            invariant
                dbs.wf(),
                n == dbs@.len(),
                filt@ == lower_bytes(encode_utf8(query.string@)),
                1 <= di < n,
                *db == dbs@[di as int],
                m == dbs@[di as int].pkgs@.len(),
                pi <= m,
                forall|k: int|
                    0 <= k < out@.len() ==> {
                        let rf = #[trigger] out@[k];
                        &&& ref_in_range(rf, dbs@)
                        &&& 1 <= rf.spec_db()
                        &&& (rf.spec_db() < di || (rf.spec_db() == di && rf.spec_pkg() < pi))
                        &&& remote_pred(
                            dbs@[0].pkgs@,
                            *query,
                            pkg_at(dbs@, rf.spec_db(), rf.spec_pkg()).desc,
                        )
                    },
                forall|d: int, p: int|
                    #![trigger pkg_at(dbs@, d, p)]
                    1 <= d < dbs@.len() && 0 <= p < dbs@[d].pkgs@.len() && (d < di || (d == di && p
                        < pi)) && remote_pred(dbs@[0].pkgs@, *query, pkg_at(dbs@, d, p).desc)
                        ==> exists|k: int|
                        0 <= k < out@.len() && (#[trigger] out@[k]).spec_db() == d
                            && out@[k].spec_pkg() == p,
                forall|k1: int, k2: int|
                    0 <= k1 < k2 < out@.len() ==> ((#[trigger] out@[k1]).spec_db()
                        < (#[trigger] out@[k2]).spec_db() || (out@[k1].spec_db()
                        == out@[k2].spec_db() && out@[k1].spec_pkg() < out@[k2].spec_pkg())),
            decreases m - pi,
        {
            let pkg = &db.pkgs[pi];
            let ghost prev = out@;
            proof {
                assert(pkg_at(dbs@, di as int, pi as int) == *pkg);
            }
            let matched = remote_pred_exec(dbs.local_pkgs().as_slice(), &pkg.desc, filt.as_slice(), query);
            if matched {
                let rf = PkgRef::from_components(DbIdx::from_usize(di), PkgIdx::from_usize(pi));
                out.push(rf);
                proof {
                    assert(out@[prev.len() as int].spec_db() == di as int);
                    assert(out@[prev.len() as int].spec_pkg() == pi as int);
                }
            }
            proof {
                assert forall|d: int, p: int|
                    #![trigger pkg_at(dbs@, d, p)]
                    1 <= d < dbs@.len() && 0 <= p < dbs@[d].pkgs@.len() && (d < di || (d
                        == di as int && p < pi + 1)) && remote_pred(
                        dbs@[0].pkgs@,
                        *query,
                        pkg_at(dbs@, d, p).desc,
                    ) implies exists|k: int|
                    0 <= k < out@.len() && (#[trigger] out@[k]).spec_db() == d && out@[k].spec_pkg()
                        == p by {
                    if d == di as int && p == pi as int {
                        assert(matched);
                        assert(out@[prev.len() as int].spec_db() == d && out@[prev.len()
                            as int].spec_pkg() == p);
                    } else {
                        let k0 = choose|k: int|
                            0 <= k < prev.len() && (#[trigger] prev[k]).spec_db() == d
                                && prev[k].spec_pkg() == p;
                        assert(out@[k0] == prev[k0]);
                    }
                }
            }
            pi = pi + 1;
        }
        di = di + 1;
    }
    out
}

} // verus!
