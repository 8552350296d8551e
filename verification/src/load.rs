//! The computational part of a database load: each database's package
//! list is sorted by name before use, and the initial (unfiltered)
//! package lists are derived from the finished snapshot.

use crate::desc::Pkg;
use crate::packages::DbIdx;
use crate::packages::Dbs;
use crate::packages::PkgCache;
use crate::packages::PkgIdx;
use crate::packages::PkgRef;
use vstd::multiset::Multiset;
use vstd::prelude::*;
use vstd::seq_lib::lemma_multiset_commutative;

verus! {

/// Lexicographic order on character sequences: a proper prefix comes
/// first, otherwise the first differing character decides.
pub open spec fn chars_le(a: Seq<char>, b: Seq<char>) -> bool
    decreases a.len(),
{
    if a.len() == 0 {
        true
    } else if b.len() == 0 {
        false
    } else if (a[0] as u32) == (b[0] as u32) {
        chars_le(a.skip(1), b.skip(1))
    } else {
        (a[0] as u32) < (b[0] as u32)
    }
}

pub proof fn lemma_chars_le_total(a: Seq<char>, b: Seq<char>)
    ensures
        chars_le(a, b) || chars_le(b, a),
    decreases a.len(),
{
    if a.len() > 0 && b.len() > 0 && (a[0] as u32) == (b[0] as u32) {
        lemma_chars_le_total(a.skip(1), b.skip(1));
    }
}

pub proof fn lemma_chars_le_trans(a: Seq<char>, b: Seq<char>, c: Seq<char>)
    requires
        chars_le(a, b),
        chars_le(b, c),
    ensures
        chars_le(a, c),
    decreases a.len(),
{
    if a.len() > 0 && b.len() > 0 && c.len() > 0 && (a[0] as u32) == (b[0] as u32) && (b[0] as u32)
        == (c[0] as u32) {
        lemma_chars_le_trans(a.skip(1), b.skip(1), c.skip(1));
    }
}

/// Whether `a` sorts at or before `b`.
pub fn name_le(a: &str, b: &str) -> (r: bool)
    ensures
        r == chars_le(a@, b@),
{
    let la = a.unicode_len();
    let lb = b.unicode_len();
    let mut k: usize = 0;
    proof {
        assert(a@.skip(0) =~= a@);
        assert(b@.skip(0) =~= b@);
    }
    loop
        invariant
            la == a@.len(),
            lb == b@.len(),
            k <= la,
            k <= lb,
            chars_le(a@, b@) == chars_le(a@.skip(k as int), b@.skip(k as int)),
        decreases la - k,
    {
        let ghost ta = a@.skip(k as int);
        let ghost tb = b@.skip(k as int);
        if k == la {
            proof {
                assert(ta.len() == 0);
            }
            return true;
        }
        if k == lb {
            proof {
                assert(ta.len() != 0 && tb.len() == 0);
            }
            return false;
        }
        let ca = a.get_char(k);
        let cb = b.get_char(k);
        proof {
            assert(ta[0] == a@[k as int]);
            assert(tb[0] == b@[k as int]);
        }
        if (ca as u32) != (cb as u32) {
            return (ca as u32) < (cb as u32);
        }
        proof {
            assert(ta.skip(1) =~= a@.skip(k + 1));
            assert(tb.skip(1) =~= b@.skip(k + 1));
        }
        k = k + 1;
    }
}

/// The packages are ordered by name.
pub open spec fn sorted_by_name(s: Seq<Pkg>) -> bool {
    forall|i: int, j: int|
        0 <= i < j < s.len() ==> chars_le(
            (#[trigger] s[i]).desc.name@,
            (#[trigger] s[j]).desc.name@,
        )
}

proof fn lemma_insert_multiset(s: Seq<Pkg>, pos: int, x: Pkg)
    requires
        0 <= pos <= s.len(),
    ensures
        s.insert(pos, x).to_multiset() =~= s.to_multiset().insert(x),
{
    broadcast use vstd::multiset::group_multiset_axioms;

    let t = s.take(pos) + (seq![x] + s.skip(pos));
    assert(s.insert(pos, x) =~= t);
    lemma_multiset_commutative(s.take(pos), seq![x] + s.skip(pos));
    lemma_multiset_commutative(seq![x], s.skip(pos));
    lemma_multiset_commutative(s.take(pos), s.skip(pos));
    assert(s.take(pos) + s.skip(pos) =~= s);
    assert(seq![x] =~= Seq::<Pkg>::empty().push(x));
    Seq::<Pkg>::empty().to_multiset_ensures();
    assert(seq![x].to_multiset() =~= Multiset::<Pkg>::empty().insert(x));
}

/// Sort a package list by name with a stable insertion sort: the result
/// holds exactly the same packages, ordered by name.
pub fn sort_pkgs_by_name(pkgs: &mut Vec<Pkg>)
    ensures
        final(pkgs)@.len() == old(pkgs)@.len(),
        final(pkgs)@.to_multiset() == old(pkgs)@.to_multiset(),
        sorted_by_name(final(pkgs)@),
{
    let mut i: usize = 1;
    while i < pkgs.len()
        invariant
            i >= 1,
            i <= pkgs@.len() || pkgs@.len() < 2,
            pkgs@.len() == old(pkgs)@.len(),
            pkgs@.to_multiset() == old(pkgs)@.to_multiset(),
            i <= pkgs@.len() ==> sorted_by_name(pkgs@.take(i as int)),
        decreases pkgs@.len() - i,
    {
        let ghost v0 = pkgs@;
        let x = pkgs.remove(i);
        let ghost v1 = pkgs@;
        proof {
            v0.to_multiset_ensures();
            assert(v1.to_multiset() =~= v0.to_multiset().remove(x));
            assert(v0.to_multiset().contains(x)) by {
                assert(v0[i as int] == x);
                assert(v0.contains(x));
            }
        }
        let mut pos: usize = 0;
        while pos < i && name_le(pkgs[pos].desc.name.as_str(), x.desc.name.as_str())
            invariant
                pos <= i,
                i < v0.len(),
                v1 == pkgs@,
                v1.len() == v0.len() - 1,
                forall|m: int| 0 <= m < pos ==> chars_le((#[trigger] v1[m]).desc.name@, x.desc.name@),
            decreases i - pos,
        {
            pos = pos + 1;
        }
        proof {
            if pos < i {
                lemma_chars_le_total(v1[pos as int].desc.name@, x.desc.name@);
            }
        }
        pkgs.insert(pos, x);
        proof {
            broadcast use vstd::multiset::group_multiset_axioms;

            lemma_insert_multiset(v1, pos as int, x);
            assert(pkgs@.to_multiset() =~= v0.to_multiset());
            // the sorted prefix grew by one
            assert(v1.take(i as int) =~= v0.take(i as int));
            assert forall|m: int, mm: int| 0 <= m < mm < i + 1 implies chars_le(
                (#[trigger] pkgs@[m]).desc.name@,
                (#[trigger] pkgs@[mm]).desc.name@,
            ) by {
                v1.insert_ensures(pos as int, x);
                let nm = if m < pos {
                    v1[m].desc.name@
                } else if m == pos {
                    x.desc.name@
                } else {
                    v1[m - 1].desc.name@
                };
                assert(pkgs@[m].desc.name@ == nm);
                let nmm = if mm < pos {
                    v1[mm].desc.name@
                } else if mm == pos {
                    x.desc.name@
                } else {
                    v1[mm - 1].desc.name@
                };
                assert(pkgs@[mm].desc.name@ == nmm);
                if mm < pos || (m != pos && mm != pos) {
                    // both sides come from the already-sorted prefix of v1
                } else if m < pos && mm == pos {
                    // nm <= x by the scan
                } else if m == pos {
                    // x <= v1[pos] by the scan's exit, and onwards by order
                    if mm - 1 > pos {
                        lemma_chars_le_trans(
                            x.desc.name@,
                            v1[pos as int].desc.name@,
                            v1[mm - 1].desc.name@,
                        );
                    }
                } else {
                    // m < pos < mm: nm <= x <= nmm
                    lemma_chars_le_trans(v1[m].desc.name@, x.desc.name@, nmm);
                    if mm - 1 > pos {
                        lemma_chars_le_trans(
                            x.desc.name@,
                            v1[pos as int].desc.name@,
                            v1[mm - 1].desc.name@,
                        );
                        lemma_chars_le_trans(v1[m].desc.name@, x.desc.name@, v1[mm - 1].desc.name@);
                    }
                }
            }
            assert(sorted_by_name(pkgs@.take(i + 1)));
        }
        i = i + 1;
    }
    proof {
        if pkgs@.len() >= 1 {
            assert(pkgs@.take(pkgs@.len() as int) =~= pkgs@);
        }
    }
}

/// Some reference of the list carries exactly these database and
/// package indices.
pub open spec fn covers(rs: Seq<PkgRef>, d: int, p: int) -> bool {
    exists|k: int| 0 <= k < rs.len() && (#[trigger] rs[k]).spec_db() == d && rs[k].spec_pkg() == p
}

/// The unfiltered package lists of a fresh snapshot: every local index,
/// and every remote reference in database order then in-database order.
pub fn initial_cache(dbs: &Dbs) -> (r: PkgCache)
    requires
        dbs.wf(),
    ensures
        r.filt_local_pkgs@.len() == dbs@[0].pkgs@.len(),
        forall|k: int|
            0 <= k < r.filt_local_pkgs@.len() ==> (#[trigger] r.filt_local_pkgs@[k]).as_int() == k,
        forall|k: int|
            0 <= k < r.filt_remote_pkgs@.len() ==> {
                let rf = #[trigger] r.filt_remote_pkgs@[k];
                &&& 1 <= rf.spec_db() < dbs@.len()
                &&& 0 <= rf.spec_pkg() < dbs@[rf.spec_db()].pkgs@.len()
            },
        forall|d: int, p: int|
            1 <= d < dbs@.len() && 0 <= p < dbs@[d].pkgs@.len() ==> #[trigger] covers(
                r.filt_remote_pkgs@,
                d,
                p,
            ),
        forall|k1: int, k2: int|
            0 <= k1 < k2 < r.filt_remote_pkgs@.len() ==> ((#[trigger] r.filt_remote_pkgs@[k1]).spec_db()
                < (#[trigger] r.filt_remote_pkgs@[k2]).spec_db() || (r.filt_remote_pkgs@[k1].spec_db()
                == r.filt_remote_pkgs@[k2].spec_db() && r.filt_remote_pkgs@[k1].spec_pkg()
                < r.filt_remote_pkgs@[k2].spec_pkg())),
{
    let mut local: Vec<PkgIdx> = Vec::new();
    let nl = dbs.local_pkgs().len();
    let mut i: usize = 0;
    while i < nl
        invariant
            dbs.wf(),
            nl == dbs@[0].pkgs@.len(),
            i <= nl,
            local@.len() == i,
            forall|k: int| 0 <= k < i ==> (#[trigger] local@[k]).as_int() == k,
        decreases nl - i,
    {
        local.push(PkgIdx::from_usize(i));
        i = i + 1;
    }
    let mut remote: Vec<PkgRef> = Vec::new();
    let n = dbs.len();
    let mut di: usize = 1;
    while di < n
        invariant
            dbs.wf(),
            n == dbs@.len(),
            1 <= di <= n,
            forall|k: int|
                0 <= k < remote@.len() ==> {
                    let rf = #[trigger] remote@[k];
                    &&& 1 <= rf.spec_db() < di
                    &&& 0 <= rf.spec_pkg() < dbs@[rf.spec_db()].pkgs@.len()
                },
            forall|d: int, p: int|
                1 <= d < di && 0 <= p < dbs@[d].pkgs@.len() ==> #[trigger] covers(remote@, d, p),
            forall|k1: int, k2: int|
                0 <= k1 < k2 < remote@.len() ==> ((#[trigger] remote@[k1]).spec_db()
                    < (#[trigger] remote@[k2]).spec_db() || (remote@[k1].spec_db()
                    == remote@[k2].spec_db() && remote@[k1].spec_pkg() < remote@[k2].spec_pkg())),
        decreases n - di,
    {
        let m = dbs.db_at(di).pkgs.len();
        let mut pi: usize = 0;
        while pi < m
            invariant
                dbs.wf(),
                n == dbs@.len(),
                1 <= di < n,
                m == dbs@[di as int].pkgs@.len(),
                pi <= m,
                forall|k: int|
                    0 <= k < remote@.len() ==> {
                        let rf = #[trigger] remote@[k];
                        &&& 1 <= rf.spec_db()
                        &&& (rf.spec_db() < di || (rf.spec_db() == di && rf.spec_pkg() < pi))
                        &&& 0 <= rf.spec_pkg() < dbs@[rf.spec_db()].pkgs@.len()
                    },
                forall|d: int, p: int|
                    1 <= d < dbs@.len() && 0 <= p < dbs@[d].pkgs@.len() && (d < di || (d == di && p
                        < pi)) ==> #[trigger] covers(remote@, d, p),
                forall|k1: int, k2: int|
                    0 <= k1 < k2 < remote@.len() ==> ((#[trigger] remote@[k1]).spec_db()
                        < (#[trigger] remote@[k2]).spec_db() || (remote@[k1].spec_db()
                        == remote@[k2].spec_db() && remote@[k1].spec_pkg()
                        < remote@[k2].spec_pkg())),
            decreases m - pi,
        {
            let ghost prev = remote@;
            let rf = PkgRef::from_components(DbIdx::from_usize(di), PkgIdx::from_usize(pi));
            remote.push(rf);
            proof {
                assert(remote@[prev.len() as int].spec_db() == di as int);
                assert(remote@[prev.len() as int].spec_pkg() == pi as int);
                assert forall|d: int, p: int|
                    1 <= d < dbs@.len() && 0 <= p < dbs@[d].pkgs@.len() && (d < di || (
                    d == di as int && p < pi + 1)) implies #[trigger] covers(remote@, d, p) by {
                    if d == di as int && p == pi as int {
                        assert(remote@[prev.len() as int].spec_db() == d && remote@[prev.len()
                            as int].spec_pkg() == p);
                    } else {
                        assert(covers(prev, d, p));
                        let k0 = choose|k: int|
                            0 <= k < prev.len() && (#[trigger] prev[k]).spec_db() == d
                                && prev[k].spec_pkg() == p;
                        assert(remote@[k0] == prev[k0]);
                    }
                }
            }
            pi = pi + 1;
        }
        di = di + 1;
    }
    PkgCache { filt_local_pkgs: local, filt_remote_pkgs: remote }
}

} // verus!
