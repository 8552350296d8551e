//! ALPM/RPM-style version comparison.
//!
//! A version string has the shape `[epoch:]upstream[-release]`. Two versions
//! are compared epoch first, then upstream, then release; each part is
//! compared by walking runs of digits or letters, with delimiter characters
//! carrying no weight of their own beyond their run length.

use vstd::prelude::*;
use vstd::slice::slice_subrange;
use vstd::slice::slice_to_vec;
use vstd::string::StringSliceAdditionalSpecFns;

verus! {

/// Outcome of comparing version `a` against version `b`.
#[derive(Debug, Clone, Copy, PartialEq, Eq, Structural)]
pub enum AbCmp {
    ANewer,
    Same,
    BNewer,
}

/// The opposite outcome: what comparing the two versions in the other
/// order must yield.
pub open spec fn flip(c: AbCmp) -> AbCmp {
    match c {
        AbCmp::ANewer => AbCmp::BNewer,
        AbCmp::Same => AbCmp::Same,
        AbCmp::BNewer => AbCmp::ANewer,
    }
}

/// ASCII digit.
pub open spec fn is_digit(b: u8) -> bool {
    48 <= b <= 57
}

/// ASCII letter.
pub open spec fn is_alpha(b: u8) -> bool {
    65 <= b <= 90 || 97 <= b <= 122
}

/// ASCII letter or digit.
pub open spec fn is_alnum(b: u8) -> bool {
    is_digit(b) || is_alpha(b)
}

fn byte_is_digit(b: u8) -> (r: bool)
    ensures
        r == is_digit(b),
{
    48 <= b && b <= 57
}

fn byte_is_alpha(b: u8) -> (r: bool)
    ensures
        r == is_alpha(b),
{
    (65 <= b && b <= 90) || (97 <= b && b <= 122)
}

fn byte_is_alnum(b: u8) -> (r: bool)
    ensures
        r == is_alnum(b),
{
    byte_is_digit(b) || byte_is_alpha(b)
}

/// First position at or after `i` that holds a letter or digit, or the end.
pub open spec fn sep_end(s: Seq<u8>, i: int) -> int
    decreases s.len() - i,
{
    if i < s.len() && !is_alnum(s[i]) {
        sep_end(s, i + 1)
    } else {
        i
    }
}

/// End of the run of digits (`num`) or letters (`!num`) starting at `i`.
pub open spec fn run_end(s: Seq<u8>, i: int, num: bool) -> int
    decreases s.len() - i,
{
    if i < s.len() && (if num {
        is_digit(s[i])
    } else {
        is_alpha(s[i])
    }) {
        run_end(s, i + 1, num)
    } else {
        i
    }
}

pub proof fn lemma_sep_end_bounds(s: Seq<u8>, i: int)
    requires
        0 <= i <= s.len(),
    ensures
        i <= sep_end(s, i) <= s.len(),
        sep_end(s, i) < s.len() ==> is_alnum(s[sep_end(s, i)]),
        forall|k: int| i <= k < sep_end(s, i) ==> !is_alnum(s[k]),
    decreases s.len() - i,
{
    if i < s.len() && !is_alnum(s[i]) {
        lemma_sep_end_bounds(s, i + 1);
    }
}

pub proof fn lemma_run_end_bounds(s: Seq<u8>, i: int, num: bool)
    requires
        0 <= i <= s.len(),
    ensures
        i <= run_end(s, i, num) <= s.len(),
        forall|k: int|
            i <= k < run_end(s, i, num) ==> (if num {
                is_digit(s[k])
            } else {
                is_alpha(s[k])
            }),
        i < s.len() && (if num {
            is_digit(s[i])
        } else {
            is_alpha(s[i])
        }) ==> run_end(s, i, num) > i,
        run_end(s, i, num) < s.len() ==> !(if num {
            is_digit(s[run_end(s, i, num)])
        } else {
            is_alpha(s[run_end(s, i, num)])
        }),
    decreases s.len() - i,
{
    if i < s.len() && (if num {
        is_digit(s[i])
    } else {
        is_alpha(s[i])
    }) {
        lemma_run_end_bounds(s, i + 1, num);
    }
}

/// Byte-wise lexicographic comparison, a shorter prefix counting as older.
pub open spec fn lex_cmp(a: Seq<u8>, b: Seq<u8>) -> AbCmp
    decreases a.len(),
{
    if a.len() == 0 && b.len() == 0 {
        AbCmp::Same
    } else if a.len() == 0 {
        AbCmp::BNewer
    } else if b.len() == 0 {
        AbCmp::ANewer
    } else if a[0] < b[0] {
        AbCmp::BNewer
    } else if a[0] > b[0] {
        AbCmp::ANewer
    } else {
        lex_cmp(a.skip(1), b.skip(1))
    }
}

/// Outcome once at least one side has no alphanumeric content left:
/// both exhausted is a tie; a side with a letter next is a pre-release
/// tag and loses; otherwise the side with content left wins.
pub open spec fn rpm_tail(a: Seq<u8>, b: Seq<u8>, i: int, j: int) -> AbCmp {
    if i >= a.len() && j >= b.len() {
        AbCmp::Same
    } else if (i >= a.len() && !(j < b.len() && is_alpha(b[j]))) || (i < a.len() && is_alpha(
        a[i],
    )) {
        AbCmp::BNewer
    } else {
        AbCmp::ANewer
    }
}

/// RPM-style segment comparison from positions `i` in `a` and `j` in `b`.
pub open spec fn rpm_from(a: Seq<u8>, b: Seq<u8>, i: int, j: int) -> AbCmp
    decreases a.len() - i + b.len() - j,
    when 0 <= i <= a.len() && 0 <= j <= b.len()
    via rpm_from_decreases
{
    if i >= a.len() || j >= b.len() {
        rpm_tail(a, b, i, j)
    } else {
        let i2 = sep_end(a, i);
        let j2 = sep_end(b, j);
        if i2 >= a.len() || j2 >= b.len() {
            rpm_tail(a, b, i2, j2)
        } else if i2 - i != j2 - j {
            if i2 - i < j2 - j {
                AbCmp::BNewer
            } else {
                AbCmp::ANewer
            }
        } else {
            let num = is_digit(a[i2]);
            let ra = run_end(a, i2, num);
            let rb = run_end(b, j2, num);
            if rb == j2 {
                if num {
                    AbCmp::ANewer
                } else {
                    AbCmp::BNewer
                }
            } else if num && ra - i2 != rb - j2 {
                if ra - i2 > rb - j2 {
                    AbCmp::ANewer
                } else {
                    AbCmp::BNewer
                }
            } else {
                match lex_cmp(a.subrange(i2, ra), b.subrange(j2, rb)) {
                    AbCmp::Same => rpm_from(a, b, ra, rb),
                    c => c,
                }
            }
        }
    }
}

#[via_fn]
proof fn rpm_from_decreases(a: Seq<u8>, b: Seq<u8>, i: int, j: int) {
    if i < a.len() && j < b.len() {
        lemma_sep_end_bounds(a, i);
        lemma_sep_end_bounds(b, j);
        let i2 = sep_end(a, i);
        let j2 = sep_end(b, j);
        if i2 < a.len() && j2 < b.len() {
            let num = is_digit(a[i2]);
            lemma_run_end_bounds(a, i2, num);
            lemma_run_end_bounds(b, j2, num);
        }
    }
}

/// RPM-style comparison of two whole version segments.
pub open spec fn rpm_cmp(a: Seq<u8>, b: Seq<u8>) -> AbCmp {
    rpm_from(a, b, 0, 0)
}

fn scan_sep(s: &[u8], from: usize) -> (r: usize)
    requires
        from <= s@.len(),
    ensures
        r == sep_end(s@, from as int),
        from <= r <= s@.len(),
{
    let mut i = from;
    while i < s.len() && !byte_is_alnum(s[i])
        invariant
            from <= i <= s@.len(),
            sep_end(s@, from as int) == sep_end(s@, i as int),
        decreases s@.len() - i,
    {
        i = i + 1;
    }
    i
}

fn scan_run(s: &[u8], from: usize, num: bool) -> (r: usize)
    requires
        from <= s@.len(),
    ensures
        r == run_end(s@, from as int, num),
        from <= r <= s@.len(),
{
    let mut i = from;
    if num {
        while i < s.len() && byte_is_digit(s[i])
            invariant
                from <= i <= s@.len(),
                run_end(s@, from as int, true) == run_end(s@, i as int, true),
            decreases s@.len() - i,
        {
            i = i + 1;
        }
    } else {
        while i < s.len() && byte_is_alpha(s[i])
            invariant
                from <= i <= s@.len(),
                run_end(s@, from as int, false) == run_end(s@, i as int, false),
            decreases s@.len() - i,
        {
            i = i + 1;
        }
    }
    i
}

fn tail_result(a: &[u8], b: &[u8], i: usize, j: usize) -> (r: AbCmp)
    requires
        i <= a@.len(),
        j <= b@.len(),
    ensures
        r == rpm_tail(a@, b@, i as int, j as int),
{
    if i == a.len() && j == b.len() {
        AbCmp::Same
    } else if (i == a.len() && !(j < b.len() && byte_is_alpha(b[j]))) || (i < a.len()
        && byte_is_alpha(a[i])) {
        AbCmp::BNewer
    } else {
        AbCmp::ANewer
    }
}

fn cmp_runs(a: &[u8], ia: usize, ea: usize, b: &[u8], ib: usize, eb: usize) -> (r: AbCmp)
    requires
        ia <= ea <= a@.len(),
        ib <= eb <= b@.len(),
    ensures
        r == lex_cmp(a@.subrange(ia as int, ea as int), b@.subrange(ib as int, eb as int)),
{
    let ghost sa = a@.subrange(ia as int, ea as int);
    let ghost sb = b@.subrange(ib as int, eb as int);
    let mut k: usize = 0;
    proof {
        assert(sa.skip(0) =~= sa);
        assert(sb.skip(0) =~= sb);
    }
    loop
        invariant
            ia <= ea <= a@.len(),
            ib <= eb <= b@.len(),
            k <= ea - ia,
            k <= eb - ib,
            sa == a@.subrange(ia as int, ea as int),
            sb == b@.subrange(ib as int, eb as int),
            lex_cmp(sa, sb) == lex_cmp(sa.skip(k as int), sb.skip(k as int)),
        decreases ea - ia - k,
    {
        let ghost ta = sa.skip(k as int);
        let ghost tb = sb.skip(k as int);
        if ia + k == ea && ib + k == eb {
            proof {
                assert(ta.len() == 0 && tb.len() == 0);
            }
            return AbCmp::Same;
        } else if ia + k == ea {
            proof {
                assert(ta.len() == 0 && tb.len() != 0);
            }
            return AbCmp::BNewer;
        } else if ib + k == eb {
            proof {
                assert(ta.len() != 0 && tb.len() == 0);
            }
            return AbCmp::ANewer;
        } else {
            let ca = a[ia + k];
            let cb = b[ib + k];
            proof {
                assert(ta[0] == sa[k as int] == a@[ia + k]);
                assert(tb[0] == sb[k as int] == b@[ib + k]);
            }
            if ca < cb {
                return AbCmp::BNewer;
            } else if ca > cb {
                return AbCmp::ANewer;
            } else {
                proof {
                    assert(ta.skip(1) =~= sa.skip(k + 1));
                    assert(tb.skip(1) =~= sb.skip(k + 1));
                }
                k = k + 1;
            }
        }
    }
}

proof fn lemma_lex_cmp_refl(s: Seq<u8>)
    ensures
        lex_cmp(s, s) == AbCmp::Same,
    decreases s.len(),
{
    if s.len() > 0 {
        lemma_lex_cmp_refl(s.skip(1));
    }
}

proof fn lemma_lex_cmp_flip(a: Seq<u8>, b: Seq<u8>)
    ensures
        lex_cmp(a, b) == flip(lex_cmp(b, a)),
    decreases a.len(),
{
    if a.len() > 0 && b.len() > 0 && a[0] == b[0] {
        lemma_lex_cmp_flip(a.skip(1), b.skip(1));
    }
}

proof fn lemma_rpm_from_refl(s: Seq<u8>, i: int)
    requires
        0 <= i <= s.len(),
    ensures
        rpm_from(s, s, i, i) == AbCmp::Same,
    decreases s.len() - i,
{
    lemma_sep_end_bounds(s, i);
    let i2 = sep_end(s, i);
    if i < s.len() && i2 < s.len() {
        let num = is_digit(s[i2]);
        lemma_run_end_bounds(s, i2, num);
        let ra = run_end(s, i2, num);
        assert(ra > i2);
        lemma_lex_cmp_refl(s.subrange(i2, ra));
        lemma_rpm_from_refl(s, ra);
    }
}

/// A segment compared against itself is a tie.
pub proof fn lemma_rpm_cmp_refl(s: Seq<u8>)
    ensures
        rpm_cmp(s, s) == AbCmp::Same,
{
    lemma_rpm_from_refl(s, 0);
}

proof fn lemma_rpm_from_flip(a: Seq<u8>, b: Seq<u8>, i: int, j: int)
    requires
        0 <= i <= a.len(),
        0 <= j <= b.len(),
    ensures
        rpm_from(a, b, i, j) == flip(rpm_from(b, a, j, i)),
    decreases a.len() - i + b.len() - j,
{
    if i < a.len() && j < b.len() {
        lemma_sep_end_bounds(a, i);
        lemma_sep_end_bounds(b, j);
        let i2 = sep_end(a, i);
        let j2 = sep_end(b, j);
        if i2 < a.len() && j2 < b.len() && i2 - i == j2 - j {
            let numa = is_digit(a[i2]);
            let numb = is_digit(b[j2]);
            lemma_run_end_bounds(a, i2, numa);
            lemma_run_end_bounds(b, j2, numa);
            lemma_run_end_bounds(b, j2, numb);
            lemma_run_end_bounds(a, i2, numb);
            if numa == numb {
                let ra = run_end(a, i2, numa);
                let rb = run_end(b, j2, numa);
                assert(ra > i2);
                assert(rb > j2);
                if !(numa && ra - i2 != rb - j2) {
                    lemma_lex_cmp_flip(a.subrange(i2, ra), b.subrange(j2, rb));
                    if lex_cmp(a.subrange(i2, ra), b.subrange(j2, rb)) == AbCmp::Same {
                        lemma_rpm_from_flip(a, b, ra, rb);
                    }
                }
            }
        }
    }
}

/// Swapping the two segments flips the outcome.
pub proof fn lemma_rpm_cmp_flip(a: Seq<u8>, b: Seq<u8>)
    ensures
        rpm_cmp(a, b) == flip(rpm_cmp(b, a)),
{
    lemma_rpm_from_flip(a, b, 0, 0);
}

/// End of the maximal leading run of ASCII digits.
pub open spec fn epoch_end(s: Seq<u8>) -> int {
    run_end(s, 0, true)
}

/// An explicit epoch is present: the leading digit run is followed by `:`.
pub open spec fn has_epoch(s: Seq<u8>) -> bool {
    epoch_end(s) < s.len() && s[epoch_end(s)] == 58
}

/// The epoch segment; `"0"` when none is written.
pub open spec fn epoch_spec(s: Seq<u8>) -> Seq<u8> {
    if has_epoch(s) {
        s.subrange(0, epoch_end(s))
    } else {
        seq![48u8]
    }
}

/// The version string with any `epoch:` prefix removed.
pub open spec fn rest_spec(s: Seq<u8>) -> Seq<u8> {
    if has_epoch(s) {
        s.subrange(epoch_end(s) + 1, s.len() as int)
    } else {
        s
    }
}

/// Index of the last `-` in `s`, or `-1` when there is none.
pub open spec fn last_dash(s: Seq<u8>) -> int
    decreases s.len(),
{
    if s.len() == 0 {
        -1
    } else if s[s.len() - 1] == 45 {
        s.len() - 1
    } else {
        last_dash(s.drop_last())
    }
}

/// The upstream-version segment: the remainder up to the last `-`, or the
/// whole remainder when no `-` is present.
pub open spec fn upstream_spec(s: Seq<u8>) -> Seq<u8> {
    let r = rest_spec(s);
    let d = last_dash(r);
    if d >= 0 {
        r.subrange(0, d)
    } else {
        r
    }
}

/// The release segment: what follows the last `-`, or `"1"` when no `-`
/// is present.
pub open spec fn release_spec(s: Seq<u8>) -> Seq<u8> {
    let r = rest_spec(s);
    let d = last_dash(r);
    if d >= 0 {
        r.subrange(d + 1, r.len() as int)
    } else {
        seq![49u8]
    }
}

/// A version string split into its three segments, with the defaults
/// (`epoch` `"0"`, `release` `"1"`) filled in.
pub struct AlpmVer {
    pub epoch: Vec<u8>,
    pub ver: Vec<u8>,
    pub rel: Vec<u8>,
}

impl AlpmVer {
    /// Split `[epoch:]upstream[-release]`: the epoch is the maximal leading
    /// digit run when a `:` follows it, and the release is whatever follows
    /// the last `-` of the remainder.
    pub fn parse(src: &[u8]) -> (av: AlpmVer)
        ensures
            av.epoch@ == epoch_spec(src@),
            av.ver@ == upstream_spec(src@),
            av.rel@ == release_spec(src@),
    {
        let e = scan_run(src, 0, true);
        let epoch: Vec<u8>;
        let rest: &[u8];
        if e < src.len() && src[e] == 58 {
            epoch = slice_to_vec(slice_subrange(src, 0, e));
            rest = slice_subrange(src, e + 1, src.len());
        } else {
            epoch = vec![48u8];
            rest = src;
        }
        proof {
            assert(rest@ == rest_spec(src@));
        }
        let mut k = rest.len();
        let mut found = false;
        let mut dash: usize = 0;
        proof {
            assert(rest@.take(rest@.len() as int) =~= rest@);
        }
        while k > 0 && !found
            invariant
                k <= rest@.len(),
                !found ==> last_dash(rest@) == last_dash(rest@.take(k as int)),
                found ==> dash < rest@.len() && last_dash(rest@) == dash,
            decreases k + (if found {
                0int
            } else {
                1int
            }),
        {
            if rest[k - 1] == 45 {
                found = true;
                dash = k - 1;
                proof {
                    let t = rest@.take(k as int);
                    assert(t[t.len() - 1] == rest@[k - 1]);
                }
            } else {
                proof {
                    let t = rest@.take(k as int);
                    assert(t[t.len() - 1] == rest@[k - 1]);
                    assert(t.drop_last() =~= rest@.take(k - 1));
                }
                k = k - 1;
            }
        }
        let ver: Vec<u8>;
        let rel: Vec<u8>;
        if found {
            ver = slice_to_vec(slice_subrange(rest, 0, dash));
            rel = slice_to_vec(slice_subrange(rest, dash + 1, rest.len()));
        } else {
            proof {
                assert(rest@.take(0int) =~= Seq::<u8>::empty());
                assert(last_dash(rest@) == -1);
            }
            ver = slice_to_vec(rest);
            rel = vec![49u8];
        }
        AlpmVer { epoch, ver, rel }
    }
}

/// ALPM version comparison: byte-identical strings are the same; otherwise
/// the epoch segments decide, then the upstream segments, then the release
/// segments.
pub open spec fn vercmp_spec(a: Seq<u8>, b: Seq<u8>) -> AbCmp {
    if a == b {
        AbCmp::Same
    } else {
        match rpm_cmp(epoch_spec(a), epoch_spec(b)) {
            AbCmp::Same => match rpm_cmp(upstream_spec(a), upstream_spec(b)) {
                AbCmp::Same => rpm_cmp(release_spec(a), release_spec(b)),
                c => c,
            },
            c => c,
        }
    }
}

/// Law: version comparison is reflexive. Comparing any version string
/// against itself yields `Same`.
pub proof fn lemma_vercmp_refl(v: Seq<u8>)
    ensures
        vercmp_spec(v, v) == AbCmp::Same,
{
}

/// Law: comparing in the other order gives the exact opposite outcome:
/// `ANewer` and `BNewer` swap, and `Same` is symmetric.
pub proof fn lemma_vercmp_antisym(a: Seq<u8>, b: Seq<u8>)
    ensures
        vercmp_spec(a, b) == flip(vercmp_spec(b, a)),
{
    if a != b {
        lemma_rpm_cmp_flip(epoch_spec(a), epoch_spec(b));
        lemma_rpm_cmp_flip(upstream_spec(a), upstream_spec(b));
        lemma_rpm_cmp_flip(release_spec(a), release_spec(b));
    }
}

proof fn lemma_run_end_char(s: Seq<u8>, i: int, num: bool, e: int)
    requires
        0 <= i <= e <= s.len(),
        forall|k: int|
            i <= k < e ==> (if num {
                is_digit(s[k])
            } else {
                is_alpha(s[k])
            }),
        e < s.len() ==> !(if num {
            is_digit(s[e])
        } else {
            is_alpha(s[e])
        }),
    ensures
        run_end(s, i, num) == e,
    decreases e - i,
{
    if i < e {
        lemma_run_end_char(s, i + 1, num, e);
    }
}

proof fn lemma_last_dash_char(s: Seq<u8>, d: int)
    requires
        -1 <= d < s.len(),
        d >= 0 ==> s[d] == 45,
        forall|k: int| d < k < s.len() ==> s[k] != 45,
    ensures
        last_dash(s) == d,
    decreases s.len(),
{
    if s.len() > 0 && s[s.len() - 1] != 45 {
        assert(s.drop_last() =~= s.subrange(0, s.len() - 1));
        lemma_last_dash_char(s.drop_last(), d);
    }
}

/// Law: the release defaults to `"1"`. A version string without a `-`
/// compares the same as that string with `-1` appended.
pub proof fn lemma_release_defaults_to_one(s: Seq<u8>)
    requires
        forall|k: int| 0 <= k < s.len() ==> s[k] != 45,
    ensures
        vercmp_spec(s, s + seq![45u8, 49u8]) == AbCmp::Same,
{
    let t = s + seq![45u8, 49u8];
    let e = epoch_end(s);
    lemma_run_end_bounds(s, 0, true);
    assert forall|k: int| 0 <= k < e implies is_digit(t[k]) by {
        assert(t[k] == s[k]);
    }
    if e < s.len() {
        assert(t[e] == s[e]);
        lemma_run_end_char(t, 0, true, e);
    } else {
        assert(t[e] == 45u8);
        lemma_run_end_char(t, 0, true, e);
    }
    assert(epoch_end(t) == e);
    assert(has_epoch(t) == has_epoch(s));
    assert(epoch_spec(t) =~= epoch_spec(s));
    let rs = rest_spec(s);
    let rt = rest_spec(t);
    assert(rt =~= rs + seq![45u8, 49u8]);
    assert forall|k: int| 0 <= k < rs.len() implies rs[k] != 45 by {
        if has_epoch(s) {
            assert(rs[k] == s[e + 1 + k]);
        }
    }
    lemma_last_dash_char(rs, -1);
    assert(rt[rs.len() as int] == 45u8);
    assert(rt[rs.len() as int + 1] == 49u8);
    lemma_last_dash_char(rt, rs.len() as int);
    assert(upstream_spec(t) =~= rs);
    assert(upstream_spec(s) == rs);
    assert(release_spec(t) =~= seq![49u8]);
    assert(release_spec(s) == seq![49u8]);
    assert(s != t) by {
        assert(s.len() != t.len());
    }
    lemma_rpm_cmp_refl(epoch_spec(s));
    lemma_rpm_cmp_refl(rs);
    lemma_rpm_cmp_refl(seq![49u8]);
    assert(rpm_cmp(upstream_spec(s), upstream_spec(t)) == AbCmp::Same);
    assert(rpm_cmp(release_spec(s), release_spec(t)) == AbCmp::Same);
}

fn bytes_eq(a: &[u8], b: &[u8]) -> (r: bool)
    ensures
        r == (a@ == b@),
{
    if a.len() != b.len() {
        return false;
    }
    let mut k: usize = 0;
    while k < a.len()
        invariant
            a@.len() == b@.len(),
            k <= a@.len(),
            forall|m: int| 0 <= m < k ==> a@[m] == b@[m],
        decreases a@.len() - k,
    {
        if a[k] != b[k] {
            return false;
        }
        k = k + 1;
    }
    proof {
        assert(a@ =~= b@);
    }
    true
}

/// Compare two ALPM version strings given as raw bytes.
pub fn vercmp_bytes(a: &[u8], b: &[u8]) -> (r: AbCmp)
    ensures
        r == vercmp_spec(a@, b@),
{
    if bytes_eq(a, b) {
        return AbCmp::Same;
    }
    let av = AlpmVer::parse(a);
    let bv = AlpmVer::parse(b);
    match rpm_vercmp(av.epoch.as_slice(), bv.epoch.as_slice()) {
        AbCmp::Same => match rpm_vercmp(av.ver.as_slice(), bv.ver.as_slice()) {
            AbCmp::Same => rpm_vercmp(av.rel.as_slice(), bv.rel.as_slice()),
            c => c,
        },
        c => c,
    }
}

/// Compare two ALPM version strings of the shape `[epoch:]upstream[-release]`.
///
/// Total: malformed input still yields a defined ordering, and the function
/// never fails.
pub fn vercmp(a: &str, b: &str) -> (r: AbCmp)
    ensures
        r == vercmp_spec(a.spec_bytes(), b.spec_bytes()),
{
    vercmp_bytes(a.as_bytes(), b.as_bytes())
}

/// RPM-style comparison of two version segments, as raw bytes.
///
/// Both segments are walked in lock-step: delimiter runs are skipped (a
/// difference in their length deciding in favour of the longer), then the
/// next run of digits or letters on each side is compared. Digit runs
/// compare by length first, then byte-wise; letter runs compare byte-wise.
/// A remaining letter run against an exhausted side counts as a
/// pre-release tag and loses.
pub fn rpm_vercmp(a: &[u8], b: &[u8]) -> (r: AbCmp)
    ensures
        r == rpm_cmp(a@, b@),
{
    let mut i: usize = 0;
    let mut j: usize = 0;
    while i < a.len() && j < b.len()
        invariant
            i <= a@.len(),
            j <= b@.len(),
            rpm_cmp(a@, b@) == rpm_from(a@, b@, i as int, j as int),
        decreases a@.len() - i + b@.len() - j,
    {
        let i2 = scan_sep(a, i);
        let j2 = scan_sep(b, j);
        if i2 == a.len() || j2 == b.len() {
            return tail_result(a, b, i2, j2);
        }
        if i2 - i != j2 - j {
            if i2 - i < j2 - j {
                return AbCmp::BNewer;
            } else {
                return AbCmp::ANewer;
            }
        }
        let num = byte_is_digit(a[i2]);
        let ra = scan_run(a, i2, num);
        let rb = scan_run(b, j2, num);
        proof {
            lemma_sep_end_bounds(a@, i as int);
            lemma_sep_end_bounds(b@, j as int);
            lemma_run_end_bounds(a@, i2 as int, num);
            lemma_run_end_bounds(b@, j2 as int, num);
            assert(is_alnum(a@[i2 as int]));
            assert(ra > i2);
        }
        if rb == j2 {
            if num {
                return AbCmp::ANewer;
            } else {
                return AbCmp::BNewer;
            }
        }
        if num && ra - i2 != rb - j2 {
            if ra - i2 > rb - j2 {
                return AbCmp::ANewer;
            } else {
                return AbCmp::BNewer;
            }
        }
        let c = cmp_runs(a, i2, ra, b, j2, rb);
        match c {
            AbCmp::Same => {
                i = ra;
                j = rb;
            },
            _ => {
                return c;
            },
        }
    }
    tail_result(a, b, i, j)
}

} // verus!
