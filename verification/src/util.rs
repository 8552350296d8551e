//! String helpers and the package file-list deduplication pass.

use vstd::prelude::*;
use vstd::slice::slice_index_get;

verus! {

/// Character-wise string equality.
pub fn str_eq(a: &str, b: &str) -> (r: bool)
    ensures
        r == (a@ == b@),
{
    let la = a.unicode_len();
    let lb = b.unicode_len();
    if la != lb {
        return false;
    }
    let mut k: usize = 0;
    while k < la
        invariant
            la == a@.len(),
            lb == b@.len(),
            la == lb,
            k <= la,
            forall|m: int| 0 <= m < k ==> a@[m] == b@[m],
        decreases la - k,
    {
        if a.get_char(k) != b.get_char(k) {
            return false;
        }
        k = k + 1;
    }
    proof {
        assert(a@ =~= b@);
    }
    true
}

/// Whether a database name is one of the official Arch Linux
/// repositories.
pub fn db_name_is_arch(name: &str) -> (r: bool)
    ensures
        r == (name@ == "core"@ || name@ == "extra"@ || name@ == "core-testing"@ || name@
            == "extra-testing"@ || name@ == "multilib"@ || name@ == "multilib-testing"@),
{
    str_eq(name, "core") || str_eq(name, "extra") || str_eq(name, "core-testing") || str_eq(
        name,
        "extra-testing",
    ) || str_eq(name, "multilib") || str_eq(name, "multilib-testing")
}

/// Index of the last `/` in `p`, or `-1` when there is none.
pub open spec fn last_slash(p: Seq<char>) -> int
    decreases p.len(),
{
    if p.len() == 0 {
        -1
    } else if p[p.len() - 1] == '/' {
        p.len() - 1
    } else {
        last_slash(p.drop_last())
    }
}

/// The filesystem parent of a path: everything before the last `/`, the
/// empty path when there is no `/`, and nothing for the empty path.
pub open spec fn parent_of(p: Seq<char>) -> Option<Seq<char>> {
    if p.len() == 0 {
        None
    } else if last_slash(p) >= 0 {
        Some(p.take(last_slash(p)))
    } else {
        Some(Seq::<char>::empty())
    }
}

/// `haystack` lies directly under `needle`: the parent of `haystack` is
/// exactly `needle`.
pub open spec fn spec_path_contains(haystack: Seq<char>, needle: Seq<char>) -> bool {
    parent_of(haystack) == Some(needle)
}

proof fn lemma_last_slash_bounds(p: Seq<char>)
    ensures
        -1 <= last_slash(p) < p.len(),
        last_slash(p) >= 0 ==> p[last_slash(p)] == '/',
        forall|k: int| last_slash(p) < k < p.len() ==> p[k] != '/',
    decreases p.len(),
{
    if p.len() > 0 && p[p.len() - 1] != '/' {
        let d = p.drop_last();
        lemma_last_slash_bounds(d);
        assert forall|k: int| last_slash(p) < k < p.len() implies p[k] != '/' by {
            if k < p.len() - 1 {
                assert(d[k] == p[k]);
            }
        }
    }
}

/// Whether `haystack`'s filesystem parent equals `needle`.
pub fn path_contains_other_path(haystack: &str, needle: &str) -> (r: bool)
    ensures
        r == spec_path_contains(haystack@, needle@),
{
    let hl = haystack.unicode_len();
    proof {
        lemma_last_slash_bounds(haystack@);
    }
    if hl == 0 {
        return false;
    }
    let mut k = hl;
    let mut found = false;
    let mut slash: usize = 0;
    proof {
        assert(haystack@.take(hl as int) =~= haystack@);
    }
    while k > 0 && !found
        invariant
            k <= haystack@.len(),
            hl == haystack@.len(),
            !found ==> last_slash(haystack@) == last_slash(haystack@.take(k as int)),
            found ==> slash < haystack@.len() && last_slash(haystack@) == slash,
        decreases k + (if found {
            0int
        } else {
            1int
        }),
    {
        if haystack.get_char(k - 1) == '/' {
            found = true;
            slash = k - 1;
            proof {
                let t = haystack@.take(k as int);
                assert(t[t.len() - 1] == haystack@[k - 1]);
            }
        } else {
            proof {
                let t = haystack@.take(k as int);
                assert(t[t.len() - 1] == haystack@[k - 1]);
                assert(t.drop_last() =~= haystack@.take(k - 1));
            }
            k = k - 1;
        }
    }
    if found {
        let prefix = haystack.substring_char(0, slash);
        proof {
            assert(haystack@.subrange(0, slash as int) =~= haystack@.take(slash as int));
        }
        str_eq(prefix, needle)
    } else {
        proof {
            assert(haystack@.take(0int) =~= Seq::<char>::empty());
            assert(last_slash(haystack@) == -1);
            assert(needle@.len() == 0 ==> needle@ =~= Seq::<char>::empty());
        }
        needle.unicode_len() == 0
    }
}

/// The deduplicated file list: an entry is dropped when the entry right
/// after it lies directly under it; the final entry always stays.
pub open spec fn dedup_spec(l: Seq<Seq<char>>) -> Seq<Seq<char>>
    decreases l.len(),
{
    if l.len() == 0 {
        Seq::<Seq<char>>::empty()
    } else if l.len() == 1 {
        l
    } else {
        (if spec_path_contains(l[1], l[0]) {
            Seq::<Seq<char>>::empty()
        } else {
            seq![l[0]]
        }) + dedup_spec(l.skip(1))
    }
}

/// Drops entries from a sorted package file list that are directories
/// subsumed by the entry immediately following them (`usr/bin` is dropped
/// when the next entry is `usr/bin/cat`).
///
/// The list is expected to be lexicographically sorted; this is a
/// precondition of the surrounding data model, not enforced here.
pub fn deduped_files(list: &[String]) -> (r: Vec<String>)
    ensures
        r.deep_view() == dedup_spec(list.deep_view()),
{
    let ghost dv = list.deep_view();
    let mut out: Vec<String> = Vec::new();
    if list.len() == 0 {
        proof {
            assert(out.deep_view() =~= dedup_spec(dv));
        }
        return out;
    }
    let mut i: usize = 0;
    proof {
        assert(dv.skip(0) =~= dv);
    }
    while i < list.len() - 1
        invariant
            list@.len() >= 1,
            i < list@.len(),
            dv == list.deep_view(),
            dedup_spec(dv) =~= out.deep_view() + dedup_spec(dv.skip(i as int)),
        decreases list@.len() - i,
    {
        let a = slice_index_get(list, i);
        let b = slice_index_get(list, i + 1);
        let ghost prev = out.deep_view();
        if !path_contains_other_path(b.as_str(), a.as_str()) {
            out.push(a.clone());
            proof {
                assert(out.deep_view() =~= prev + seq![dv[i as int]]);
            }
        }
        proof {
            assert(dv.skip(i as int)[0] == dv[i as int]);
            assert(dv.skip(i as int)[1] == dv[i as int + 1]);
            assert(dv.skip(i as int).skip(1) =~= dv.skip(i as int + 1));
        }
        i = i + 1;
    }
    let last = slice_index_get(list, list.len() - 1);
    let ghost prev = out.deep_view();
    out.push(last.clone());
    proof {
        assert(dv.skip(i as int) =~= seq![dv[i as int]]);
        assert(out.deep_view() =~= prev + seq![dv[i as int]]);
        assert(dedup_spec(dv.skip(i as int)) == dv.skip(i as int));
    }
    out
}

/// Law: a file list in which no entry is the direct parent of the entry
/// right after it comes back unchanged.
pub proof fn lemma_dedup_no_nesting_unchanged(l: Seq<Seq<char>>)
    requires
        forall|i: int| 0 <= i < l.len() - 1 ==> !spec_path_contains(l[i + 1], #[trigger] l[i]),
    ensures
        dedup_spec(l) == l,
    decreases l.len(),
{
    if l.len() >= 2 {
        assert forall|i: int| 0 <= i < l.skip(1).len() - 1 implies !spec_path_contains(
            l.skip(1)[i + 1],
            #[trigger] l.skip(1)[i],
        ) by {
            assert(l.skip(1)[i + 1] == l[i + 2]);
            assert(l.skip(1)[i] == l[i + 1]);
        }
        lemma_dedup_no_nesting_unchanged(l.skip(1));
        assert(dedup_spec(l) =~= l) by {
            assert(!spec_path_contains(l[1], l[0]));
            assert(dedup_spec(l) == seq![l[0]] + l.skip(1));
            assert(seq![l[0]] + l.skip(1) =~= l);
        }
    }
}

/// Law: the final entry of a non-empty file list is always retained, as
/// the last element of the output.
pub proof fn lemma_dedup_keeps_last(l: Seq<Seq<char>>)
    requires
        l.len() > 0,
    ensures
        dedup_spec(l).len() > 0,
        dedup_spec(l).last() == l.last(),
    decreases l.len(),
{
    if l.len() >= 2 {
        lemma_dedup_keeps_last(l.skip(1));
    }
}

} // verus!
