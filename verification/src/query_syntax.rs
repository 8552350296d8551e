//! The query-language compiler: turns a free-text filter expression into
//! structured filter flags plus a substring filter.
//!
//! A query is a sequence of flag tokens followed by free text. A flag
//! token is `@` immediately followed by one of a fixed vocabulary;
//! scanning stops at the first token not in the vocabulary, and the rest
//! becomes the free text.

use crate::util::str_eq;
use vstd::prelude::*;

verus! {

/// Filter flags accumulated from the recognized `@` tokens.
#[derive(Clone, Copy, Debug, PartialEq, Eq, Structural)]
pub struct QueryFlags {
    pub installed: bool,
    pub newer: bool,
    pub older: bool,
    pub explicitly_installed: bool,
}

/// All flags off.
pub open spec fn no_flags() -> QueryFlags {
    QueryFlags { installed: false, newer: false, older: false, explicitly_installed: false }
}

impl QueryFlags {
    /// Some remote-comparison flag is set.
    pub fn any(self) -> (r: bool)
        ensures
            r == (self.installed || self.newer || self.older),
    {
        self.installed || self.newer || self.older
    }
}

impl Default for QueryFlags {
    fn default() -> (r: Self)
        ensures
            r == no_flags(),
    {
        QueryFlags { installed: false, newer: false, older: false, explicitly_installed: false }
    }
}

/// A compiled query: flags to require, plus a substring that listed
/// packages must contain (when non-empty).
#[derive(Debug)]
pub struct PkgListQuery {
    pub flags: QueryFlags,
    pub string: String,
}

impl PartialEq for PkgListQuery {
    fn eq(&self, other: &PkgListQuery) -> (r: bool) {
        self.flags == other.flags && str_eq(self.string.as_str(), other.string.as_str())
    }
}

impl vstd::std_specs::cmp::PartialEqSpecImpl for PkgListQuery {
    open spec fn obeys_eq_spec() -> bool {
        true
    }

    open spec fn eq_spec(&self, other: &PkgListQuery) -> bool {
        self.flags == other.flags && self.string@ == other.string@
    }
}

impl Default for PkgListQuery {
    fn default() -> (r: Self)
        ensures
            r.flags == no_flags(),
            r.string@ == Seq::<char>::empty(),
    {
        PkgListQuery { flags: QueryFlags::default(), string: String::new() }
    }
}

/// First index at or after `from` where `s` holds `c`, or `s.len()`.
pub open spec fn find_from(s: Seq<char>, c: char, from: int) -> int
    decreases s.len() - from,
{
    if from < s.len() {
        if s[from] == c {
            from
        } else {
            find_from(s, c, from + 1)
        }
    } else {
        s.len() as int
    }
}

proof fn lemma_find_from_bounds(s: Seq<char>, c: char, from: int)
    requires
        0 <= from <= s.len(),
    ensures
        from <= find_from(s, c, from) <= s.len(),
        find_from(s, c, from) < s.len() ==> s[find_from(s, c, from)] == c,
    decreases s.len() - from,
{
    if from < s.len() && s[from] != c {
        lemma_find_from_bounds(s, c, from + 1);
    }
}

/// The flags after applying one token, or nothing when the token is not
/// in the vocabulary.
pub open spec fn flags_for(f: QueryFlags, tok: Seq<char>) -> Option<QueryFlags> {
    if tok == "@installed"@ {
        Some(QueryFlags { installed: true, ..f })
    } else if tok == "@older"@ {
        Some(QueryFlags { older: true, ..f })
    } else if tok == "@newer"@ {
        Some(QueryFlags { newer: true, ..f })
    } else if tok == "@asexplicit"@ || tok == "@explicit"@ {
        Some(QueryFlags { explicitly_installed: true, ..f })
    } else {
        None
    }
}

/// Compilation from position `pos`: scan for the next `@`; if a token
/// `@word` stands before the first space of the remaining text and is in
/// the vocabulary, accumulate its flag and continue past the token and
/// one separating space; otherwise the remaining text is the free-text
/// filter.
pub open spec fn compile_from(s: Seq<char>, pos: int, f: QueryFlags) -> (QueryFlags, Seq<char>)
    decreases s.len() - pos,
    when 0 <= pos <= s.len()
    via compile_from_decreases
{
    let at = find_from(s, '@', pos);
    if at == s.len() {
        (f, s.skip(pos))
    } else {
        let end = find_from(s, ' ', pos);
        if end < at {
            (f, s.skip(pos))
        } else {
            match flags_for(f, s.subrange(at, end)) {
                None => (f, s.skip(pos)),
                Some(f2) => compile_from(
                    s,
                    if end + 1 <= s.len() {
                        end + 1
                    } else {
                        s.len() as int
                    },
                    f2,
                ),
            }
        }
    }
}

#[via_fn]
proof fn compile_from_decreases(s: Seq<char>, pos: int, f: QueryFlags) {
    lemma_find_from_bounds(s, '@', pos);
    lemma_find_from_bounds(s, ' ', pos);
}

/// What compiling a whole query yields: the accumulated flags and the
/// remaining free text.
pub open spec fn compile_spec(s: Seq<char>) -> (QueryFlags, Seq<char>) {
    compile_from(s, 0, no_flags())
}

fn find_char_from(s: &str, c: char, from: usize) -> (r: usize)
    requires
        from <= s@.len(),
    ensures
        r == find_from(s@, c, from as int),
        from <= r <= s@.len(),
{
    proof {
        lemma_find_from_bounds(s@, c, from as int);
    }
    let n = s.unicode_len();
    let mut i = from;
    while i < n && s.get_char(i) != c
        invariant
            from <= i <= n,
            n == s@.len(),
            find_from(s@, c, from as int) == find_from(s@, c, i as int),
        decreases n - i,
    {
        i = i + 1;
    }
    i
}

impl PkgListQuery {
    /// Compile a query string. Never fails: an unrecognized token and
    /// everything after it simply become the free text.
    pub fn compile(src: &str) -> (r: PkgListQuery)
        ensures
            r.flags == compile_spec(src@).0,
            r.string@ == compile_spec(src@).1,
    {
        let n = src.unicode_len();
        let mut pos: usize = 0;
        let mut flags = QueryFlags::default();
        loop
            invariant
                pos <= n,
                n == src@.len(),
                compile_spec(src@) == compile_from(src@, pos as int, flags),
            ensures
                pos <= n,
                n == src@.len(),
                compile_spec(src@) == (flags, src@.skip(pos as int)),
            decreases n - pos,
        {
            let at = find_char_from(src, '@', pos);
            if at == n {
                break;
            }
            let end = find_char_from(src, ' ', pos);
            if end < at {
                break;
            }
            let token = src.substring_char(at, end);
            if str_eq(token, "@installed") {
                flags.installed = true;
            } else if str_eq(token, "@older") {
                flags.older = true;
            } else if str_eq(token, "@newer") {
                flags.newer = true;
            } else if str_eq(token, "@asexplicit") || str_eq(token, "@explicit") {
                flags.explicitly_installed = true;
            } else {
                break;
            }
            if end < n {
                pos = end + 1;
            } else {
                pos = n;
            }
        }
        let string = src.substring_char(pos, n).to_owned();
        proof {
            assert(src@.subrange(pos as int, n as int) =~= src@.skip(pos as int));
        }
        PkgListQuery { flags, string }
    }
}

} // verus!
