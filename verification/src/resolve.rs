//! Path resolver: turns a user-supplied path into an absolute one, fit for
//! encoding. A path that already starts at the root is kept as it is; any
//! other is joined under the current working directory. Canonicalization is
//! a filesystem matter: the shell attempts it and hands the outcome back,
//! and when it fails the joined path serves as a best-effort identity.

use crate::codec::contains_byte;
use vstd::prelude::*;

verus! {

/// The path separator byte `/`.
pub const SLASH: u8 = 47;

/// An absolute path starts at the root.
pub open spec fn is_absolute(p: Seq<u8>) -> bool {
    p.len() > 0 && p[0] == SLASH
}

/// `p` placed under directory `dir`, with exactly one slash between.
pub open spec fn joined(dir: Seq<u8>, p: Seq<u8>) -> Seq<u8> {
    if dir.len() > 0 && dir.last() == SLASH {
        dir + p
    } else {
        dir + seq![SLASH] + p
    }
}

/// A user-supplied path made absolute against the working directory.
pub open spec fn resolved(cwd: Seq<u8>, p: Seq<u8>) -> Seq<u8> {
    if is_absolute(p) {
        p
    } else {
        joined(cwd, p)
    }
}

/// `i` is the index of the last occurrence of `b` in `s`.
pub open spec fn last_index_of(s: Seq<u8>, b: u8, i: int) -> bool {
    &&& 0 <= i < s.len()
    &&& s[i] == b
    &&& forall|j: int| i < j < s.len() ==> s[j] != b
}

/// The parent directory of a path: everything before the last slash, the
/// root itself when the last slash is the first byte, and nothing at all
/// when the path has no slash.
pub open spec fn spec_parent(p: Seq<u8>) -> Option<Seq<u8>> {
    if contains_byte(p, SLASH) {
        let i = choose|i: int| last_index_of(p, SLASH, i);
        if i == 0 {
            Some(seq![SLASH])
        } else {
            Some(p.take(i))
        }
    } else {
        None
    }
}

pub proof fn lemma_last_index_unique(s: Seq<u8>, b: u8, i1: int, i2: int)
    requires
        last_index_of(s, b, i1),
        last_index_of(s, b, i2),
    ensures
        i1 == i2,
{
    if i1 < i2 {
        assert(s[i2] != b);
    }
    if i2 < i1 {
        assert(s[i1] != b);
    }
}

pub fn path_is_absolute(p: &[u8]) -> (r: bool)
    ensures
        r == is_absolute(p@),
{
    p.len() > 0 && p[0] == SLASH
}

/// Joins `p` under `dir` with a single separating slash.
pub fn join_under(dir: &[u8], p: &[u8]) -> (r: Vec<u8>)
    ensures
        r@ == joined(dir@, p@),
{
    let mut out: Vec<u8> = Vec::new();
    out.extend_from_slice(dir);
    let dlen = dir.len();
    if !(dlen > 0 && dir[dlen - 1] == SLASH) {
        out.push(SLASH);
    }
    out.extend_from_slice(p);
    proof {
        assert(out@ =~= joined(dir@, p@));
    }
    out
}

/// Makes a user-supplied path absolute: kept as it is when already
/// absolute, else joined under the working directory.
pub fn resolve(cwd: &[u8], p: &[u8]) -> (r: Vec<u8>)
    ensures
        r@ == resolved(cwd@, p@),
{
    if path_is_absolute(p) {
        vstd::slice::slice_to_vec(p)
    } else {
        join_under(cwd, p)
    }
}

/// Picks the canonical form when the filesystem yielded one, and otherwise
/// keeps the resolved path: refusing to act would serve the user worse than
/// a best-effort identity.
pub fn canonical_or_resolved(resolved_path: Vec<u8>, canonical: Option<Vec<u8>>) -> (r: Vec<u8>)
    ensures
        match canonical {
            Some(c) => r == c,
            None => r == resolved_path,
        },
{
    match canonical {
        Some(c) => c,
        None => resolved_path,
    }
}

/// Index of the last occurrence of `b` in `s`, if any.
fn find_last(s: &[u8], b: u8) -> (r: Option<usize>)
    ensures
        match r {
            Some(i) => last_index_of(s@, b, i as int),
            None => !contains_byte(s@, b),
        },
{
    let mut i: usize = s.len();
    while i > 0
        invariant
            i <= s@.len(),
            forall|j: int| i <= j < s@.len() ==> s@[j] != b,
        decreases i,
    {
        i = i - 1;
        if s[i] == b {
            return Some(i);
        }
    }
    None
}

/// The directory that must exist before an entry can be put back at `p`.
pub fn parent_dir(p: &[u8]) -> (r: Option<Vec<u8>>)
    ensures
        match r {
            Some(d) => spec_parent(p@) == Some(d@),
            None => spec_parent(p@) is None,
        },
{
    match find_last(p, SLASH) {
        None => None,
        Some(i) => {
            proof {
                let ii = choose|ii: int| last_index_of(p@, SLASH, ii);
                lemma_last_index_unique(p@, SLASH, ii, i as int);
            }
            if i == 0 {
                let mut out: Vec<u8> = Vec::new();
                out.push(SLASH);
                proof {
                    assert(out@ =~= seq![SLASH]);
                }
                Some(out)
            } else {
                Some(vstd::slice::slice_to_vec(vstd::slice::slice_subrange(p, 0, i)))
            }
        },
    }
}

} // verus!
