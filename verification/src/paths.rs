//! Validation of the relative paths that identify notes and folders.
//!
//! A relative path is the primary key of a note: it names the note's
//! directory under the notebook root. A path is malformed when it is empty,
//! is exactly `"."`, starts with a separator (an absolute path), or holds a
//! `".."` segment anywhere, since such a segment could climb out of the
//! notebook root.

use vstd::prelude::*;

verus! {

/// Holds when position `i` of `s` starts a `".."` path segment: two dots
/// bounded by the start of the string or a separator on the left, and by
/// the end of the string or a separator on the right.
pub open spec fn dotdot_segment_at(s: Seq<char>, i: int) -> bool {
    &&& 0 <= i
    &&& i + 1 < s.len()
    &&& s[i] == '.'
    &&& s[i + 1] == '.'
    &&& (i == 0 || s[i - 1] == '/')
    &&& (i + 2 == s.len() || s[i + 2] == '/')
}

/// Holds when some segment of `s` is exactly `".."`.
pub open spec fn has_dotdot_segment(s: Seq<char>) -> bool {
    exists|i: int| dotdot_segment_at(s, i)
}

/// A well-formed relative path: non-empty, not `"."`, not absolute, and
/// free of `".."` segments. (`".."` itself is one `".."` segment, so it is
/// covered by the last clause.)
pub open spec fn spec_valid_rel_path(s: Seq<char>) -> bool {
    &&& s.len() > 0
    &&& !(s.len() == 1 && s[0] == '.')
    &&& s[0] != '/'
    &&& !has_dotdot_segment(s)
}

/// Decides whether `rel_path` is a well-formed relative path.
pub fn validate_rel_path(rel_path: &str) -> (r: bool)
    ensures
        r == spec_valid_rel_path(rel_path@),
{
    let n = rel_path.unicode_len();
    if n == 0 {
        return false;
    }
    let first = rel_path.get_char(0);
    if first == '/' {
        return false;
    }
    if n == 1 && first == '.' {
        return false;
    }
    let mut i: usize = 0;
    while i < n - 1
        invariant
            n == rel_path@.len(),
            n >= 1,
            i <= n,
            forall|k: int| k < i ==> !dotdot_segment_at(rel_path@, k),
        decreases n - i,
    {
        let c0 = rel_path.get_char(i);
        let c1 = rel_path.get_char(i + 1);
        let left_ok = i == 0 || rel_path.get_char(i - 1) == '/';
        let right_ok = i + 2 == n || rel_path.get_char(i + 2) == '/';
        if c0 == '.' && c1 == '.' && left_ok && right_ok {
            assert(dotdot_segment_at(rel_path@, i as int));
            return false;
        }
        assert(!dotdot_segment_at(rel_path@, i as int));
        i = i + 1;
    }
    assert(forall|k: int| !dotdot_segment_at(rel_path@, k) || k < i) by {
        assert(forall|k: int| k + 1 >= rel_path@.len() ==> !dotdot_segment_at(rel_path@, k));
    }
    true
}

} // verus!
