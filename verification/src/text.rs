//! Character-level helpers on strings: equality, lexicographic order and
//! prefix tests, stated over the `Seq<char>` views that the contracts of
//! this crate use throughout.

use vstd::prelude::*;

verus! {

/// Strict code-point order on single characters.
pub open spec fn char_lt(a: char, b: char) -> bool {
    a < b
}

/// Strict lexicographic order on character sequences, by code points.
pub open spec fn spec_str_lt(a: Seq<char>, b: Seq<char>) -> bool
    decreases a.len(),
{
    if b.len() == 0 {
        false
    } else if a.len() == 0 {
        true
    } else if char_lt(a[0], b[0]) {
        true
    } else if char_lt(b[0], a[0]) {
        false
    } else {
        spec_str_lt(a.skip(1), b.skip(1))
    }
}

/// Lexicographic order, allowing equality.
pub open spec fn spec_str_le(a: Seq<char>, b: Seq<char>) -> bool {
    spec_str_lt(a, b) || a == b
}

/// Holds when `prefix` is a prefix of `s`.
pub open spec fn spec_starts_with(s: Seq<char>, prefix: Seq<char>) -> bool {
    s.len() >= prefix.len() && s.take(prefix.len() as int) == prefix
}

/// Character-wise equality of two string slices.
pub fn str_eq(a: &str, b: &str) -> (r: bool)
    ensures
        r == (a@ == b@),
{
    let na = a.unicode_len();
    let nb = b.unicode_len();
    if na != nb {
        assert(a@ != b@);
        return false;
    }
    let mut i: usize = 0;
    while i < na
        invariant
            na == a@.len(),
            na == b@.len(),
            i <= na,
            forall|k: int| 0 <= k < i ==> a@[k] == b@[k],
        decreases na - i,
    {
        if a.get_char(i) != b.get_char(i) {
            return false;
        }
        i = i + 1;
    }
    assert(a@ =~= b@);
    true
}

/// Character-wise strict lexicographic comparison of two string slices.
pub fn str_lt(a: &str, b: &str) -> (r: bool)
    ensures
        r == spec_str_lt(a@, b@),
{
    let na = a.unicode_len();
    let nb = b.unicode_len();
    assert(a@.skip(0) =~= a@);
    assert(b@.skip(0) =~= b@);
    let mut i: usize = 0;
    while i < na && i < nb
        invariant
            na == a@.len(),
            nb == b@.len(),
            i <= na,
            i <= nb,
            forall|k: int| 0 <= k < i ==> a@[k] == b@[k],
            spec_str_lt(a@, b@) == spec_str_lt(a@.skip(i as int), b@.skip(i as int)),
        decreases na - i,
    {
        let ca = a.get_char(i);
        let cb = b.get_char(i);
        if ca < cb {
            assert(spec_str_lt(a@.skip(i as int), b@.skip(i as int)));
            return true;
        }
        if cb < ca {
            assert(!spec_str_lt(a@.skip(i as int), b@.skip(i as int)));
            return false;
        }
        assert(a@.skip(i as int).skip(1) =~= a@.skip(i + 1));
        assert(b@.skip(i as int).skip(1) =~= b@.skip(i + 1));
        i = i + 1;
    }
    if i < nb {
        assert(a@.skip(i as int).len() == 0);
        assert(b@.skip(i as int).len() > 0);
        assert(spec_str_lt(a@.skip(i as int), b@.skip(i as int)));
        true
    } else {
        assert(b@.skip(i as int).len() == 0);
        assert(!spec_str_lt(a@.skip(i as int), b@.skip(i as int)));
        false
    }
}

/// Non-strict lexicographic comparison of two string slices.
pub fn str_le(a: &str, b: &str) -> (r: bool)
    ensures
        r == spec_str_le(a@, b@),
{
    if str_eq(a, b) {
        true
    } else {
        str_lt(a, b)
    }
}

/// Character-wise prefix test.
pub fn str_starts_with(s: &str, prefix: &str) -> (r: bool)
    ensures
        r == spec_starts_with(s@, prefix@),
{
    let ns = s.unicode_len();
    let np = prefix.unicode_len();
    if ns < np {
        return false;
    }
    let mut i: usize = 0;
    while i < np
        invariant
            ns == s@.len(),
            np == prefix@.len(),
            np <= ns,
            i <= np,
            forall|k: int| 0 <= k < i ==> s@[k] == prefix@[k],
        decreases np - i,
    {
        if s.get_char(i) != prefix.get_char(i) {
            assert(s@.take(np as int)[i as int] != prefix@[i as int]);
            return false;
        }
        i = i + 1;
    }
    assert(s@.take(np as int) =~= prefix@);
    true
}

/// Exactly one of `a < b`, `b < a`, `a == b` holds, so the lexicographic
/// order is total.
pub proof fn lemma_str_lt_trichotomy(a: Seq<char>, b: Seq<char>)
    ensures
        spec_str_lt(a, b) || spec_str_lt(b, a) || a == b,
        spec_str_lt(a, b) ==> !spec_str_lt(b, a) && a != b,
    decreases a.len(),
{
    if a.len() > 0 && b.len() > 0 && !char_lt(a[0], b[0]) && !char_lt(b[0], a[0]) {
        lemma_str_lt_trichotomy(a.skip(1), b.skip(1));
        assert(a[0] == b[0]);
        if a.skip(1) == b.skip(1) {
            assert(a =~= b) by {
                assert(forall|i: int| 1 <= i < a.len() ==> a[i] == a.skip(1)[i - 1]);
            }
        }
    }
}

/// The lexicographic order is transitive.
pub proof fn lemma_str_lt_trans(a: Seq<char>, b: Seq<char>, c: Seq<char>)
    requires
        spec_str_lt(a, b),
        spec_str_lt(b, c),
    ensures
        spec_str_lt(a, c),
    decreases a.len(),
{
    if a.len() > 0 && c.len() > 0 {
        if b.len() == 0 {
            assert(false);
        } else {
            if !char_lt(a[0], c[0]) && !char_lt(c[0], a[0]) {
                if char_lt(a[0], b[0]) {
                    if char_lt(b[0], c[0]) {
                        assert(char_lt(a[0], c[0]));
                    } else if char_lt(c[0], b[0]) {
                        assert(false);
                    } else {
                        assert((b[0] as u32) == (c[0] as u32));
                        assert(char_lt(a[0], c[0]));
                    }
                    assert(false);
                } else if char_lt(b[0], a[0]) {
                    assert(false);
                } else {
                    if char_lt(b[0], c[0]) {
                        assert(char_lt(a[0], c[0]));
                        assert(false);
                    } else if char_lt(c[0], b[0]) {
                        assert(false);
                    } else {
                        lemma_str_lt_trans(a.skip(1), b.skip(1), c.skip(1));
                    }
                }
            }
        }
    }
}

/// Transitivity for the non-strict order, in all the mixed forms.
pub proof fn lemma_str_le_trans(a: Seq<char>, b: Seq<char>, c: Seq<char>)
    requires
        spec_str_le(a, b),
        spec_str_le(b, c),
    ensures
        spec_str_le(a, c),
{
    if spec_str_lt(a, b) && spec_str_lt(b, c) {
        lemma_str_lt_trans(a, b, c);
    }
}

/// Relies on `String::push`: appends exactly the given character at the end
/// of the string.
#[verifier::external_body]
pub fn push_char(s: &mut String, c: char)
    ensures
        final(s)@ == old(s)@.push(c),
{
    s.push(c);
}

/// Relies on `char::from_u32`: yields the character with the given
/// scalar value, and nothing exactly when the value is a surrogate or
/// lies past the largest scalar value.
#[verifier::external_body]
pub fn char_from_u32(v: u32) -> (r: Option<char>)
    ensures
        r matches Some(c) ==> c as u32 == v,
        r is Some <==> (v < 0xD800 || (0xE000 <= v && v <= 0x10FFFF)),
{
    char::from_u32(v)
}

/// A clone of a string vector, with the contents pinned in the contract.
pub fn clone_strings(v: &Vec<String>) -> (r: Vec<String>)
    ensures
        r.deep_view() == v.deep_view(),
        r@.len() == v@.len(),
{
    let mut r: Vec<String> = Vec::new();
    let mut i: usize = 0;
    while i < v.len()
        invariant
            i <= v.len(),
            r.len() == i,
            forall|k: int| 0 <= k < i ==> r.deep_view()[k] == v.deep_view()[k],
        decreases v.len() - i,
    {
        r.push(v[i].clone());
        i = i + 1;
    }
    assert(r.deep_view() =~= v.deep_view());
    r
}

} // verus!
