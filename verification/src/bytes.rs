//! Byte strings: the ASCII bytes that the shims look for, and the searches,
//! comparisons and splits that the rest of the library is written with.
use vstd::prelude::*;
use vstd::slice::slice_subrange;

verus! {

/// Line feed, which ends a line.
pub const LF: u8 = 0x0a;

/// Carriage return, which may stand before a line feed.
pub const CR: u8 = 0x0d;

/// `(`
pub const OPEN_PAREN: u8 = 0x28;

/// `.`
pub const DOT: u8 = 0x2e;

/// `/`
pub const SLASH: u8 = 0x2f;

/// `:`
pub const COLON: u8 = 0x3a;

/// `?`
pub const QUESTION: u8 = 0x3f;

/// `\`
pub const BACKSLASH: u8 = 0x5c;

/// Whether a byte is one of those that end a line.
pub open spec fn is_line_break(b: u8) -> bool {
    b == CR || b == LF
}

/// Whether a byte is a decimal digit.
pub open spec fn is_digit(b: u8) -> bool {
    0x30 <= b <= 0x39
}

/// A byte with an ASCII capital letter made small.
pub open spec fn ascii_lower(b: u8) -> u8 {
    if 0x41 <= b <= 0x5a {
        (b + 0x20) as u8
    } else {
        b
    }
}

/// Whether two byte strings are the same but for the case of ASCII letters.
pub open spec fn same_ignoring_case(a: Seq<u8>, b: Seq<u8>) -> bool {
    a.len() == b.len() && forall|i: int|
        0 <= i < a.len() ==> ascii_lower(#[trigger] a[i]) == ascii_lower(b[i])
}

/// The contents of a list of byte strings.
pub open spec fn views(list: Seq<Vec<u8>>) -> Seq<Seq<u8>> {
    list.map_values(|v: Vec<u8>| v@)
}

/// The contents of a list of pairs of byte strings.
pub open spec fn pair_views(list: Seq<(Vec<u8>, Vec<u8>)>) -> Seq<(Seq<u8>, Seq<u8>)> {
    list.map_values(|p: (Vec<u8>, Vec<u8>)| (p.0@, p.1@))
}

/// How many bytes stand before the first `b` of `s`; all of them where there
/// is none.
pub open spec fn find(s: Seq<u8>, b: u8) -> int
    decreases s.len(),
{
    if s.len() == 0 || s[0] == b {
        0
    } else {
        1 + find(s.drop_first(), b)
    }
}

/// `find` stops at the first occurrence, and nowhere else.
pub proof fn lemma_find(s: Seq<u8>, b: u8)
    ensures
        0 <= find(s, b) <= s.len(),
        find(s, b) < s.len() ==> s[find(s, b)] == b,
        forall|i: int| 0 <= i < find(s, b) ==> s[i] != b,
    decreases s.len(),
{
    if s.len() > 0 && s[0] != b {
        lemma_find(s.drop_first(), b);
        assert forall|i: int| 0 <= i < find(s, b) implies s[i] != b by {
            if i > 0 {
                assert(s.drop_first()[i - 1] == s[i]);
            }
        }
    }
}

/// An index before which there is no `b`, and at which there is one or the
/// string ends, is the one that `find` gives.
pub proof fn lemma_find_is(s: Seq<u8>, b: u8, n: int)
    requires
        0 <= n <= s.len(),
        n < s.len() ==> s[n] == b,
        forall|i: int| 0 <= i < n ==> s[i] != b,
    ensures
        find(s, b) == n,
{
    lemma_find(s, b);
}

/// The index of the first `b` in `data`, or the length of `data`.
pub fn find_byte(data: &[u8], b: u8) -> (n: usize)
    ensures
        n == find(data@, b),
        n <= data@.len(),
{
    let mut i: usize = 0;
    while i < data.len() && data[i] != b
        invariant
            i <= data@.len(),
            forall|j: int| 0 <= j < i ==> data@[j] != b,
        decreases data@.len() - i,
    {
        i += 1;
    }
    proof {
        lemma_find_is(data@, b, i as int);
    }
    i
}

/// Whether two byte strings are equal.
pub fn equal(a: &[u8], b: &[u8]) -> (r: bool)
    ensures
        r == (a@ == b@),
{
    if a.len() != b.len() {
        return false;
    }
    let mut i: usize = 0;
    while i < a.len()
        invariant
            a@.len() == b@.len(),
            i <= a@.len(),
            forall|j: int| 0 <= j < i ==> a@[j] == b@[j],
        decreases a@.len() - i,
    {
        if a[i] != b[i] {
            return false;
        }
        i += 1;
    }
    assert(a@ =~= b@);
    true
}

/// Whether `data` begins with `prefix`.
pub fn has_prefix(data: &[u8], prefix: &[u8]) -> (r: bool)
    ensures
        r == prefix@.is_prefix_of(data@),
{
    prefix.len() <= data.len() && equal(slice_subrange(data, 0, prefix.len()), prefix)
}

/// Whether `data` ends with `suffix`.
pub fn has_suffix(data: &[u8], suffix: &[u8]) -> (r: bool)
    ensures
        r == suffix@.is_suffix_of(data@),
{
    suffix.len() <= data.len() && equal(
        slice_subrange(data, data.len() - suffix.len(), data.len()),
        suffix,
    )
}

/// Adds the bytes of `data` at the end of `out`.
pub fn append(out: &mut Vec<u8>, data: &[u8])
    ensures
        final(out)@ == old(out)@ + data@,
{
    out.extend_from_slice(data);
    assert(out@ =~= old(out)@ + data@);
}

/// A copy of a byte string.
pub fn copy(data: &Vec<u8>) -> (r: Vec<u8>)
    ensures
        r@ == data@,
{
    let r: Vec<u8> = data.clone();
    assert(r@ =~= data@);
    r
}

} // verus!
