//! Text: prefixes and suffixes of strings, which are sequences of characters.
use vstd::prelude::*;
use vstd::string::*;

verus! {

/// The contents of a list of strings.
pub open spec fn string_views(list: Seq<String>) -> Seq<Seq<char>> {
    list.map_values(|s: String| s@)
}

/// The contents of a list of string slices.
pub open spec fn str_views(list: Seq<&str>) -> Seq<Seq<char>> {
    list.map_values(|s: &str| s@)
}

/// What follows `prefix` in `s`, if `s` begins with it.
pub open spec fn after_prefix<T>(s: Seq<T>, prefix: Seq<T>) -> Option<Seq<T>> {
    if prefix.is_prefix_of(s) {
        Some(s.skip(prefix.len() as int))
    } else {
        None
    }
}

/// What follows the first of `prefixes` that `s` begins with.
pub open spec fn after_first_prefix<T>(s: Seq<T>, prefixes: Seq<Seq<T>>) -> Option<Seq<T>>
    decreases prefixes.len(),
{
    if prefixes.len() == 0 {
        None
    } else if prefixes[0].is_prefix_of(s) {
        after_prefix(s, prefixes[0])
    } else {
        after_first_prefix(s, prefixes.drop_first())
    }
}

/// A character with an ASCII capital letter made small.
pub open spec fn lower(c: char) -> char {
    if 'A' <= c && c <= 'Z' {
        (c as int + 0x20) as char
    } else {
        c
    }
}

/// A text with its ASCII capital letters made small.
pub open spec fn lowered(text: Seq<char>) -> Seq<char> {
    text.map_values(|c: char| lower(c))
}

/// What follows `prefix` in `text`, if `text` begins with it.
pub fn strip_prefix<'a>(text: &'a str, prefix: &str) -> (r: Option<&'a str>)
    ensures
        match r {
            Some(rest) => after_prefix(text@, prefix@) == Some(rest@),
            None => after_prefix(text@, prefix@) is None,
        },
{
    let n: usize = text.unicode_len();
    let m: usize = prefix.unicode_len();
    if m > n {
        return None;
    }
    let mut i: usize = 0;
    while i < m
        invariant
            i <= m <= n,
            n == text@.len(),
            m == prefix@.len(),
            forall|j: int| 0 <= j < i ==> text@[j] == prefix@[j],
        decreases m - i,
    {
        if text.get_char(i) != prefix.get_char(i) {
            assert(prefix@.is_prefix_of(text@) ==> prefix@[i as int] == text@[i as int]);
            return None;
        }
        i += 1;
    }
    assert(prefix@.is_prefix_of(text@));
    Some(text.substring_char(m, n))
}

/// What follows the first of `prefixes` that `text` begins with.
pub fn strip_first_prefix<'a>(text: &'a str, prefixes: &[&str]) -> (r: Option<&'a str>)
    ensures
        match r {
            Some(rest) => after_first_prefix(text@, str_views(prefixes@)) == Some(rest@),
            None => after_first_prefix(text@, str_views(prefixes@)) is None,
        },
{
    let ghost all = str_views(prefixes@);
    let mut i: usize = 0;
    assert(all.skip(0) =~= all);
    while i < prefixes.len()
        invariant
            i <= prefixes@.len(),
            all == str_views(prefixes@),
            after_first_prefix(text@, all) == after_first_prefix(text@, all.skip(i as int)),
        decreases prefixes@.len() - i,
    {
        proof {
            assert(all.skip(i as int)[0] == prefixes@[i as int]@);
            assert(all.skip(i as int).drop_first() =~= all.skip(i + 1));
        }
        let rest: Option<&str> = strip_prefix(text, prefixes[i]);
        if rest.is_some() {
            return rest;
        }
        i += 1;
    }
    None
}

/// Whether `text` begins with a hyphen, as options do.
pub fn is_option(text: &str) -> (r: bool)
    ensures
        r == (text@.len() > 0 && text@[0] == '-'),
{
    text.unicode_len() > 0 && text.get_char(0) == '-'
}

/// Whether some text stands in another.
pub open spec fn says(text: Seq<char>, part: Seq<char>) -> bool {
    exists|at: int|
        0 <= at <= text.len() - part.len() && #[trigger] text.skip(at).take(part.len() as int) == part
}

} // verus!
