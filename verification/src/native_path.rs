//! Native paths: the syntax of Windows paths, whatever the platform that the
//! library is built for.
//!
//! A path is a byte string in the encoding of `std::ffi::OsStr`, a superset of
//! UTF-8 in which all the bytes that mean something here are ASCII. It begins
//! with a prefix or without one (`C:`, `\\server\share`, `\\?\C:` and others);
//! a separator after that makes the path start at a root; what follows are
//! names between separators.
use vstd::prelude::*;
use vstd::slice::slice_subrange;
use crate::bytes::{append, equal, BACKSLASH, COLON, DOT, QUESTION, SLASH};

verus! {

/// Whether a byte separates names. In a verbatim path only `\` does.
pub open spec fn is_sep(b: u8, verbatim: bool) -> bool {
    b == BACKSLASH || (b == SLASH && !verbatim)
}

/// Whether a byte is an ASCII letter.
pub open spec fn is_letter(b: u8) -> bool {
    0x41 <= b <= 0x5a || 0x61 <= b <= 0x7a
}

/// A byte with an ASCII small letter made a capital.
pub open spec fn ascii_upper(b: u8) -> u8 {
    if 0x61 <= b <= 0x7a {
        (b - 0x20) as u8
    } else {
        b
    }
}

/// The first separator of a path at or after `from`, or its end.
pub open spec fn next_sep(path: Seq<u8>, from: int, verbatim: bool) -> int
    decreases path.len() - from,
{
    if from < 0 || from >= path.len() {
        path.len() as int
    } else if is_sep(path[from], verbatim) {
        from
    } else {
        next_sep(path, from + 1, verbatim)
    }
}

proof fn lemma_next_sep(path: Seq<u8>, from: int, verbatim: bool)
    requires
        0 <= from <= path.len(),
    ensures
        from <= next_sep(path, from, verbatim) <= path.len(),
        next_sep(path, from, verbatim) < path.len() ==> is_sep(
            path[next_sep(path, from, verbatim)],
            verbatim,
        ),
    decreases path.len() - from,
{
    if from < path.len() && !is_sep(path[from], verbatim) {
        lemma_next_sep(path, from + 1, verbatim);
    }
}

/// The kinds of prefix.
#[derive(Clone, Copy, PartialEq, Eq, Structural, Debug)]
pub enum PrefixKind {
    /// `\\?\name`
    Verbatim,
    /// `\\?\UNC\server\share`
    VerbatimUnc,
    /// `\\?\C:`
    VerbatimDisk,
    /// `\\.\device`
    Device,
    /// `\\server\share`
    Unc,
    /// `C:`
    Disk,
}

/// What a path begins with: the kind, the names or the drive letter (a capital)
/// in it, and how many bytes it takes.
#[verifier::ext_equal]
pub struct Prefix {
    pub kind: PrefixKind,
    pub first: Seq<u8>,
    pub second: Seq<u8>,
    pub len: int,
}

impl Prefix {
    /// A path with such a prefix is taken as it is written.
    pub open spec fn is_verbatim(self) -> bool {
        self.kind == PrefixKind::Verbatim || self.kind == PrefixKind::VerbatimUnc || self.kind
            == PrefixKind::VerbatimDisk
    }
}

/// Whether a drive letter and a colon stand at `at`.
pub open spec fn drive_at(path: Seq<u8>, at: int) -> bool {
    at + 1 < path.len() && is_letter(path[at]) && path[at + 1] == COLON
}

/// Two names after one another, from `at`: the end of each. Without a second
/// one both ends are the same.
pub open spec fn two_names(path: Seq<u8>, at: int, verbatim: bool) -> (int, int) {
    let first = next_sep(path, at, verbatim);
    if first + 1 < path.len() {
        let second = next_sep(path, first + 1, verbatim);
        if second > first + 1 {
            (first, second)
        } else {
            (first, first)
        }
    } else {
        (first, first)
    }
}

/// The second of two names.
pub open spec fn second_name(path: Seq<u8>, ends: (int, int)) -> Seq<u8> {
    if ends.1 > ends.0 {
        path.subrange(ends.0 + 1, ends.1)
    } else {
        Seq::empty()
    }
}

/// A verbatim path: `\\?\`, with backslashes and no others.
pub open spec fn starts_verbatim(path: Seq<u8>) -> bool {
    path.len() >= 4 && path[0] == BACKSLASH && path[1] == BACKSLASH && path[2] == QUESTION
        && path[3] == BACKSLASH
}

/// `UNC` and a separator after `\\?\`.
pub open spec fn starts_verbatim_unc(path: Seq<u8>) -> bool {
    starts_verbatim(path) && path.len() >= 8 && path[4] == 0x55 && path[5] == 0x4e && path[6]
        == 0x43 && is_sep(path[7], false)
}

/// Two separators.
pub open spec fn starts_with_two_seps(path: Seq<u8>) -> bool {
    path.len() >= 2 && is_sep(path[0], false) && is_sep(path[1], false)
}

/// A path to a device: `\\.\`.
pub open spec fn starts_device(path: Seq<u8>) -> bool {
    starts_with_two_seps(path) && path.len() >= 4 && path[2] == DOT && is_sep(path[3], false)
}

/// The prefix of a path.
pub open spec fn prefix(path: Seq<u8>) -> Option<Prefix> {
    if starts_verbatim_unc(path) {
        let ends = two_names(path, 8, true);
        Some(
            Prefix {
                kind: PrefixKind::VerbatimUnc,
                first: path.subrange(8, ends.0),
                second: second_name(path, ends),
                len: ends.1,
            },
        )
    } else if starts_verbatim(path) {
        if drive_at(path, 4) && (path.len() == 6 || is_sep(path[6], false)) {
            Some(
                Prefix {
                    kind: PrefixKind::VerbatimDisk,
                    first: seq![ascii_upper(path[4])],
                    second: Seq::empty(),
                    len: 6,
                },
            )
        } else {
            let end = next_sep(path, 4, true);
            Some(
                Prefix {
                    kind: PrefixKind::Verbatim,
                    first: path.subrange(4, end),
                    second: Seq::empty(),
                    len: end,
                },
            )
        }
    } else if starts_device(path) {
        let end = next_sep(path, 4, false);
        Some(
            Prefix {
                kind: PrefixKind::Device,
                first: path.subrange(4, end),
                second: Seq::empty(),
                len: end,
            },
        )
    } else if starts_with_two_seps(path) {
        let ends = two_names(path, 2, false);
        if ends.0 > 2 && ends.1 > ends.0 {
            Some(
                Prefix {
                    kind: PrefixKind::Unc,
                    first: path.subrange(2, ends.0),
                    second: second_name(path, ends),
                    len: ends.1,
                },
            )
        } else {
            None
        }
    } else if drive_at(path, 0) {
        Some(
            Prefix {
                kind: PrefixKind::Disk,
                first: seq![ascii_upper(path[0])],
                second: Seq::empty(),
                len: 2,
            },
        )
    } else {
        None
    }
}

/// How many bytes the prefix takes.
pub open spec fn prefix_len(path: Seq<u8>) -> int {
    match prefix(path) {
        Some(p) => p.len,
        None => 0,
    }
}

/// Whether the path is taken as it is written.
pub open spec fn is_verbatim(path: Seq<u8>) -> bool {
    prefix(path) matches Some(p) && p.is_verbatim()
}

/// Whether a separator follows the prefix.
pub open spec fn has_physical_root(path: Seq<u8>) -> bool {
    prefix_len(path) < path.len() && is_sep(path[prefix_len(path)], false)
}

/// Whether the path starts at a root: a separator after the prefix, or a prefix
/// that is more than a drive letter.
pub open spec fn has_root(path: Seq<u8>) -> bool {
    has_physical_root(path) || (prefix(path) matches Some(p) && p.kind != PrefixKind::Disk)
}

/// Whether the path names one place, wherever the program runs.
pub open spec fn absolute(path: Seq<u8>) -> bool {
    prefix(path) is Some && has_root(path)
}

/// Whether the path begins with a `.` for the current directory.
pub open spec fn has_cur_dir(path: Seq<u8>) -> bool {
    let at = prefix_len(path);
    !has_root(path) && at < path.len() && path[at] == DOT && (at + 1 == path.len() || is_sep(
        path[at + 1],
        is_verbatim(path),
    ))
}

/// Where the names of a path begin.
pub open spec fn body_start(path: Seq<u8>) -> int {
    prefix_len(path) + if has_physical_root(path) {
        1int
    } else {
        0
    } + if has_cur_dir(path) {
        1int
    } else {
        0
    }
}

/// What stands between two separators without being a name: nothing, or a `.`
/// where the path is not verbatim.
pub open spec fn is_skipped(piece: Seq<u8>, verbatim: bool) -> bool {
    piece.len() == 0 || (!verbatim && piece == seq![DOT])
}

/// The names of a path from `from` on: where each begins and ends.
pub open spec fn names_from(path: Seq<u8>, from: int, verbatim: bool) -> Seq<(int, int)>
    decreases path.len() - from,
{
    if from < 0 || from > path.len() {
        Seq::empty()
    } else {
        let end = next_sep(path, from, verbatim);
        let here = if is_skipped(path.subrange(from, end), verbatim) {
            Seq::empty()
        } else {
            seq![(from, end)]
        };
        if from <= end < path.len() {
            here + names_from(path, end + 1, verbatim)
        } else {
            here
        }
    }
}

/// The names of a path: where each begins and ends.
pub open spec fn names(path: Seq<u8>) -> Seq<(int, int)> {
    names_from(path, body_start(path), is_verbatim(path))
}

/// The parts that a path is made of.
#[verifier::ext_equal]
pub enum Component {
    Prefix(PrefixKind, Seq<u8>, Seq<u8>),
    RootDir,
    CurDir,
    ParentDir,
    Normal(Seq<u8>),
}

/// One dot and two, byte by byte.
proof fn lemma_dots(name: Seq<u8>)
    ensures
        (name == seq![DOT]) == (name.len() == 1 && name[0] == DOT),
        (name == seq![DOT, DOT]) == (name.len() == 2 && name[0] == DOT && name[1] == DOT),
{
    if name.len() == 1 && name[0] == DOT {
        assert(name =~= seq![DOT]);
    }
    if name.len() == 2 && name[0] == DOT && name[1] == DOT {
        assert(name =~= seq![DOT, DOT]);
    }
}

/// What a name stands for.
pub open spec fn component(name: Seq<u8>) -> Component {
    if name == seq![DOT] {
        Component::CurDir
    } else if name == seq![DOT, DOT] {
        Component::ParentDir
    } else {
        Component::Normal(name)
    }
}

/// The parts of a path before its names, without the prefix.
pub open spec fn start_components(path: Seq<u8>) -> Seq<Component> {
    if has_physical_root(path) {
        seq![Component::RootDir]
    } else {
        match prefix(path) {
            Some(p) => if p.kind != PrefixKind::Disk && !p.is_verbatim() {
                seq![Component::RootDir]
            } else {
                Seq::empty()
            },
            None => if has_cur_dir(path) {
                seq![Component::CurDir]
            } else {
                Seq::empty()
            },
        }
    }
}

/// The parts of a path after its prefix.
pub open spec fn components_after_prefix(path: Seq<u8>) -> Seq<Component> {
    start_components(path) + names(path).map_values(
        |r: (int, int)| component(path.subrange(r.0, r.1)),
    )
}

/// The parts of a path.
pub open spec fn components(path: Seq<u8>) -> Seq<Component> {
    match prefix(path) {
        Some(p) => seq![Component::Prefix(p.kind, p.first, p.second)] + components_after_prefix(
            path,
        ),
        None => components_after_prefix(path),
    }
}

/// Where the last name stands, if it is the name of a file or directory.
pub open spec fn file_name_span(path: Seq<u8>) -> Option<(int, int)> {
    if names(path).len() > 0 {
        let (start, end) = names(path).last();
        if component(path.subrange(start, end)) is Normal {
            Some((start, end))
        } else {
            None
        }
    } else {
        None
    }
}

/// The path without its last part; there is none where that is a root or a
/// prefix.
pub open spec fn parent_of(path: Seq<u8>) -> Option<Seq<u8>> {
    let all = names(path);
    if all.len() > 1 {
        Some(path.take(all[all.len() - 2].1))
    } else if all.len() == 1 {
        Some(path.take(body_start(path)))
    } else if prefix(path) is None && has_cur_dir(path) {
        Some(Seq::empty())
    } else {
        None
    }
}

/// The last dot of a name, from `start` to `end`; `start` where there is none.
pub open spec fn last_dot(path: Seq<u8>, start: int, end: int) -> int
    decreases end - start,
{
    if end <= start {
        start
    } else if path[end - 1] == DOT {
        end - 1
    } else {
        last_dot(path, start, end - 1)
    }
}

/// Where the last name stands, without its extension. A dot at the beginning of
/// a name begins no extension.
pub open spec fn file_stem_span(path: Seq<u8>) -> Option<(int, int)> {
    match file_name_span(path) {
        Some((start, end)) => Some(
            (
                start,
                if last_dot(path, start, end) == start {
                    end
                } else {
                    last_dot(path, start, end)
                },
            ),
        ),
        None => None,
    }
}

/// The last name of a path, without its extension.
pub open spec fn stem_of(path: Seq<u8>) -> Option<Seq<u8>> {
    match file_stem_span(path) {
        Some((start, end)) => Some(path.subrange(start, end)),
        None => None,
    }
}

/// One more part after those of a verbatim path, in which nothing is left to be
/// resolved later.
pub open spec fn resolved_one(parts: Seq<Component>, part: Component) -> Seq<Component> {
    match part {
        Component::RootDir => seq![Component::RootDir],
        Component::CurDir => parts,
        Component::ParentDir => if parts.len() > 0 && parts.last() is Normal {
            parts.drop_last()
        } else {
            parts
        },
        _ => parts.push(part),
    }
}

/// All of `more`, one after the other, after the parts of a verbatim path.
pub open spec fn resolved(parts: Seq<Component>, more: Seq<Component>) -> Seq<Component>
    decreases more.len(),
{
    if more.len() == 0 {
        parts
    } else {
        resolved_one(resolved(parts, more.drop_last()), more.last())
    }
}

/// How a part is written.
pub open spec fn written(part: Component) -> Seq<u8> {
    match part {
        Component::Prefix(_, _, _) => Seq::empty(),
        Component::RootDir => seq![BACKSLASH],
        Component::CurDir => seq![DOT],
        Component::ParentDir => seq![DOT, DOT],
        Component::Normal(name) => name,
    }
}

/// Parts written after a verbatim prefix, with backslashes between them.
pub open spec fn written_parts(parts: Seq<Component>) -> Seq<u8>
    decreases parts.len(),
{
    if parts.len() == 0 {
        Seq::empty()
    } else {
        let before = parts.drop_last();
        let last = parts.last();
        let separator = if last is RootDir || (before.len() > 0 && before.last() is RootDir) {
            Seq::empty()
        } else {
            seq![BACKSLASH]
        };
        written_parts(before) + separator + written(last)
    }
}

/// `path`, seen from `base`: a path with a prefix stands for itself, one that
/// starts at a root keeps the prefix of `base`, and any other goes on from
/// `base`. After a verbatim `base` the parts are resolved, since nothing will
/// resolve them later.
pub open spec fn joined(base: Seq<u8>, path: Seq<u8>) -> Seq<u8> {
    if prefix(path) is Some {
        path
    } else if is_verbatim(base) && path.len() > 0 {
        base.take(prefix_len(base)) + written_parts(
            resolved(components_after_prefix(base), components_after_prefix(path)),
        )
    } else if has_root(path) {
        base.take(prefix_len(base)) + path
    } else if base.len() == 0 || is_sep(base.last(), false) || (prefix(base) matches Some(p)
        && p.kind == PrefixKind::Disk && p.len == base.len()) {
        base + path
    } else {
        base.push(BACKSLASH) + path
    }
}

/// A path with another last name.
pub open spec fn renamed(path: Seq<u8>, name: Seq<u8>) -> Seq<u8> {
    match (file_name_span(path), parent_of(path)) {
        (Some(_), Some(parent)) => joined(parent, name),
        _ => joined(path, name),
    }
}

/// The prefix of a path, found.
struct FoundPrefix {
    kind: PrefixKind,
    first: Vec<u8>,
    second: Vec<u8>,
    len: usize,
}

impl FoundPrefix {
    spec fn is(&self, p: Prefix) -> bool {
        &&& self.kind == p.kind
        &&& self.first@ == p.first
        &&& self.second@ == p.second
        &&& self.len == p.len
    }
}

/// The first separator of a path at or after `from`, or its end.
fn find_sep(path: &[u8], from: usize, verbatim: bool) -> (r: usize)
    requires
        from <= path@.len(),
    ensures
        r == next_sep(path@, from as int, verbatim),
        from <= r <= path@.len(),
        r < path@.len() ==> is_sep(path@[r as int], verbatim),
{
    let mut i: usize = from;
    while i < path.len() && !(path[i] == BACKSLASH || (path[i] == SLASH && !verbatim))
        invariant
            from <= i <= path@.len(),
            next_sep(path@, from as int, verbatim) == next_sep(path@, i as int, verbatim),
        decreases path@.len() - i,
    {
        i += 1;
    }
    i
}

/// A copy of a part of a path.
fn part(path: &[u8], start: usize, end: usize) -> (r: Vec<u8>)
    requires
        start <= end <= path@.len(),
    ensures
        r@ == path@.subrange(start as int, end as int),
{
    vstd::slice::slice_to_vec(slice_subrange(path, start, end))
}

/// Whether a drive letter and a colon stand at `at`.
fn is_drive_at(path: &[u8], at: usize) -> (r: bool)
    requires
        at <= path@.len(),
    ensures
        r == drive_at(path@, at as int),
{
    path.len() - at >= 2 && ((0x41 <= path[at] && path[at] <= 0x5a) || (0x61 <= path[at]
        && path[at] <= 0x7a)) && path[at + 1] == COLON
}

/// The drive letter at `at`, a capital.
fn drive(path: &[u8], at: usize) -> (r: Vec<u8>)
    requires
        at < path@.len(),
    ensures
        r@ == seq![ascii_upper(path@[at as int])],
{
    let b: u8 = path[at];
    let upper: u8 = if 0x61 <= b && b <= 0x7a {
        b - 0x20
    } else {
        b
    };
    let r: Vec<u8> = vec![upper];
    assert(r@ =~= seq![ascii_upper(path@[at as int])]);
    r
}

/// Two names after one another, from `at`: the end of each.
fn find_two_names(path: &[u8], at: usize, verbatim: bool) -> (r: (usize, usize))
    requires
        at <= path@.len(),
    ensures
        (r.0 as int, r.1 as int) == two_names(path@, at as int, verbatim),
        at <= r.0 <= r.1 <= path@.len(),
        r.0 < r.1 ==> r.0 + 1 < r.1,
{
    let first: usize = find_sep(path, at, verbatim);
    if first < path.len() && first + 1 < path.len() {
        let second: usize = find_sep(path, first + 1, verbatim);
        if second > first + 1 {
            return (first, second);
        }
    }
    (first, first)
}

/// A copy of the second of two names.
fn copy_second_name(path: &[u8], ends: (usize, usize)) -> (r: Vec<u8>)
    requires
        ends.0 <= ends.1 <= path@.len(),
    ensures
        r@ == second_name(path@, (ends.0 as int, ends.1 as int)),
{
    if ends.1 > ends.0 {
        part(path, ends.0 + 1, ends.1)
    } else {
        Vec::new()
    }
}

/// Whether a byte separates names where the path is not verbatim.
fn either_sep(b: u8) -> (r: bool)
    ensures
        r == is_sep(b, false),
{
    b == BACKSLASH || b == SLASH
}

/// The prefix of a path.
fn find_prefix(path: &[u8]) -> (r: Option<FoundPrefix>)
    ensures
        match r {
            Some(found) => prefix(path@) matches Some(p) && found.is(p) && found.len
                <= path@.len(),
            None => prefix(path@) is None,
        },
{
    if path.len() >= 4 && path[0] == BACKSLASH && path[1] == BACKSLASH && path[2] == QUESTION
        && path[3] == BACKSLASH {
        if path.len() >= 8 && path[4] == 0x55 && path[5] == 0x4e && path[6] == 0x43
            && either_sep(path[7]) {
            let ends: (usize, usize) = find_two_names(path, 8, true);
            return Some(
                FoundPrefix {
                    kind: PrefixKind::VerbatimUnc,
                    first: part(path, 8, ends.0),
                    second: copy_second_name(path, ends),
                    len: ends.1,
                },
            );
        }
        if is_drive_at(path, 4) && (path.len() == 6 || either_sep(path[6])) {
            return Some(
                FoundPrefix {
                    kind: PrefixKind::VerbatimDisk,
                    first: drive(path, 4),
                    second: Vec::new(),
                    len: 6,
                },
            );
        }
        let end: usize = find_sep(path, 4, true);
        return Some(
            FoundPrefix {
                kind: PrefixKind::Verbatim,
                first: part(path, 4, end),
                second: Vec::new(),
                len: end,
            },
        );
    }
    if path.len() >= 2 && either_sep(path[0]) && either_sep(path[1]) {
        if path.len() >= 4 && path[2] == DOT && either_sep(path[3]) {
            let end: usize = find_sep(path, 4, false);
            return Some(
                FoundPrefix {
                    kind: PrefixKind::Device,
                    first: part(path, 4, end),
                    second: Vec::new(),
                    len: end,
                },
            );
        }
        let ends: (usize, usize) = find_two_names(path, 2, false);
        if ends.0 > 2 && ends.1 > ends.0 {
            return Some(
                FoundPrefix {
                    kind: PrefixKind::Unc,
                    first: part(path, 2, ends.0),
                    second: copy_second_name(path, ends),
                    len: ends.1,
                },
            );
        }
        return None;
    }
    if is_drive_at(path, 0) {
        return Some(
            FoundPrefix {
                kind: PrefixKind::Disk,
                first: drive(path, 0),
                second: Vec::new(),
                len: 2,
            },
        );
    }
    None
}

/// What stands before the names of a path.
struct Start {
    prefix: Option<FoundPrefix>,
    prefix_len: usize,
    verbatim: bool,
    physical_root: bool,
    root: bool,
    cur_dir: bool,
    body: usize,
}

impl Start {
    spec fn is_of(&self, path: Seq<u8>) -> bool {
        &&& match self.prefix {
            Some(found) => prefix(path) matches Some(p) && found.is(p),
            None => prefix(path) is None,
        }
        &&& self.prefix_len == prefix_len(path)
        &&& self.verbatim == is_verbatim(path)
        &&& self.physical_root == has_physical_root(path)
        &&& self.root == has_root(path)
        &&& self.cur_dir == has_cur_dir(path)
        &&& self.body == body_start(path)
        &&& self.prefix_len <= self.body <= path.len()
    }
}

/// Looks at what stands before the names of a path.
fn start(path: &[u8]) -> (r: Start)
    ensures
        r.is_of(path@),
{
    let found: Option<FoundPrefix> = find_prefix(path);
    let (prefix_len, verbatim, implied): (usize, bool, bool) = match &found {
        Some(p) => (
            p.len,
            p.kind == PrefixKind::Verbatim || p.kind == PrefixKind::VerbatimUnc || p.kind
                == PrefixKind::VerbatimDisk,
            p.kind != PrefixKind::Disk,
        ),
        None => (0, false, false),
    };
    let physical_root: bool = prefix_len < path.len() && either_sep(path[prefix_len]);
    let root: bool = physical_root || implied;
    let cur_dir: bool = !root && prefix_len < path.len() && path[prefix_len] == DOT && (prefix_len
        + 1 == path.len() || path[prefix_len + 1] == BACKSLASH || (path[prefix_len + 1] == SLASH
        && !verbatim));
    let body: usize = if physical_root || cur_dir {
        prefix_len + 1
    } else {
        prefix_len
    };
    Start { prefix: found, prefix_len, verbatim, physical_root, root, cur_dir, body }
}

/// Where the names of a list begin and end.
pub open spec fn span_views(spans: Seq<(usize, usize)>) -> Seq<(int, int)> {
    spans.map_values(|r: (usize, usize)| (r.0 as int, r.1 as int))
}

proof fn lemma_names_from(path: Seq<u8>, from: int, verbatim: bool)
    requires
        0 <= from <= path.len(),
    ensures
        forall|i: int|
            0 <= i < names_from(path, from, verbatim).len() ==> from <= (
            #[trigger] names_from(path, from, verbatim)[i]).0 < names_from(path, from, verbatim)[i].1
                <= path.len(),
    decreases path.len() - from,
{
    lemma_next_sep(path, from, verbatim);
    let end = next_sep(path, from, verbatim);
    if end < path.len() {
        lemma_names_from(path, end + 1, verbatim);
        let here = if is_skipped(path.subrange(from, end), verbatim) {
            Seq::empty()
        } else {
            seq![(from, end)]
        };
        let later = names_from(path, end + 1, verbatim);
        let all = names_from(path, from, verbatim);
        assert(all == here + later);
        assert forall|i: int| 0 <= i < all.len() implies from <= (#[trigger] all[i]).0 < all[i].1
            <= path.len() by {
            if i >= here.len() {
                assert(all[i] == later[i - here.len()]);
            }
        }
    }
}

/// Every name lies within its path and has at least one byte.
proof fn lemma_names(path: Seq<u8>)
    requires
        0 <= body_start(path) <= path.len(),
    ensures
        forall|i: int|
            0 <= i < names(path).len() ==> 0 <= body_start(path) <= (#[trigger] names(path)[i]).0
                < names(path)[i].1 <= path.len(),
{
    lemma_names_from(path, body_start(path), is_verbatim(path));
}

/// The names of a path: where each begins and ends.
fn find_names(path: &[u8], from: usize, verbatim: bool) -> (r: Vec<(usize, usize)>)
    requires
        from <= path@.len(),
    ensures
        span_views(r@) == names_from(path@, from as int, verbatim),
        forall|i: int|
            0 <= i < r@.len() ==> from <= (#[trigger] r@[i]).0 < r@[i].1 <= path@.len(),
{
    let mut r: Vec<(usize, usize)> = Vec::new();
    let mut at: usize = from;
    let ghost all = names_from(path@, from as int, verbatim);
    assert(span_views(r@) + all =~= all);
    loop
        invariant_except_break
            all == span_views(r@) + names_from(path@, at as int, verbatim),
        invariant
            from <= at <= path@.len(),
            all == names_from(path@, from as int, verbatim),
        ensures
            all == span_views(r@),
        decreases path@.len() - at,
    {
        let end: usize = find_sep(path, at, verbatim);
        let ghost before = span_views(r@);
        let skip: bool = end == at || (!verbatim && end == at + 1 && path[at] == DOT);
        proof {
            let piece = path@.subrange(at as int, end as int);
            lemma_dots(piece);
            assert(skip == is_skipped(piece, verbatim));
        }
        if !skip {
            r.push((at, end));
            assert(span_views(r@) =~= before.push((at as int, end as int)));
        }
        let ghost here = if skip {
            Seq::<(int, int)>::empty()
        } else {
            seq![(at as int, end as int)]
        };
        assert(span_views(r@) =~= before + here);
        if end == path.len() {
            break;
        }
        proof {
            let later = names_from(path@, end + 1, verbatim);
            assert(before + (here + later) =~= span_views(r@) + later);
        }
        at = end + 1;
    }
    proof {
        lemma_names_from(path@, from as int, verbatim);
        assert forall|i: int| 0 <= i < r@.len() implies from <= (#[trigger] r@[i]).0 < r@[i].1
            <= path@.len() by {
            assert(span_views(r@)[i] == (r@[i].0 as int, r@[i].1 as int));
            assert(all[i].0 < all[i].1);
        }
    }
    r
}

/// Whether a path names one place, wherever the program runs.
pub fn is_absolute(path: &[u8]) -> (r: bool)
    ensures
        r == absolute(path@),
{
    let s: Start = start(path);
    s.prefix.is_some() && s.root
}

/// Where the last name stands, if it is the name of a file or directory.
fn find_file_name(path: &[u8]) -> (r: Option<(usize, usize)>)
    ensures
        match r {
            Some((a, b)) => file_name_span(path@) == Some((a as int, b as int)) && a < b
                <= path@.len(),
            None => file_name_span(path@) is None,
        },
{
    let s: Start = start(path);
    let all: Vec<(usize, usize)> = find_names(path, s.body, s.verbatim);
    if all.len() == 0 {
        return None;
    }
    let (a, b): (usize, usize) = all[all.len() - 1];
    assert(names(path@).last() == (a as int, b as int));
    let dot: bool = b == a + 1 && path[a] == DOT;
    let dots: bool = b - a == 2 && path[a] == DOT && path[a + 1] == DOT;
    proof {
        let name = path@.subrange(a as int, b as int);
        lemma_dots(name);
        assert((component(name) is Normal) == (!dot && !dots));
    }
    if dot || dots {
        None
    } else {
        Some((a, b))
    }
}

/// The last name of a path, if it is the name of a file or directory.
pub fn file_name(path: &[u8]) -> (r: Option<Vec<u8>>)
    ensures
        match r {
            Some(name) => file_name_span(path@) matches Some((a, b)) && name@ == path@.subrange(
                a,
                b,
            ),
            None => file_name_span(path@) is None,
        },
{
    match find_file_name(path) {
        Some((a, b)) => Some(part(path, a, b)),
        None => None,
    }
}

/// The path without its last part.
pub fn parent(path: &[u8]) -> (r: Option<Vec<u8>>)
    ensures
        match r {
            Some(p) => parent_of(path@) == Some(p@),
            None => parent_of(path@) is None,
        },
{
    let s: Start = start(path);
    let all: Vec<(usize, usize)> = find_names(path, s.body, s.verbatim);
    assert(span_views(all@) == names(path@));
    let cut: usize = if all.len() > 1 {
        assert(names(path@)[all@.len() - 2].1 == all@[all@.len() - 2].1);
        all[all.len() - 2].1
    } else if all.len() == 1 {
        s.body
    } else if s.prefix.is_none() && s.cur_dir {
        0
    } else {
        return None;
    };
    let r: Vec<u8> = part(path, 0, cut);
    assert(r@ =~= path@.take(cut as int));
    assert(cut == 0 ==> r@ =~= Seq::<u8>::empty());
    Some(r)
}

/// Where the last name stands, without its extension.
fn find_file_stem(path: &[u8]) -> (r: Option<(usize, usize)>)
    ensures
        match r {
            Some((a, b)) => file_stem_span(path@) == Some((a as int, b as int)) && a < b
                <= path@.len(),
            None => file_stem_span(path@) is None,
        },
{
    match find_file_name(path) {
        Some((a, b)) => {
            let mut dot: usize = b;
            while dot > a && path[dot - 1] != DOT
                invariant
                    a <= dot <= b <= path@.len(),
                    last_dot(path@, a as int, b as int) == last_dot(path@, a as int, dot as int),
                decreases dot,
            {
                dot -= 1;
            }
            if dot > a + 1 {
                Some((a, dot - 1))
            } else {
                Some((a, b))
            }
        },
        None => None,
    }
}

/// The last name of a path, without its extension.
pub fn file_stem(path: &[u8]) -> (r: Option<Vec<u8>>)
    ensures
        match r {
            Some(stem) => stem_of(path@) == Some(stem@),
            None => stem_of(path@) is None,
        },
{
    match find_file_stem(path) {
        Some((a, b)) => Some(part(path, a, b)),
        None => None,
    }
}

/// A part that a path is made of.
pub enum PathComponent {
    Prefix(PrefixKind, Vec<u8>, Vec<u8>),
    RootDir,
    CurDir,
    ParentDir,
    Normal(Vec<u8>),
}

impl View for PathComponent {
    type V = Component;

    open spec fn view(&self) -> Component {
        match self {
            PathComponent::Prefix(kind, first, second) => Component::Prefix(
                *kind,
                first@,
                second@,
            ),
            PathComponent::RootDir => Component::RootDir,
            PathComponent::CurDir => Component::CurDir,
            PathComponent::ParentDir => Component::ParentDir,
            PathComponent::Normal(name) => Component::Normal(name@),
        }
    }
}

/// The parts of a list.
pub open spec fn component_views(list: Seq<PathComponent>) -> Seq<Component> {
    list.map_values(|c: PathComponent| c@)
}

/// Adds the parts of a path after its prefix to a list.
fn push_components(path: &[u8], s: &Start, list: &mut Vec<PathComponent>)
    requires
        s.is_of(path@),
    ensures
        component_views(final(list)@) == component_views(old(list)@) + components_after_prefix(
            path@,
        ),
{
    let ghost before = component_views(list@);
    let ghost starting = start_components(path@);
    let implied: bool = match &s.prefix {
        Some(p) => p.kind != PrefixKind::Disk && !s.verbatim,
        None => false,
    };
    if s.physical_root || implied {
        list.push(PathComponent::RootDir);
        assert(component_views(list@) =~= before.push(Component::RootDir));
        assert(component_views(list@) =~= before + starting);
    } else if s.prefix.is_none() && s.cur_dir {
        list.push(PathComponent::CurDir);
        assert(component_views(list@) =~= before.push(Component::CurDir));
        assert(component_views(list@) =~= before + starting);
    } else {
        assert(component_views(list@) =~= before + starting);
    }
    let all: Vec<(usize, usize)> = find_names(path, s.body, s.verbatim);
    let ghost spans = names(path@);
    let ghost f = |r: (int, int)| component(path@.subrange(r.0, r.1));
    let mut i: usize = 0;
    assert(component_views(list@) =~= (before + starting) + spans.take(0).map_values(f));
    while i < all.len()
        invariant
            i <= all@.len(),
            span_views(all@) == spans,
            forall|j: int| 0 <= j < all@.len() ==> (#[trigger] all@[j]).0 < all@[j].1
                <= path@.len(),
            f == |r: (int, int)| component(path@.subrange(r.0, r.1)),
            component_views(list@) == (before + starting) + spans.take(i as int).map_values(f),
        decreases all@.len() - i,
    {
        let ghost so_far = component_views(list@);
        let (a, b): (usize, usize) = all[i];
        assert(spans[i as int] == (a as int, b as int));
        let ghost name = path@.subrange(a as int, b as int);
        proof {
            lemma_dots(name);
        }
        if b - a == 1 && path[a] == DOT {
            list.push(PathComponent::CurDir);
        } else if b - a == 2 && path[a] == DOT && path[a + 1] == DOT {
            list.push(PathComponent::ParentDir);
        } else {
            list.push(PathComponent::Normal(part(path, a, b)));
        }
        proof {
            assert(component_views(list@) =~= so_far.push(component(name)));
            assert(spans.take(i + 1).map_values(f) =~= spans.take(i as int).map_values(f).push(
                component(name),
            ));
            assert(component_views(list@) =~= (before + starting) + spans.take(
                i + 1,
            ).map_values(f));
        }
        i += 1;
    }
    proof {
        assert(spans.take(i as int) =~= spans);
        assert((before + starting) + spans.map_values(f) =~= before + (starting
            + spans.map_values(f)));
        assert(components_after_prefix(path@) =~= starting + spans.map_values(f));
    }
}

/// The parts of a path.
fn find_components(path: &[u8]) -> (r: Vec<PathComponent>)
    ensures
        component_views(r@) == components(path@),
{
    let s: Start = start(path);
    let mut r: Vec<PathComponent> = Vec::new();
    match &s.prefix {
        Some(p) => {
            let first: Vec<u8> = crate::bytes::copy(&p.first);
            let second: Vec<u8> = crate::bytes::copy(&p.second);
            r.push(PathComponent::Prefix(p.kind, first, second));
            assert(component_views(r@) =~= seq![Component::Prefix(p.kind, first@, second@)]);
        },
        None => {
            assert(component_views(r@) + components_after_prefix(path@)
                =~= components_after_prefix(path@));
        },
    }
    push_components(path, &s, &mut r);
    r
}

/// Whether two parts are the same.
fn same_component(a: &PathComponent, b: &PathComponent) -> (r: bool)
    ensures
        r == (a@ == b@),
{
    match (a, b) {
        (
            PathComponent::Prefix(kind, first, second),
            PathComponent::Prefix(other, other_first, other_second),
        ) => *kind == *other && equal(first.as_slice(), other_first.as_slice()) && equal(
            second.as_slice(),
            other_second.as_slice(),
        ),
        (PathComponent::RootDir, PathComponent::RootDir) => true,
        (PathComponent::CurDir, PathComponent::CurDir) => true,
        (PathComponent::ParentDir, PathComponent::ParentDir) => true,
        (PathComponent::Normal(name), PathComponent::Normal(other)) => equal(
            name.as_slice(),
            other.as_slice(),
        ),
        _ => false,
    }
}

/// Whether two paths have the same parts, however they are written.
pub fn same_path(a: &[u8], b: &[u8]) -> (r: bool)
    ensures
        r == (components(a@) == components(b@)),
{
    let one: Vec<PathComponent> = find_components(a);
    let other: Vec<PathComponent> = find_components(b);
    let ghost left = component_views(one@);
    let ghost right = component_views(other@);
    if one.len() != other.len() {
        assert(left.len() != right.len());
        return false;
    }
    let mut i: usize = 0;
    while i < one.len()
        invariant
            one@.len() == other@.len(),
            left == component_views(one@),
            right == component_views(other@),
            left == components(a@),
            right == components(b@),
            i <= one@.len(),
            forall|j: int| 0 <= j < i ==> left[j] == right[j],
        decreases one@.len() - i,
    {
        assert(left[i as int] == one@[i as int]@ && right[i as int] == other@[i as int]@);
        if !same_component(&one[i], &other[i]) {
            return false;
        }
        i += 1;
    }
    assert(left =~= right);
    true
}

/// Adds `more` to the parts of a verbatim path, resolving each.
fn resolve(parts: &mut Vec<PathComponent>, more: Vec<PathComponent>)
    ensures
        component_views(final(parts)@) == resolved(
            component_views(old(parts)@),
            component_views(more@),
        ),
{
    let ghost before = component_views(parts@);
    let ghost all = component_views(more@);
    let mut i: usize = 0;
    assert(all.take(0) =~= Seq::<Component>::empty());
    while i < more.len()
        invariant
            i <= more@.len(),
            all == component_views(more@),
            component_views(parts@) == resolved(before, all.take(i as int)),
        decreases more@.len() - i,
    {
        let ghost so_far = component_views(parts@);
        proof {
            assert(all.take(i + 1).drop_last() =~= all.take(i as int));
            assert(all.take(i + 1).last() == more@[i as int]@);
        }
        match &more[i] {
            PathComponent::RootDir => {
                parts.clear();
                parts.push(PathComponent::RootDir);
                assert(component_views(parts@) =~= seq![Component::RootDir]);
            },
            PathComponent::CurDir => {},
            PathComponent::ParentDir => {
                if parts.len() > 0 {
                    assert(so_far.last() == parts@[parts@.len() - 1]@);
                    let normal: bool = match &parts[parts.len() - 1] {
                        PathComponent::Normal(_) => true,
                        _ => false,
                    };
                    if normal {
                        parts.pop();
                        assert(component_views(parts@) =~= so_far.drop_last());
                    }
                }
            },
            PathComponent::Normal(name) => {
                let copied: Vec<u8> = crate::bytes::copy(name);
                parts.push(PathComponent::Normal(copied));
                assert(component_views(parts@) =~= so_far.push(Component::Normal(name@)));
            },
            PathComponent::Prefix(kind, first, second) => {
                let copied: Vec<u8> = crate::bytes::copy(first);
                let other: Vec<u8> = crate::bytes::copy(second);
                parts.push(PathComponent::Prefix(*kind, copied, other));
                assert(component_views(parts@) =~= so_far.push(more@[i as int]@));
            },
        }
        i += 1;
    }
    assert(all.take(i as int) =~= all);
}

/// Writes parts after a verbatim prefix.
fn write_parts(out: &mut Vec<u8>, parts: &Vec<PathComponent>)
    ensures
        final(out)@ == old(out)@ + written_parts(component_views(parts@)),
{
    let ghost before = out@;
    let ghost all = component_views(parts@);
    let mut i: usize = 0;
    let mut after_root: bool = false;
    assert(all.take(0) =~= Seq::<Component>::empty());
    assert(out@ =~= before + written_parts(all.take(0)));
    while i < parts.len()
        invariant
            i <= parts@.len(),
            all == component_views(parts@),
            after_root == (i > 0 && all[i - 1] is RootDir),
            out@ == before + written_parts(all.take(i as int)),
        decreases parts@.len() - i,
    {
        let ghost so_far = out@;
        proof {
            assert(all.take(i + 1).drop_last() =~= all.take(i as int));
            assert(all.take(i + 1).last() == parts@[i as int]@);
            assert(i > 0 ==> all.take(i as int).last() == all[i - 1]);
            assert(all[i as int] == parts@[i as int]@);
        }
        let is_root: bool = match &parts[i] {
            PathComponent::RootDir => true,
            _ => false,
        };
        let ghost separator = if is_root || after_root {
            Seq::<u8>::empty()
        } else {
            seq![BACKSLASH]
        };
        if !is_root && !after_root {
            out.push(BACKSLASH);
        }
        assert(out@ =~= so_far + separator);
        match &parts[i] {
            PathComponent::Prefix(_, _, _) => {},
            PathComponent::RootDir => {
                out.push(BACKSLASH);
            },
            PathComponent::CurDir => {
                out.push(DOT);
            },
            PathComponent::ParentDir => {
                out.push(DOT);
                out.push(DOT);
            },
            PathComponent::Normal(name) => {
                append(out, name.as_slice());
            },
        }
        proof {
            assert(out@ =~= so_far + separator + written(all[i as int]));
            assert(out@ =~= before + written_parts(all.take(i + 1)));
        }
        after_root = is_root;
        i += 1;
    }
    assert(all.take(i as int) =~= all);
}

/// `path`, seen from `base`.
pub fn join(base: &[u8], path: &[u8]) -> (r: Vec<u8>)
    ensures
        r@ == joined(base@, path@),
{
    let from: Start = start(base);
    let to: Start = start(path);
    if to.prefix.is_some() {
        return vstd::slice::slice_to_vec(path);
    }
    if from.verbatim && path.len() > 0 {
        let mut parts: Vec<PathComponent> = Vec::new();
        push_components(base, &from, &mut parts);
        assert(component_views(parts@) =~= components_after_prefix(base@));
        let mut more: Vec<PathComponent> = Vec::new();
        push_components(path, &to, &mut more);
        assert(component_views(more@) =~= components_after_prefix(path@));
        resolve(&mut parts, more);
        let mut r: Vec<u8> = part(base, 0, from.prefix_len);
        assert(r@ =~= base@.take(from.prefix_len as int));
        write_parts(&mut r, &parts);
        return r;
    }
    if to.root {
        let mut r: Vec<u8> = part(base, 0, from.prefix_len);
        assert(r@ =~= base@.take(from.prefix_len as int));
        append(&mut r, path);
        return r;
    }
    let bare_drive: bool = match &from.prefix {
        Some(p) => p.kind == PrefixKind::Disk && p.len == base.len(),
        None => false,
    };
    let mut r: Vec<u8> = vstd::slice::slice_to_vec(base);
    if base.len() > 0 && !either_sep(base[base.len() - 1]) && !bare_drive {
        r.push(BACKSLASH);
    }
    append(&mut r, path);
    r
}

/// A path with another last name.
pub fn with_file_name(path: &[u8], name: &[u8]) -> (r: Vec<u8>)
    ensures
        r@ == renamed(path@, name@),
{
    match (find_file_name(path), parent(path)) {
        (Some(_), Some(p)) => join(p.as_slice(), name),
        _ => join(path, name),
    }
}

/// Bytes that can be added to a name: not empty, a dot first, and nothing that
/// means something in a path.
pub open spec fn extends_a_name(suffix: Seq<u8>) -> bool {
    &&& suffix.len() > 0
    &&& suffix[0] == DOT
    &&& forall|i: int|
        0 <= i < suffix.len() ==> #[trigger] suffix[i] != BACKSLASH && suffix[i] != SLASH
            && suffix[i] != COLON
}

proof fn lemma_next_sep_appended(path: Seq<u8>, suffix: Seq<u8>, from: int, verbatim: bool)
    requires
        0 <= from <= path.len(),
        extends_a_name(suffix),
    ensures
        next_sep(path + suffix, from, verbatim) == if next_sep(path, from, verbatim) < path.len() {
            next_sep(path, from, verbatim)
        } else {
            (path + suffix).len() as int
        },
    decreases path.len() - from,
{
    let all = path + suffix;
    if from < path.len() {
        assert(all[from] == path[from]);
        if !is_sep(path[from], verbatim) {
            lemma_next_sep_appended(path, suffix, from + 1, verbatim);
        }
    } else {
        lemma_no_sep(path, suffix, from, verbatim);
    }
}

proof fn lemma_no_sep(path: Seq<u8>, suffix: Seq<u8>, from: int, verbatim: bool)
    requires
        path.len() <= from <= path.len() + suffix.len(),
        extends_a_name(suffix),
    ensures
        next_sep(path + suffix, from, verbatim) == (path + suffix).len(),
    decreases path.len() + suffix.len() - from,
{
    if from < path.len() + suffix.len() {
        assert((path + suffix)[from] == suffix[from - path.len()]);
        lemma_no_sep(path, suffix, from + 1, verbatim);
    }
}

/// Two names that end before the path does are the same two names in a longer
/// path.
proof fn lemma_two_names_appended(path: Seq<u8>, suffix: Seq<u8>, at: int, verbatim: bool)
    requires
        0 <= at <= path.len(),
        extends_a_name(suffix),
        path.len() > 0,
        !is_sep(path.last(), verbatim),
    ensures
        ({
            let ends = two_names(path, at, verbatim);
            let longer = two_names(path + suffix, at, verbatim);
            &&& at <= ends.0 <= ends.1 <= path.len()
            &&& ends.1 < path.len() ==> longer == ends && second_name(path + suffix, longer)
                == second_name(path, ends)
            &&& ends.0 < ends.1 ==> longer.0 < longer.1 && longer.0 == ends.0
            &&& ends.0 == ends.1 ==> longer.0 == longer.1
        }),
{
    let all = path + suffix;
    lemma_next_sep(path, at, verbatim);
    lemma_next_sep_appended(path, suffix, at, verbatim);
    let first = next_sep(path, at, verbatim);
    if first < path.len() {
        assert(first + 1 < path.len()) by {
            if first + 1 == path.len() {
                assert(path.last() == path[first]);
            }
        }
        lemma_next_sep(path, first + 1, verbatim);
        lemma_next_sep_appended(path, suffix, first + 1, verbatim);
        let ends = two_names(path, at, verbatim);
        if ends.0 < ends.1 && ends.1 < path.len() {
            assert(all.subrange(ends.0 + 1, ends.1) =~= path.subrange(ends.0 + 1, ends.1));
        }
    }
}

/// The prefix of a path stays the same when its last name is extended.
proof fn lemma_prefix_appended(path: Seq<u8>, suffix: Seq<u8>)
    requires
        extends_a_name(suffix),
        prefix_len(path) < path.len(),
        !is_sep(path.last(), is_verbatim(path)),
    ensures
        prefix(path + suffix) == prefix(path),
        0 <= prefix_len(path),
{
    let all = path + suffix;
    assert(forall|i: int| 0 <= i < path.len() ==> all[i] == path[i]);
    assert(forall|i: int| path.len() <= i < all.len() ==> all[i] == suffix[i - path.len()]);
    if starts_verbatim_unc(path) {
        lemma_two_names_appended(path, suffix, 8, true);
        let ends = two_names(path, 8, true);
        assert(all.subrange(8, ends.0) =~= path.subrange(8, ends.0));
    } else if starts_verbatim(path) {
        assert(path.len() > 4) by {
            lemma_next_sep(path, 4, true);
        }
        assert(!starts_verbatim_unc(all)) by {
            if starts_verbatim_unc(all) && path.len() < 8 {
                assert(all[7] == suffix[7 - path.len()]);
            }
        }
        lemma_next_sep(path, 4, true);
        lemma_next_sep_appended(path, suffix, 4, true);
        let end = next_sep(path, 4, true);
        if drive_at(path, 4) {
            if path.len() == 6 {
                assert(false);
            }
        } else {
            assert(!drive_at(all, 4)) by {
                if drive_at(all, 4) && path.len() == 5 {
                    assert(all[5] == suffix[0]);
                }
            }
        }
        if end < path.len() {
            assert(all.subrange(4, end) =~= path.subrange(4, end));
        }
    } else {
        assert(!starts_verbatim(all)) by {
            if starts_verbatim(all) && path.len() < 4 {
                assert(all[3] == suffix[3 - path.len()]);
            }
        }
        if starts_device(path) {
            lemma_next_sep(path, 4, false);
            lemma_next_sep_appended(path, suffix, 4, false);
            let end = next_sep(path, 4, false);
            assert(all.subrange(4, end) =~= path.subrange(4, end));
        } else {
            assert(!starts_device(all)) by {
                if starts_device(all) && path.len() < 4 {
                    assert(all[3] == suffix[3 - path.len()]);
                }
            }
            if starts_with_two_seps(path) {
                lemma_two_names_appended(path, suffix, 2, false);
                let ends = two_names(path, 2, false);
                assert(all.subrange(2, ends.0) =~= path.subrange(2, ends.0));
            } else {
                assert(!starts_with_two_seps(all)) by {
                    if starts_with_two_seps(all) && path.len() < 2 {
                        assert(all[1] == suffix[1 - path.len()]);
                    }
                }
                assert(drive_at(all, 0) == drive_at(path, 0)) by {
                    if drive_at(all, 0) && path.len() == 1 {
                        assert(all[1] == suffix[0]);
                    }
                }
            }
        }
    }
}

proof fn lemma_names_appended(path: Seq<u8>, suffix: Seq<u8>, from: int, verbatim: bool)
    requires
        0 <= from <= path.len(),
        extends_a_name(suffix),
        names_from(path, from, verbatim).len() > 0,
        names_from(path, from, verbatim).last().1 == path.len(),
    ensures
        ({
            let before = names_from(path, from, verbatim);
            names_from(path + suffix, from, verbatim) == before.drop_last().push(
                (before.last().0, (path + suffix).len() as int),
            )
        }),
        !is_sep(path.last(), verbatim),
    decreases path.len() - from,
{
    let all = path + suffix;
    let end = next_sep(path, from, verbatim);
    lemma_next_sep(path, from, verbatim);
    lemma_next_sep_appended(path, suffix, from, verbatim);
    let before = names_from(path, from, verbatim);
    if end < path.len() {
        let later = names_from(path, end + 1, verbatim);
        let piece = path.subrange(from, end);
        assert(all.subrange(from, end) =~= piece);
        let here = if is_skipped(piece, verbatim) {
            Seq::empty()
        } else {
            seq![(from, end)]
        };
        assert(before == here + later);
        assert(later.len() > 0) by {
            if later.len() == 0 {
                assert(before =~= here);
                assert(before.last().1 == end);
            }
        }
        assert(before.last() == later.last());
        lemma_names_appended(path, suffix, end + 1, verbatim);
        let longer = names_from(all, from, verbatim);
        assert(longer == here + names_from(all, end + 1, verbatim));
        assert(longer =~= before.drop_last().push((before.last().0, all.len() as int)));
    } else {
        let piece = path.subrange(from, end);
        assert(before.len() == 1 && before.last() == (from, end));
        let longer = all.subrange(from, all.len() as int);
        lemma_dots(longer);
        assert(longer.len() >= 2);
        assert(names_from(all, from, verbatim) =~= seq![(from, all.len() as int)]);
        assert(before.drop_last() =~= Seq::<(int, int)>::empty());
        lemma_last_is_no_sep(path, from, verbatim);
    }
}

proof fn lemma_last_is_no_sep(path: Seq<u8>, from: int, verbatim: bool)
    requires
        0 <= from < path.len(),
        next_sep(path, from, verbatim) == path.len(),
    ensures
        !is_sep(path.last(), verbatim),
    decreases path.len() - from,
{
    if from + 1 < path.len() {
        lemma_last_is_no_sep(path, from + 1, verbatim);
    }
}

/// A path whose last name is extended stays in the same directory.
pub proof fn law_an_extended_name_stays_in_its_directory(path: Seq<u8>, suffix: Seq<u8>)
    requires
        extends_a_name(suffix),
        file_name_span(path) matches Some((_, end)) && end == path.len(),
    ensures
        parent_of(path + suffix) == parent_of(path),
{
    let all = path + suffix;
    lemma_prefix_bounds(path);
    lemma_names(path);
    lemma_names_appended(path, suffix, body_start(path), is_verbatim(path));
    let spans = names(path);
    assert(spans[spans.len() - 1] == spans.last());
    lemma_prefix_appended(path, suffix);
    assert(all[prefix_len(path)] == path[prefix_len(path)]);
    assert(has_physical_root(all) == has_physical_root(path));
    assert(has_root(all) == has_root(path));
    assert(has_cur_dir(all) == has_cur_dir(path)) by {
        let at = prefix_len(path);
        if at + 1 < path.len() {
            assert(all[at + 1] == path[at + 1]);
        } else {
            assert(all[at + 1] == suffix[0]);
        }
    }
    assert(body_start(all) == body_start(path));
    let longer = names(all);
    if spans.len() > 1 {
        assert(longer[spans.len() - 2] == spans[spans.len() - 2]);
        assert(all.take(spans[spans.len() - 2].1) =~= path.take(spans[spans.len() - 2].1));
    } else {
        assert(all.take(body_start(path)) =~= path.take(body_start(path)));
    }
}

proof fn lemma_prefix_bounds(path: Seq<u8>)
    ensures
        0 <= prefix_len(path) <= body_start(path) <= path.len(),
{
    if starts_verbatim_unc(path) {
        lemma_next_sep(path, 8, true);
        let first = next_sep(path, 8, true);
        if first + 1 < path.len() {
            lemma_next_sep(path, first + 1, true);
        }
    } else if starts_verbatim(path) {
        lemma_next_sep(path, 4, true);
    } else if starts_device(path) {
        lemma_next_sep(path, 4, false);
    } else if starts_with_two_seps(path) {
        lemma_next_sep(path, 2, false);
        let first = next_sep(path, 2, false);
        if first + 1 < path.len() {
            lemma_next_sep(path, first + 1, false);
        }
    }
}

/// Whether a byte is a backslash or a slash.
pub open spec fn separator(b: u8) -> bool {
    b == 0x5c || b == 0x2f
}

/// Whether a byte is a letter that can name a drive.
pub open spec fn drive_letter(b: u8) -> bool {
    0x41 <= b <= 0x5a || 0x61 <= b <= 0x7a
}

/// A drive letter, a colon and a separator begin an absolute path, whatever
/// follows; without the separator a path is not absolute.
pub proof fn law_paths_from_a_drive_are_absolute(letter: u8, sep: u8, rest: Seq<u8>)
    requires
        drive_letter(letter),
        separator(sep),
    ensures
        absolute(seq![letter, 0x3au8, sep] + rest),
        (rest.len() == 0 || !separator(rest[0])) ==> !absolute(seq![letter, 0x3au8] + rest),
{
    let path = seq![letter, 0x3au8, sep] + rest;
    assert(path[0] == letter && path[1] == 0x3a && path[2] == sep);
    let other = seq![letter, 0x3au8] + rest;
    assert(other[0] == letter && other[1] == 0x3a);
    if rest.len() > 0 {
        assert(other[2] == rest[0]);
    }
}

/// Two separators, a server, a separator and a share begin an absolute path.
pub proof fn law_paths_from_a_server_are_absolute(
    first: u8,
    second: u8,
    server: Seq<u8>,
    third: u8,
    share: Seq<u8>,
    rest: Seq<u8>,
)
    requires
        separator(first),
        separator(second),
        separator(third),
        server.len() > 0,
        share.len() > 0,
        forall|i: int| 0 <= i < server.len() ==> !separator(#[trigger] server[i]),
        forall|i: int| 0 <= i < share.len() ==> !separator(#[trigger] share[i]),
        rest.len() > 0 ==> separator(rest[0]),
    ensures
        absolute(seq![first, second] + server + seq![third] + share + rest),
{
    let path = seq![first, second] + server + seq![third] + share + rest;
    let a = 2 + server.len() as int;
    assert(path[0] == first && path[1] == second);
    assert forall|i: int| 2 <= i < a implies !is_sep(#[trigger] path[i], false) by {
        assert(path[i] == server[i - 2]);
        assert(!separator(server[i - 2]));
    }
    assert(path[a] == third);
    lemma_next_sep_is(path, 2, a, false);
    let b = a + 1 + share.len() as int;
    assert forall|i: int| a + 1 <= i < b implies !is_sep(#[trigger] path[i], false) by {
        assert(path[i] == share[i - a - 1]);
        assert(!separator(share[i - a - 1]));
    }
    if rest.len() > 0 {
        assert(path[b] == rest[0]);
    }
    lemma_next_sep_is(path, a + 1, b, false);
    if !starts_verbatim(path) && !starts_device(path) {
        assert(two_names(path, 2, false) == (a, b));
    }
}

proof fn lemma_next_sep_is(path: Seq<u8>, from: int, end: int, verbatim: bool)
    requires
        0 <= from <= end <= path.len(),
        forall|i: int| from <= i < end ==> !is_sep(#[trigger] path[i], verbatim),
        end < path.len() ==> is_sep(path[end], verbatim),
    ensures
        next_sep(path, from, verbatim) == end,
    decreases end - from,
{
    if from < end {
        assert(!is_sep(path[from], verbatim));
        lemma_next_sep_is(path, from + 1, end, verbatim);
    }
}

/// An absolute path begins with a drive letter, a colon and a separator, or with
/// two separators; a path that begins otherwise is not absolute.
pub proof fn law_other_paths_are_not_absolute(path: Seq<u8>)
    ensures
        absolute(path) ==> path.len() >= 3 && ((drive_letter(path[0]) && path[1] == 0x3a
            && separator(path[2])) || (separator(path[0]) && separator(path[1]))),
{
    if absolute(path) && starts_with_two_seps(path) && path.len() == 2 {
        assert(next_sep(path, 2, false) == 2);
    }
}

/// Whether a path goes on from the directory that it is seen from: it does not
/// begin with a separator, nor with a drive letter and a colon.
pub open spec fn goes_on(path: Seq<u8>) -> bool {
    &&& path.len() > 0 ==> !separator(path[0])
    &&& path.len() > 1 ==> !(drive_letter(path[0]) && path[1] == 0x3a)
}

/// An absolute path is the same wherever it is seen from, and one that goes on from
/// a directory has that directory before it, with a separator between them if the
/// directory has none at its end.
pub proof fn law_relative_paths_go_on_from_a_directory(base: Seq<u8>, path: Seq<u8>)
    ensures
        absolute(path) ==> joined(base, path) == path,
        goes_on(path) && base.len() > 0 && separator(base.last()) && !(base.len() >= 4 && base[0]
            == 0x5c && base[1] == 0x5c && base[2] == 0x3f && base[3] == 0x5c) ==> joined(base, path)
            == base + path,
        goes_on(path) && base.len() > 0 && !separator(base.last()) && !(base.len() == 2
            && drive_letter(base[0]) && base[1] == 0x3a) && !(base.len() >= 4 && base[0] == 0x5c
            && base[1] == 0x5c && base[2] == 0x3f && base[3] == 0x5c) ==> joined(base, path)
            == base + seq![0x5cu8] + path,
        goes_on(path) && base.len() == 2 && drive_letter(base[0]) && base[1] == 0x3a ==> joined(
            base,
            path,
        ) == base + path,
        goes_on(path) ==> joined(Seq::empty(), path) == path,
{
    if goes_on(path) {
        assert(prefix(path) is None);
        assert(!has_root(path));
        assert(Seq::<u8>::empty() + path =~= path);
        if base.len() > 0 {
            assert(base.push(BACKSLASH) + path =~= base + seq![0x5cu8] + path);
        }
    }
}

/// Whether some bytes are the name of a file or directory, and no more than one.
pub open spec fn is_name(name: Seq<u8>) -> bool {
    &&& name.len() > 0
    &&& name != seq![0x2eu8]
    &&& name != seq![0x2eu8, 0x2eu8]
    &&& forall|i: int| 0 <= i < name.len() ==> !separator(#[trigger] name[i])
}

/// Whether a path of names, relative or from a drive, ends in one of them.
pub open spec fn ends_in_a_name(path: Seq<u8>) -> bool {
    &&& path.len() > 0
    &&& !separator(path.last())
    &&& path.last() != 0x2e
    &&& !(path.len() >= 2 && separator(path[0]) && separator(path[1]))
    &&& !(path.len() == 2 && drive_letter(path[0]) && path[1] == 0x3a)
}

proof fn lemma_names_added(head: Seq<u8>, sep: u8, name: Seq<u8>, from: int)
    requires
        0 <= from <= head.len(),
        separator(sep),
        is_name(name),
    ensures
        names_from(head + seq![sep] + name, from, false) == names_from(head, from, false).push(
            (head.len() as int + 1, head.len() as int + 1 + name.len()),
        ),
    decreases head.len() - from,
{
    let path = head + seq![sep] + name;
    let total = path.len() as int;
    let end = next_sep(head, from, false);
    lemma_next_sep(head, from, false);
    lemma_next_sep_in_front(head, sep, name, from);
    assert(path.subrange(from, end) =~= head.subrange(from, end));
    if end < head.len() {
        lemma_names_added(head, sep, name, end + 1);
        let here = if is_skipped(head.subrange(from, end), false) {
            Seq::empty()
        } else {
            seq![(from, end)]
        };
        let later = names_from(head, end + 1, false);
        let last = (head.len() as int + 1, total);
        assert(here + later.push(last) =~= (here + later).push(last));
    } else {
        let start = head.len() as int + 1;
        assert forall|i: int| start <= i < total implies !is_sep(#[trigger] path[i], false) by {
            assert(path[i] == name[i - start]);
            assert(!separator(name[i - start]));
        }
        lemma_next_sep_is(path, start, total, false);
        assert(path.subrange(start, total) =~= name);
        assert(names_from(path, start, false) =~= seq![(start, total)]);
        let here = names_from(head, from, false);
        assert(here + seq![(start, total)] =~= here.push((start, total)));
    }
}

proof fn lemma_next_sep_in_front(head: Seq<u8>, sep: u8, name: Seq<u8>, from: int)
    requires
        0 <= from <= head.len(),
        separator(sep),
    ensures
        next_sep(head + seq![sep] + name, from, false) == next_sep(head, from, false),
    decreases head.len() - from,
{
    let path = head + seq![sep] + name;
    if from < head.len() {
        assert(path[from] == head[from]);
        if !is_sep(head[from], false) {
            lemma_next_sep_in_front(head, sep, name, from + 1);
        }
    } else {
        assert(path[from] == sep);
    }
}

proof fn lemma_last_name_ends(path: Seq<u8>, from: int)
    requires
        0 <= from < path.len(),
        !separator(path.last()),
        path.last() != 0x2e,
    ensures
        names_from(path, from, false).len() > 0,
        names_from(path, from, false).last().1 == path.len(),
    decreases path.len() - from,
{
    let end = next_sep(path, from, false);
    lemma_next_sep(path, from, false);
    if end < path.len() {
        assert(end + 1 < path.len()) by {
            if end + 1 == path.len() {
                assert(path.last() == path[end]);
            }
        }
        lemma_last_name_ends(path, end + 1);
    } else {
        let piece = path.subrange(from, end);
        assert(piece.last() == path.last());
        lemma_dots(piece);
        assert(names_from(path, from, false) =~= seq![(from, end)]);
    }
}

/// What a path of names begins with is the same after a name has been added.
proof fn lemma_start_added(head: Seq<u8>, sep: u8, name: Seq<u8>)
    requires
        ends_in_a_name(head),
        separator(sep),
        is_name(name),
    ensures
        ({
            let path = head + seq![sep] + name;
            &&& prefix(path) == prefix(head)
            &&& !is_verbatim(path) && !is_verbatim(head)
            &&& body_start(path) == body_start(head)
            &&& 0 <= body_start(head) < head.len()
            &&& start_components(path) == start_components(head)
            &&& names(path) == names(head).push(
                (head.len() as int + 1, head.len() as int + 1 + name.len()),
            )
            &&& names(head).len() > 0 && names(head).last().1 == head.len()
        }),
{
    let path = head + seq![sep] + name;
    assert(forall|i: int| 0 <= i < head.len() ==> path[i] == head[i]);
    assert(path[head.len() as int] == sep);
    assert(!starts_with_two_seps(head)) by {
        if starts_with_two_seps(head) {
            assert(separator(head[0]) && separator(head[1]));
        }
    }
    assert(!starts_with_two_seps(path)) by {
        if starts_with_two_seps(path) && head.len() == 1 {
            assert(head.last() == head[0]);
        }
    }
    assert(prefix(path) == prefix(head));
    let at = prefix_len(head);
    assert(at < head.len());
    assert(has_physical_root(path) == has_physical_root(head));
    assert(has_root(path) == has_root(head));
    if head[at] == DOT {
        assert(at + 1 < head.len()) by {
            if at + 1 == head.len() {
                assert(head.last() == head[at]);
            }
        }
    }
    assert(has_cur_dir(path) == has_cur_dir(head));
    assert(body_start(head) < head.len()) by {
        if has_physical_root(head) && at + 1 == head.len() {
            assert(head.last() == head[at]);
        }
    }
    lemma_names_added(head, sep, name, body_start(head));
    lemma_last_name_ends(head, body_start(head));
}

/// A name that is added to a path after a separator is the last name of the new
/// path and one more part of it, and the path is its parent.
pub proof fn law_an_added_name_is_the_last(head: Seq<u8>, sep: u8, name: Seq<u8>)
    requires
        ends_in_a_name(head),
        separator(sep),
        is_name(name),
    ensures
        ({
            let path = head + seq![sep] + name;
            &&& parent_of(path) == Some(head)
            &&& file_name_span(path) == Some(
                (head.len() as int + 1, head.len() as int + 1 + name.len()),
            )
            &&& components(path) == components(head).push(Component::Normal(name))
        }),
{
    let path = head + seq![sep] + name;
    let start = head.len() as int + 1;
    lemma_start_added(head, sep, name);
    lemma_dots(name);
    assert(path.subrange(start, path.len() as int) =~= name);
    assert(component(name) == Component::Normal(name));
    let all = names(path);
    let before = names(head);
    assert(all[all.len() - 2] == before[before.len() - 1]);
    assert(path.take(head.len() as int) =~= head);
    lemma_names_from(head, body_start(head), false);
    let f = |r: (int, int)| component(path.subrange(r.0, r.1));
    let g = |r: (int, int)| component(head.subrange(r.0, r.1));
    assert(all.map_values(f) =~= before.map_values(g).push(Component::Normal(name))) by {
        assert forall|i: int| 0 <= i < before.len() implies all.map_values(f)[i]
            == before.map_values(g)[i] by {
            let r = before[i];
            assert(path.subrange(r.0, r.1) =~= head.subrange(r.0, r.1));
        }
    }
    assert(components_after_prefix(path) =~= components_after_prefix(head).push(
        Component::Normal(name),
    ));
    assert(components(path) =~= components(head).push(Component::Normal(name)));
}

/// A name by itself is the last name of its path and its only part, and has the
/// empty path as its parent.
pub proof fn law_a_name_by_itself(name: Seq<u8>)
    requires
        is_name(name),
        name.len() >= 2 ==> !(drive_letter(name[0]) && name[1] == 0x3a),
    ensures
        parent_of(name) == Some(Seq::<u8>::empty()),
        file_name_span(name) == Some((0int, name.len() as int)),
        components(name) == seq![Component::Normal(name)],
{
    lemma_dots(name);
    assert(!separator(name[0]));
    assert(prefix(name) is None) by {
        if name.len() > 1 {
            assert(!separator(name[1]));
        }
    }
    assert(!has_cur_dir(name)) by {
        if name.len() > 1 {
            assert(!separator(name[1]));
        }
    }
    assert forall|i: int| 0 <= i < name.len() implies !is_sep(#[trigger] name[i], false) by {
        assert(!separator(name[i]));
    }
    lemma_next_sep_is(name, 0, name.len() as int, false);
    assert(name.subrange(0, name.len() as int) =~= name);
    assert(names(name) =~= seq![(0int, name.len() as int)]);
    assert(name.take(0) =~= Seq::<u8>::empty());
    assert(components(name) =~= seq![Component::Normal(name)]);
}

/// The root of a drive has no parent, and two parts: the drive, whose letter counts
/// as a capital, and the root. A name in it has the root as its parent.
pub proof fn law_the_root_of_a_drive(letter: u8, sep: u8, name: Seq<u8>)
    requires
        drive_letter(letter),
        separator(sep),
        is_name(name),
    ensures
        ({
            let root = seq![letter, 0x3au8, sep];
            let capital = if 0x61 <= letter {
                (letter - 0x20) as u8
            } else {
                letter
            };
            let parts = seq![
                Component::Prefix(PrefixKind::Disk, seq![capital], Seq::empty()),
                Component::RootDir,
            ];
            &&& parent_of(root) is None
            &&& components(root) == parts
            &&& parent_of(root + name) == Some(root)
            &&& file_name_span(root + name) == Some((3int, 3 + name.len() as int))
            &&& components(root + name) == parts.push(Component::Normal(name))
        }),
{
    let root = seq![letter, 0x3au8, sep];
    let path = root + name;
    assert(path[0] == letter && path[1] == 0x3a && path[2] == sep);
    lemma_dots(name);
    assert(names(root) =~= Seq::<(int, int)>::empty()) by {
        assert(root.subrange(3, 3) =~= Seq::<u8>::empty());
    }
    let capital = if 0x61 <= letter {
        (letter - 0x20) as u8
    } else {
        letter
    };
    let parts = seq![
        Component::Prefix(PrefixKind::Disk, seq![capital], Seq::empty()),
        Component::RootDir,
    ];
    assert(components(root) =~= parts);
    let total = path.len() as int;
    assert forall|i: int| 3 <= i < total implies !is_sep(#[trigger] path[i], false) by {
        assert(path[i] == name[i - 3]);
        assert(!separator(name[i - 3]));
    }
    lemma_next_sep_is(path, 3, total, false);
    assert(path.subrange(3, total) =~= name);
    assert(names(path) =~= seq![(3int, total)]);
    assert(path.take(3) =~= root);
    assert(components(path) =~= parts.push(Component::Normal(name)));
}

/// The stem of a name is what stands before its last dot, and all of it where there
/// is none or only one at its beginning.
pub proof fn law_the_stem_ends_before_the_last_dot(
    path: Seq<u8>,
    start: int,
    end: int,
    stem: Seq<u8>,
    extension: Seq<u8>,
)
    requires
        file_name_span(path) == Some((start, end)),
        0 <= start <= end <= path.len(),
        forall|i: int| 0 <= i < extension.len() ==> #[trigger] extension[i] != 0x2e,
    ensures
        stem.len() > 0 && path.subrange(start, end) == stem + seq![0x2eu8] + extension ==> stem_of(
            path,
        ) == Some(stem),
        path.subrange(start, end) == extension ==> stem_of(path) == Some(extension),
        path.subrange(start, end) == seq![0x2eu8] + extension ==> stem_of(path) == Some(
            seq![0x2eu8] + extension,
        ),
{
    let name = path.subrange(start, end);
    if stem.len() > 0 && name == stem + seq![0x2eu8] + extension {
        let dot = start + stem.len();
        let whole = stem + seq![0x2eu8] + extension;
        assert(whole.len() == stem.len() + 1 + extension.len());
        assert(name.len() == end - start);
        assert(whole[stem.len() as int] == 0x2e);
        assert(path[dot] == name[stem.len() as int]);
        assert forall|i: int| dot < i < end implies #[trigger] path[i] != DOT by {
            assert(path[i] == name[i - start]);
            assert(whole[i - start] == extension[i - dot - 1]);
            assert(extension[i - dot - 1] != 0x2e);
        }
        lemma_last_dot_is(path, start, end, dot);
        assert(path.subrange(start, dot) =~= stem);
    }
    if name == extension {
        assert forall|i: int| start <= i < end implies #[trigger] path[i] != DOT by {
            assert(path[i] == name[i - start]);
            assert(extension[i - start] != 0x2e);
        }
        lemma_no_dot(path, start, end);
    }
    if name == seq![0x2eu8] + extension {
        let whole = seq![0x2eu8] + extension;
        assert(whole.len() == 1 + extension.len());
        assert(name.len() == end - start);
        assert(whole[0] == 0x2e);
        assert(path[start] == name[0]);
        assert forall|i: int| start < i < end implies #[trigger] path[i] != DOT by {
            assert(path[i] == name[i - start]);
            assert(whole[i - start] == extension[i - start - 1]);
            assert(extension[i - start - 1] != 0x2e);
        }
        lemma_last_dot_is(path, start, end, start);
    }
}

proof fn lemma_last_dot_is(path: Seq<u8>, start: int, end: int, dot: int)
    requires
        0 <= start <= dot < end <= path.len(),
        path[dot] == DOT,
        forall|i: int| dot < i < end ==> #[trigger] path[i] != DOT,
    ensures
        last_dot(path, start, end) == dot,
    decreases end - dot,
{
    if dot + 1 < end {
        assert(path[end - 1] != DOT);
        lemma_last_dot_is(path, start, end - 1, dot);
    }
}

proof fn lemma_no_dot(path: Seq<u8>, start: int, end: int)
    requires
        0 <= start <= end <= path.len(),
        forall|i: int| start <= i < end ==> #[trigger] path[i] != DOT,
    ensures
        last_dot(path, start, end) == start,
    decreases end - start,
{
    if start < end {
        assert(path[end - 1] != DOT);
        lemma_no_dot(path, start, end - 1);
    }
}

/// A path with another last name is in the same directory, and has that name.
pub proof fn law_another_name_in_the_same_directory(
    head: Seq<u8>,
    sep: u8,
    name: Seq<u8>,
    other: Seq<u8>,
)
    requires
        ends_in_a_name(head),
        separator(sep),
        is_name(name),
        is_name(other),
        goes_on(other),
    ensures
        renamed(head + seq![sep] + name, other) == head + seq![0x5cu8] + other,
        parent_of(renamed(head + seq![sep] + name, other)) == Some(head),
{
    law_an_added_name_is_the_last(head, sep, name);
    law_relative_paths_go_on_from_a_directory(head, other);
    assert(!(head.len() >= 4 && head[0] == 0x5c && head[1] == 0x5c && head[2] == 0x3f && head[3]
        == 0x5c)) by {
        if head.len() >= 4 && head[0] == 0x5c && head[1] == 0x5c {
            assert(separator(head[0]) && separator(head[1]));
        }
    }
    law_an_added_name_is_the_last(head, 0x5c, other);
}

/// A path that begins with one separator starts at the root of the drive that it is
/// seen from.
pub proof fn law_rooted_paths_stay_on_the_drive(letter: u8, rest: Seq<u8>, path: Seq<u8>)
    requires
        drive_letter(letter),
        path.len() > 0,
        separator(path[0]),
        path.len() > 1 ==> !separator(path[1]),
    ensures
        joined(seq![letter, 0x3au8] + rest, path) == seq![letter, 0x3au8] + path,
{
    let base = seq![letter, 0x3au8] + rest;
    assert(base[0] == letter && base[1] == 0x3a);
    assert(prefix(path) is None);
    assert(base.take(2) =~= seq![letter, 0x3au8]);
}

/// A server and a share with what separates them, and separators before them.
pub open spec fn share_on_server(seps: (u8, u8, u8), server: Seq<u8>, share: Seq<u8>) -> Seq<u8> {
    seq![seps.0, seps.1] + server + seq![seps.2] + share
}

/// Whether a server and a share are names, and the server is not `?` or `.`, which
/// mean something else.
pub open spec fn is_share(seps: (u8, u8, u8), server: Seq<u8>, share: Seq<u8>) -> bool {
    &&& separator(seps.0) && separator(seps.1) && separator(seps.2)
    &&& server.len() > 0 && share.len() > 0
    &&& server != seq![0x3fu8] && server != seq![0x2eu8]
    &&& forall|i: int| 0 <= i < server.len() ==> !separator(#[trigger] server[i])
    &&& forall|i: int| 0 <= i < share.len() ==> !separator(#[trigger] share[i])
}

proof fn lemma_share_prefix(
    seps: (u8, u8, u8),
    server: Seq<u8>,
    share: Seq<u8>,
    rest: Seq<u8>,
)
    requires
        is_share(seps, server, share),
        rest.len() > 0 ==> separator(rest[0]),
    ensures
        ({
            let start = share_on_server(seps, server, share);
            prefix(start + rest) == Some(
                Prefix {
                    kind: PrefixKind::Unc,
                    first: server,
                    second: share,
                    len: start.len() as int,
                },
            )
        }),
{
    let start = share_on_server(seps, server, share);
    let path = start + rest;
    let a = 2 + server.len() as int;
    let b = a + 1 + share.len() as int;
    assert(path[0] == seps.0 && path[1] == seps.1);
    assert forall|i: int| 2 <= i < a implies !is_sep(#[trigger] path[i], false) by {
        assert(path[i] == server[i - 2]);
        assert(!separator(server[i - 2]));
    }
    assert(path[a] == seps.2);
    lemma_next_sep_is(path, 2, a, false);
    assert forall|i: int| a + 1 <= i < b implies !is_sep(#[trigger] path[i], false) by {
        assert(path[i] == share[i - a - 1]);
        assert(!separator(share[i - a - 1]));
    }
    if rest.len() > 0 {
        assert(path[b] == rest[0]);
    }
    lemma_next_sep_is(path, a + 1, b, false);
    assert(two_names(path, 2, false) == (a, b));
    assert(path[2] == server[0]);
    if server.len() == 1 {
        assert(path[3] == seps.2);
        if server[0] == 0x3f {
            assert(server =~= seq![0x3fu8]);
        }
        if server[0] == 0x2e {
            assert(server =~= seq![0x2eu8]);
        }
    } else {
        assert(path[3] == server[1]);
        assert(!separator(server[1]));
    }
    assert(path.subrange(2, a) =~= server);
    assert(path.subrange(a + 1, b) =~= share);
}

/// A name that is added to a path on a server is the last name of the new path, and
/// the path is its parent; a name in the share itself has the share as its parent,
/// with the separator after it.
pub proof fn law_an_added_name_on_a_server(
    seps: (u8, u8, u8),
    server: Seq<u8>,
    share: Seq<u8>,
    root: u8,
    inner: Seq<u8>,
    sep: u8,
    name: Seq<u8>,
)
    requires
        is_share(seps, server, share),
        separator(root),
        separator(sep),
        inner.len() > 0,
        !separator(inner.last()),
        inner.last() != 0x2e,
        is_name(name),
    ensures
        ({
            let start = share_on_server(seps, server, share).push(root);
            let head = start + inner;
            let path = head + seq![sep] + name;
            &&& parent_of(path) == Some(head)
            &&& file_name_span(path) == Some(
                (head.len() as int + 1, head.len() as int + 1 + name.len()),
            )
            &&& parent_of(start + name) == Some(start)
            &&& file_name_span(start + name) == Some(
                (start.len() as int, start.len() as int + name.len()),
            )
        }),
{
    let share_path = share_on_server(seps, server, share);
    let start = share_path.push(root);
    let head = start + inner;
    let path = head + seq![sep] + name;
    lemma_dots(name);
    let tail = seq![root] + inner + seq![sep] + name;
    assert(path =~= share_path + tail);
    assert(tail[0] == root);
    lemma_share_prefix(seps, server, share, tail);
    assert(path[share_path.len() as int] == root);
    assert(body_start(path) == start.len());
    lemma_names_added(head, sep, name, start.len() as int);
    assert(head.last() == inner.last());
    lemma_last_name_ends(head, start.len() as int);
    let all = names(path);
    let before = names_from(head, start.len() as int, false);
    assert(all[all.len() - 2] == before[before.len() - 1]);
    assert(path.take(head.len() as int) =~= head);
    assert(path.subrange(head.len() as int + 1, path.len() as int) =~= name);
    let short = start + name;
    let little = seq![root] + name;
    assert(short =~= share_path + little);
    assert(little[0] == root);
    lemma_share_prefix(seps, server, share, little);
    assert(short[share_path.len() as int] == root);
    assert(body_start(short) == start.len());
    let total = short.len() as int;
    assert forall|i: int| start.len() <= i < total implies !is_sep(#[trigger] short[i], false) by {
        assert(short[i] == name[i - start.len()]);
        assert(!separator(name[i - start.len()]));
    }
    lemma_next_sep_is(short, start.len() as int, total, false);
    assert(short.subrange(start.len() as int, total) =~= name);
    assert(names(short) =~= seq![(start.len() as int, total)]);
    assert(short.take(start.len() as int) =~= start);
}

} // verus!
