//! The paths that a run has learned, in Cygwin's form and in native form.
use vstd::prelude::*;
use vstd::slice::slice_subrange;
use vstd::string::*;
use crate::bytes::{append, copy, equal, pair_views, views, SLASH};
use crate::cygpath::{
    bulk_cygpath, conversion, one_to_a_line, run_view, CygpathRun, TO_NATIVE,
};
use crate::diagnostics::{
    after_read, all_lines, file_line_path, file_line_path_span, forward_complete_lines,
    law_lines_make_up_the_data, law_only_a_path_before_a_line_number_is_found,
    law_path_before_any_line_number_is_found, law_reading_more_changes_no_line,
    law_stream_is_forwarded_whole,
    lemma_line_leaves_less, lemma_same_line, lines_left, next_line, unread, DiagnosticStream,
    StreamState,
};
use crate::known_paths::{
    law_known_paths_are_replaced_where_they_stand, law_order_of_equal_lengths_is_immaterial,
    longest_first, no_path_twice, replace_known_paths, replaced, unbroken,
};
use crate::path_map::{lemma_as_map, PathMap};
use crate::records::{is_posix_absolute, posix_absolute};

verus! {

/// A list of all mappings of a map, each of them once, the longest paths first.
pub open spec fn is_listing(
    mappings: Seq<(Seq<u8>, Seq<u8>)>,
    map: Map<Seq<u8>, Seq<u8>>,
) -> bool {
    &&& longest_first(mappings)
    &&& no_path_twice(mappings)
    &&& forall|path: Seq<u8>, native: Seq<u8>| #[trigger]
        mappings.contains((path, native)) <==> map.contains_key(path) && map[path] == native
}

/// Paths and their native forms, put together one by one; where there are more
/// of one than of the other, the rest is left out.
pub open spec fn zipped(posix: Seq<Seq<u8>>, native: Seq<Seq<u8>>) -> Seq<(Seq<u8>, Seq<u8>)> {
    Seq::new(
        if posix.len() <= native.len() {
            posix.len()
        } else {
            native.len()
        },
        |i: int| (posix[i], native[i]),
    )
}

/// A map after it has taken in some mappings, one after the other.
pub open spec fn extended(
    map: Map<Seq<u8>, Seq<u8>>,
    mappings: Seq<(Seq<u8>, Seq<u8>)>,
) -> Map<Seq<u8>, Seq<u8>>
    decreases mappings.len(),
{
    if mappings.len() == 0 {
        map
    } else {
        extended(map, mappings.drop_last()).insert(mappings.last().0, mappings.last().1)
    }
}

/// The paths of a list that have to be converted: the absolute ones that are
/// not known, each of them once.
pub open spec fn unseen(paths: Seq<Seq<u8>>, map: Map<Seq<u8>, Seq<u8>>) -> Seq<Seq<u8>>
    decreases paths.len(),
{
    if paths.len() == 0 {
        Seq::empty()
    } else {
        let before = unseen(paths.drop_last(), map);
        let path = paths.last();
        if posix_absolute(path) && !map.contains_key(path) && !before.contains(path) {
            before.push(path)
        } else {
            before
        }
    }
}

/// The texts of a list of strings, as bytes.
pub open spec fn text_views(list: Seq<String>) -> Seq<Seq<u8>> {
    list.map_values(|s: String| vstd::utf8::encode_utf8(s@))
}

/// Maps discovered Cygwin paths to native paths for structured and textual use.
pub struct PathMapper {
    paths: PathMap,
    ordered_paths: Vec<(Vec<u8>, Vec<u8>)>,
}

impl View for PathMapper {
    type V = Map<Seq<u8>, Seq<u8>>;

    closed spec fn view(&self) -> Map<Seq<u8>, Seq<u8>> {
        self.paths@
    }
}

/// A diagnostic whose path has to be converted before it can be replaced.
pub struct PendingDiagnostic {
    /// The diagnostic, with the paths that are known replaced.
    pub text: Vec<u8>,
    /// Where the path begins.
    pub start: usize,
    /// Where the path ends.
    pub end: usize,
}

impl PendingDiagnostic {
    /// The path is an absolute one, and lies within the text.
    pub open spec fn wf(&self) -> bool {
        self.start < self.end <= self.text@.len() && self.text@[self.start as int] == SLASH
    }

    /// The path that has to be converted.
    pub open spec fn spec_path(&self) -> Seq<u8> {
        self.text@.subrange(self.start as int, self.end as int)
    }

    /// The path that has to be converted.
    pub fn path(&self) -> (r: Vec<u8>)
        requires
            self.wf(),
        ensures
            r@ == self.spec_path(),
    {
        vstd::slice::slice_to_vec(slice_subrange(self.text.as_slice(), self.start, self.end))
    }
}

/// What a diagnostic calls for.
pub enum Diagnostic {
    /// Nothing more: this is the rewritten line.
    Rewritten(Vec<u8>),
    /// The conversion of a path that is not known.
    Unknown(PendingDiagnostic),
}

/// A text with the bytes from `start` to `end` replaced.
pub open spec fn spliced(text: Seq<u8>, start: int, end: int, native: Seq<u8>) -> Seq<u8> {
    text.take(start) + native + text.skip(end)
}

/// A text with the path before its line number replaced, where that has a native
/// form.
pub open spec fn rewritten_line(text: Seq<u8>, native: Map<Seq<u8>, Seq<u8>>) -> Seq<u8> {
    match file_line_path(text) {
        Some((start, end)) => if native.contains_key(text.subrange(start, end)) {
            spliced(text, start, end, native[text.subrange(start, end)])
        } else {
            text
        },
        None => text,
    }
}

impl Diagnostic {
    /// The answer is the right one for a text: it is rewritten, unless the path
    /// before its line number has no native form yet.
    pub open spec fn answers(self, text: Seq<u8>, native: Map<Seq<u8>, Seq<u8>>) -> bool {
        match self {
            Diagnostic::Rewritten(out) => out@ == rewritten_line(text, native) && (file_line_path(
                text,
            ) matches Some((start, end)) ==> native.contains_key(text.subrange(start, end))),
            Diagnostic::Unknown(pending) => pending.wf() && pending.text@ == text
                && file_line_path(text) == Some((pending.start as int, pending.end as int))
                && !native.contains_key(pending.spec_path()),
        }
    }
}

/// Replaces the bytes from `start` to `end` of a text.
fn splice(text: &[u8], start: usize, end: usize, native: &[u8]) -> (r: Vec<u8>)
    requires
        start <= end <= text@.len(),
    ensures
        r@ == spliced(text@, start as int, end as int, native@),
{
    let mut r: Vec<u8> = Vec::new();
    append(&mut r, slice_subrange(text, 0, start));
    append(&mut r, native);
    append(&mut r, slice_subrange(text, end, text.len()));
    assert(r@ =~= spliced(text@, start as int, end as int, native@));
    r
}

/// Whether a list of byte strings holds one.
fn holds(list: &Vec<Vec<u8>>, path: &[u8]) -> (r: bool)
    ensures
        r == views(list@).contains(path@),
{
    let ghost all = views(list@);
    let mut i: usize = 0;
    while i < list.len()
        invariant
            i <= list@.len(),
            all == views(list@),
            forall|j: int| 0 <= j < i ==> all[j] != path@,
        decreases list@.len() - i,
    {
        assert(all[i as int] == list@[i as int]@);
        if equal(list[i].as_slice(), path) {
            return true;
        }
        i += 1;
    }
    false
}

impl PathMapper {
    /// The list for textual use holds the mappings of the map, longest first.
    pub closed spec fn wf(&self) -> bool {
        self.paths.wf() && is_listing(pair_views(self.ordered_paths@), self.paths@)
    }

    /// The map for structured use is well formed.
    pub closed spec fn paths_wf(&self) -> bool {
        self.paths.wf()
    }

    /// The mappings in the order in which textual replacement tries them.
    pub closed spec fn known(&self) -> Seq<(Seq<u8>, Seq<u8>)> {
        pair_views(self.ordered_paths@)
    }

    /// What a mapper's list has to do with its map.
    pub proof fn lemma_wf(&self)
        requires
            self.wf(),
        ensures
            is_listing(self.known(), self@),
            self.paths_wf(),
    {
    }

    /// The mappings in the order in which textual replacement tries them.
    pub fn ordered_paths(&self) -> (r: &[(Vec<u8>, Vec<u8>)])
        ensures
            pair_views(r@) == self.known(),
    {
        self.ordered_paths.as_slice()
    }

    /// The mappings for structured use.
    pub fn paths(&self) -> (r: &PathMap)
        requires
            self.wf(),
        ensures
            r.wf(),
            r@ == self@,
    {
        &self.paths
    }

    /// A mapper that knows the native paths of an invocation, given what
    /// cygpath made of them. TeX echoes the converted forms, so both sides are
    /// known before it starts.
    pub fn new(windows_paths: Vec<String>, posix_paths: Vec<Vec<u8>>) -> (r: Self)
        ensures
            r.wf(),
            r@ == extended(Map::empty(), zipped(views(posix_paths@), text_views(windows_paths@))),
    {
        let mut native: Vec<Vec<u8>> = Vec::new();
        let mut i: usize = 0;
        while i < windows_paths.len()
            invariant
                i <= windows_paths@.len(),
                views(native@) == text_views(windows_paths@).take(i as int),
            decreases windows_paths@.len() - i,
        {
            let ghost before = views(native@);
            let text: Vec<u8> = vstd::slice::slice_to_vec(windows_paths[i].as_str().as_bytes());
            native.push(text);
            assert(views(native@) =~= before.push(text@));
            assert(text_views(windows_paths@).take(i + 1) =~= before.push(text@));
            i += 1;
        }
        assert(text_views(windows_paths@).take(i as int) =~= text_views(windows_paths@));
        let mut mapper: PathMapper = PathMapper { paths: PathMap::new(), ordered_paths: Vec::new() };
        mapper.learn(&posix_paths, &native);
        mapper.rebuild_ordered_paths();
        mapper
    }

    /// Puts mappings into the map, and leaves the list as it is.
    fn learn(&mut self, posix_paths: &Vec<Vec<u8>>, native: &Vec<Vec<u8>>)
        requires
            old(self).paths_wf(),
        ensures
            final(self).paths_wf(),
            final(self)@ == extended(old(self)@, zipped(views(posix_paths@), views(native@))),
    {
        let ghost pairs = zipped(views(posix_paths@), views(native@));
        let ghost map = self@;
        let mut i: usize = 0;
        assert(pairs.take(0) =~= Seq::<(Seq<u8>, Seq<u8>)>::empty());
        while i < posix_paths.len() && i < native.len()
            invariant
                i <= posix_paths@.len(),
                i <= native@.len(),
                pairs == zipped(views(posix_paths@), views(native@)),
                self.paths_wf(),
                self@ == extended(map, pairs.take(i as int)),
            decreases posix_paths@.len() - i,
        {
            self.paths.insert(copy(&posix_paths[i]), copy(&native[i]));
            proof {
                assert(pairs.take(i + 1).drop_last() =~= pairs.take(i as int));
                assert(pairs.take(i + 1).last() == (
                    posix_paths@[i as int]@,
                    native@[i as int]@,
                ));
            }
            i += 1;
        }
        assert(pairs.take(i as int) =~= pairs);
    }

    /// Makes the list for textual use anew. The longest paths come first, so
    /// that a directory does not take precedence over a path inside it.
    pub fn rebuild_ordered_paths(&mut self)
        requires
            old(self).paths_wf(),
        ensures
            final(self).wf(),
            final(self)@ == old(self)@,
    {
        let entries: Vec<(Vec<u8>, Vec<u8>)> = self.paths.entries();
        let ghost all = pair_views(entries@);
        let mut ordered: Vec<(Vec<u8>, Vec<u8>)> = Vec::new();
        let mut i: usize = 0;
        proof {
            self.paths.lemma_in_order();
        }
        while i < entries.len()
            invariant
                i <= entries@.len(),
                all == pair_views(entries@),
                no_path_twice(all),
                longest_first(pair_views(ordered@)),
                no_path_twice(pair_views(ordered@)),
                forall|m: (Seq<u8>, Seq<u8>)| #[trigger]
                    pair_views(ordered@).contains(m) <==> all.take(i as int).contains(m),
            decreases entries@.len() - i,
        {
            let ghost before = pair_views(ordered@);
            let pair: (Vec<u8>, Vec<u8>) = (copy(&entries[i].0), copy(&entries[i].1));
            let ghost both = (pair.0@, pair.1@);
            assert(all[i as int] == both);
            let mut at: usize = 0;
            while at < ordered.len() && ordered[at].0.len() >= pair.0.len()
                invariant
                    at <= ordered@.len(),
                    before == pair_views(ordered@),
                    both == (pair.0@, pair.1@),
                    forall|j: int| 0 <= j < at ==> (#[trigger] before[j]).0.len() >= both.0.len(),
                decreases ordered@.len() - at,
            {
                assert(before[at as int].0 == ordered@[at as int].0@);
                at += 1;
            }
            if at < ordered.len() {
                assert(before[at as int].0 == ordered@[at as int].0@);
            }
            ordered.insert(at, pair);
            proof {
                let after = pair_views(ordered@);
                assert(after =~= before.insert(at as int, both));
                assert(all.take(i + 1) =~= all.take(i as int).push(both));
                assert forall|j: int| 0 <= j < before.len() implies (#[trigger] before[j]).0
                    != both.0 by {
                    assert(before.contains(before[j]));
                    let k = choose|k: int|
                        0 <= k < i && all.take(i as int)[k] == before[j];
                    assert(all[k].0 != all[i as int].0);
                }
                lemma_insert_ordered(before, at as int, both);
                assert forall|m: (Seq<u8>, Seq<u8>)| #[trigger]
                    after.contains(m) <==> all.take(i + 1).contains(m) by {
                    lemma_insert_contains(before, at as int, both, m);
                    lemma_push_contains(all.take(i as int), both, m);
                    assert(before.contains(m) <==> all.take(i as int).contains(m));
                }
            }
            i += 1;
        }
        proof {
            assert(all.take(i as int) =~= all);
            lemma_as_map(all);
            let listed = pair_views(ordered@);
            assert forall|path: Seq<u8>, native: Seq<u8>| #[trigger]
                listed.contains((path, native)) <==> self@.contains_key(path) && self@[path]
                    == native by {
                assert(listed.contains((path, native)) <==> all.contains((path, native)));
                if all.contains((path, native)) {
                    let k = choose|k: int| 0 <= k < all.len() && all[k] == (path, native);
                    assert(all[k].0 == path);
                }
                if self@.contains_key(path) && self@[path] == native {
                    let k = choose|k: int| 0 <= k < all.len() && (#[trigger] all[k]).0 == path;
                    assert(all[k] == (path, native));
                }
            }
        }
        self.ordered_paths = ordered;
    }

    /// The paths of a list that have to be converted: the absolute ones that
    /// are not known, each of them once, so that one cygpath process will do.
    pub fn unseen_posix_paths(&self, paths: &[Vec<u8>]) -> (r: Vec<Vec<u8>>)
        requires
            self.wf(),
        ensures
            views(r@) == unseen(views(paths@), self@),
    {
        let ghost all = views(paths@);
        let mut r: Vec<Vec<u8>> = Vec::new();
        let mut i: usize = 0;
        assert(views(r@) =~= Seq::<Seq<u8>>::empty());
        assert(all.take(0) =~= Seq::<Seq<u8>>::empty());
        while i < paths.len()
            invariant
                i <= paths@.len(),
                self.wf(),
                all == views(paths@),
                views(r@) == unseen(all.take(i as int), self@),
            decreases paths@.len() - i,
        {
            let ghost before = views(r@);
            proof {
                assert(all.take(i + 1).drop_last() =~= all.take(i as int));
                assert(all.take(i + 1).last() == paths@[i as int]@);
            }
            if is_posix_absolute(paths[i].as_slice()) && !self.paths.contains_key(
                paths[i].as_slice(),
            ) && !holds(&r, paths[i].as_slice()) {
                let path: Vec<u8> = copy(&paths[i]);
                r.push(path);
                assert(views(r@) =~= before.push(path@));
            }
            i += 1;
        }
        assert(all.take(i as int) =~= all);
        r
    }

    /// The one cygpath process that converts the paths of a list that are not
    /// known; none where there are none.
    pub fn conversion(&self, paths: &[Vec<u8>]) -> (r: Option<CygpathRun>)
        requires
            self.wf(),
        ensures
            run_view(r) == conversion(TO_NATIVE@, unseen(views(paths@), self@)),
    {
        let unseen_paths: Vec<Vec<u8>> = self.unseen_posix_paths(paths);
        bulk_cygpath(TO_NATIVE, unseen_paths.as_slice())
    }

    /// Learns the paths of a list that are not known, given what cygpath made
    /// of them, in order. Where there are none, nothing changes.
    pub fn add_posix_paths(&mut self, paths: &[Vec<u8>], windows_paths: Vec<Vec<u8>>)
        requires
            old(self).wf(),
        ensures
            final(self).wf(),
            final(self)@ == extended(
                old(self)@,
                zipped(unseen(views(paths@), old(self)@), views(windows_paths@)),
            ),
            unseen(views(paths@), old(self)@).len() == 0 ==> *final(self) == *old(self),
    {
        let unseen_paths: Vec<Vec<u8>> = self.unseen_posix_paths(paths);
        if unseen_paths.len() == 0 {
            assert(views(unseen_paths@).len() == 0);
            assert(zipped(views(unseen_paths@), views(windows_paths@)).len() == 0);
            return;
        }
        self.learn(&unseen_paths, &windows_paths);
        self.rebuild_ordered_paths();
    }

    /// Replaces the path before the line number of a line in which the other paths
    /// that are known have been replaced. A path that is not known is taken only
    /// from the unambiguous form `/path:line:`, never from TeX's parentheses.
    fn rewrite_path_before_number(&self, line: Vec<u8>) -> (r: Diagnostic)
        requires
            self.wf(),
        ensures
            r.answers(line@, self@),
    {
        match file_line_path_span(line.as_slice()) {
            Some((start, end)) => {
                let path: &[u8] = slice_subrange(line.as_slice(), start, end);
                match self.paths.get(path) {
                    Some(native) => Diagnostic::Rewritten(
                        splice(line.as_slice(), start, end, native.as_slice()),
                    ),
                    None => Diagnostic::Unknown(PendingDiagnostic { text: line, start, end }),
                }
            },
            None => Diagnostic::Rewritten(line),
        }
    }

    /// Takes the next line out of a stream, with the paths replaced that are known
    /// now, and says what it calls for.
    pub fn forward_line(&self, stream: &mut DiagnosticStream) -> (r: Option<Diagnostic>)
        requires
            self.wf(),
        ensures
            match next_line(old(stream)@, self.known()) {
                Some((line, next)) => r matches Some(d) && d.answers(line, self@)
                    && final(stream)@ == next,
                None => r is None && *final(stream) == *old(stream),
            },
    {
        match forward_complete_lines(stream, self.ordered_paths.as_slice()) {
            Some(line) => Some(self.rewrite_path_before_number(line)),
            None => None,
        }
    }

    /// Replaces the known paths of a diagnostic that stands by itself, and then
    /// the path before its line number. Known paths need no delimiters.
    pub fn rewrite_diagnostic(&self, line: &[u8]) -> (r: Diagnostic)
        requires
            self.wf(),
        ensures
            r.answers(replaced(line@, self.known()), self@),
    {
        self.rewrite_path_before_number(replace_known_paths(line, self.ordered_paths.as_slice()))
    }

    /// Ends the rewriting of a diagnostic with what cygpath made of its path.
    /// Where it failed, which is `None`, the path stays as it is and nothing
    /// is learned.
    pub fn finish_diagnostic(
        &mut self,
        pending: PendingDiagnostic,
        windows_paths: Option<Vec<Vec<u8>>>,
    ) -> (r: Vec<u8>)
        requires
            old(self).wf(),
            pending.wf(),
        ensures
            final(self).wf(),
            final(self)@ == match windows_paths {
                Some(native) => extended(
                    old(self)@,
                    zipped(unseen(seq![pending.spec_path()], old(self)@), views(native@)),
                ),
                None => old(self)@,
            },
            windows_paths is None ==> *final(self) == *old(self),
            r@ == if windows_paths is Some && final(self)@.contains_key(pending.spec_path()) {
                spliced(
                    pending.text@,
                    pending.start as int,
                    pending.end as int,
                    final(self)@[pending.spec_path()],
                )
            } else {
                pending.text@
            },
    {
        match windows_paths {
            Some(native) => {
                let path: Vec<u8> = pending.path();
                let paths: Vec<Vec<u8>> = vec![path];
                assert(views(paths@) =~= seq![pending.spec_path()]);
                self.add_posix_paths(paths.as_slice(), native);
                match self.paths.get(paths[0].as_slice()) {
                    Some(form) => splice(
                        pending.text.as_slice(),
                        pending.start,
                        pending.end,
                        form.as_slice(),
                    ),
                    None => pending.text,
                }
            },
            None => pending.text,
        }
    }
}

proof fn lemma_push_contains(
    list: Seq<(Seq<u8>, Seq<u8>)>,
    pair: (Seq<u8>, Seq<u8>),
    m: (Seq<u8>, Seq<u8>),
)
    ensures
        list.push(pair).contains(m) <==> list.contains(m) || m == pair,
{
    if list.contains(m) {
        let k = choose|k: int| 0 <= k < list.len() && list[k] == m;
        assert(list.push(pair)[k] == m);
    }
    assert(list.push(pair)[list.len() as int] == pair);
}

proof fn lemma_insert_contains(
    list: Seq<(Seq<u8>, Seq<u8>)>,
    at: int,
    pair: (Seq<u8>, Seq<u8>),
    m: (Seq<u8>, Seq<u8>),
)
    requires
        0 <= at <= list.len(),
    ensures
        list.insert(at, pair).contains(m) <==> list.contains(m) || m == pair,
{
    let after = list.insert(at, pair);
    if list.contains(m) {
        let k = choose|k: int| 0 <= k < list.len() && list[k] == m;
        if k < at {
            assert(after[k] == m);
        } else {
            assert(after[k + 1] == m);
        }
    }
    assert(after[at] == pair);
    if after.contains(m) && m != pair {
        let k = choose|k: int| 0 <= k < after.len() && after[k] == m;
        if k < at {
            assert(list[k] == m);
        } else {
            assert(list[k - 1] == m);
        }
    }
}

proof fn lemma_insert_ordered(
    list: Seq<(Seq<u8>, Seq<u8>)>,
    at: int,
    pair: (Seq<u8>, Seq<u8>),
)
    requires
        0 <= at <= list.len(),
        longest_first(list),
        no_path_twice(list),
        forall|j: int| 0 <= j < at ==> (#[trigger] list[j]).0.len() >= pair.0.len(),
        at < list.len() ==> list[at].0.len() < pair.0.len(),
        forall|j: int| 0 <= j < list.len() ==> (#[trigger] list[j]).0 != pair.0,
    ensures
        longest_first(list.insert(at, pair)),
        no_path_twice(list.insert(at, pair)),
{
    let after = list.insert(at, pair);
    assert forall|i: int, j: int| 0 <= i < j < after.len() implies (#[trigger] after[i]).0.len()
        >= (#[trigger] after[j]).0.len() && after[i].0 != after[j].0 by {
        let from = |k: int|
            if k < at {
                k
            } else {
                k - 1
            };
        if i != at {
            assert(after[i] == list[from(i)]);
        }
        if j != at {
            assert(after[j] == list[from(j)]);
        }
        if i != at && j != at {
            assert(list[from(i)].0.len() >= list[from(j)].0.len());
            assert(list[from(i)].0 != list[from(j)].0);
        } else if i == at && j > at + 1 {
            assert(list[at].0.len() >= list[from(j)].0.len());
        }
    }
}

/// Where a path first stands in a list.
pub open spec fn first_at(paths: Seq<Seq<u8>>, path: Seq<u8>) -> int
    decreases paths.len(),
{
    if paths.len() == 0 || paths[0] == path {
        0
    } else {
        1 + first_at(paths.drop_first(), path)
    }
}

/// A path that stands in a list stands there first where `first_at` says.
proof fn lemma_first_at(paths: Seq<Seq<u8>>, path: Seq<u8>)
    ensures
        0 <= first_at(paths, path) <= paths.len(),
        first_at(paths, path) < paths.len() <==> paths.contains(path),
        first_at(paths, path) < paths.len() ==> paths[first_at(paths, path)] == path,
        forall|i: int| 0 <= i < first_at(paths, path) ==> paths[i] != path,
    decreases paths.len(),
{
    if paths.len() > 0 && paths[0] != path {
        let rest = paths.drop_first();
        lemma_first_at(rest, path);
        assert forall|i: int| 0 <= i < first_at(paths, path) implies paths[i] != path by {
            if i > 0 {
                assert(rest[i - 1] == paths[i]);
            }
        }
        if paths.contains(path) {
            let k = choose|k: int| 0 <= k < paths.len() && paths[k] == path;
            assert(rest[k - 1] == path);
        }
    }
}

/// Where a path first stands does not change when the list grows.
proof fn lemma_first_stays(paths: Seq<Seq<u8>>, last: Seq<u8>, path: Seq<u8>)
    requires
        paths.contains(path) || path == last,
    ensures
        first_at(paths.push(last), path) == first_at(paths, path),
{
    let all = paths.push(last);
    lemma_first_at(paths, path);
    lemma_first_at(all, path);
    assert forall|i: int| 0 <= i < paths.len() implies all[i] == paths[i] by {}
    assert(all[paths.len() as int] == last);
    assert(all.contains(path)) by {
        if paths.contains(path) {
            assert(all[first_at(paths, path)] == path);
        }
    }
    let one = first_at(paths, path);
    let two = first_at(all, path);
    if two < one {
        assert(paths[two] != path);
    }
    if one < two {
        assert(all[one] != path);
    }
}

/// The paths to convert are the absolute ones of the list that are not known,
/// no path is converted twice, and they come in the order in which they first
/// stand in the list.
pub proof fn law_unseen_paths(paths: Seq<Seq<u8>>, map: Map<Seq<u8>, Seq<u8>>)
    ensures
        unseen(paths, map).no_duplicates(),
        forall|i: int, j: int|
            0 <= i < j < unseen(paths, map).len() ==> first_at(
                paths,
                #[trigger] unseen(paths, map)[i],
            ) < first_at(paths, #[trigger] unseen(paths, map)[j]),
        forall|path: Seq<u8>| #[trigger]
            unseen(paths, map).contains(path) <==> paths.contains(path) && posix_absolute(path)
                && !map.contains_key(path),
    decreases paths.len(),
{
    if paths.len() > 0 {
        let fewer = paths.drop_last();
        let before = unseen(fewer, map);
        let last = paths.last();
        law_unseen_paths(fewer, map);
        let new = unseen(paths, map);
        assert(paths =~= fewer.push(last));
        assert forall|i: int, j: int| 0 <= i < j < new.len() implies first_at(
            paths,
            #[trigger] new[i],
        ) < first_at(paths, #[trigger] new[j]) by {
            assert(before.contains(before[i]));
            assert(fewer.contains(new[i]));
            lemma_first_stays(fewer, last, new[i]);
            lemma_first_at(fewer, new[i]);
            if j < before.len() {
                assert(before.contains(before[j]));
                assert(fewer.contains(new[j]));
                lemma_first_stays(fewer, last, new[j]);
                assert(first_at(fewer, before[i]) < first_at(fewer, before[j]));
            } else {
                assert(!before.contains(last));
                lemma_first_stays(fewer, last, last);
                lemma_first_at(fewer, last);
            }
        }
        assert forall|path: Seq<u8>| #[trigger]
            unseen(paths, map).contains(path) <==> paths.contains(path) && posix_absolute(path)
                && !map.contains_key(path) by {
            assert(before.contains(path) <==> fewer.contains(path) && posix_absolute(path)
                && !map.contains_key(path));
            assert(paths =~= fewer.push(last));
            assert(paths.contains(path) <==> fewer.contains(path) || path == last) by {
                if fewer.contains(path) {
                    let k = choose|k: int| 0 <= k < fewer.len() && fewer[k] == path;
                    assert(paths[k] == path);
                }
                assert(paths[paths.len() - 1] == last);
            }
            let after = before.push(last);
            assert(after.contains(path) <==> before.contains(path) || path == last) by {
                if before.contains(path) {
                    let k = choose|k: int| 0 <= k < before.len() && before[k] == path;
                    assert(after[k] == path);
                }
                assert(after[before.len() as int] == last);
            }
        }
    }
}

/// A map that has taken in mappings knows their paths and those it knew.
proof fn lemma_extended(map: Map<Seq<u8>, Seq<u8>>, mappings: Seq<(Seq<u8>, Seq<u8>)>)
    ensures
        forall|path: Seq<u8>|
            map.contains_key(path) ==> #[trigger] extended(map, mappings).contains_key(path),
        forall|i: int|
            0 <= i < mappings.len() ==> extended(map, mappings).contains_key(
                (#[trigger] mappings[i]).0,
            ),
        forall|path: Seq<u8>|
            (forall|i: int| 0 <= i < mappings.len() ==> (#[trigger] mappings[i]).0 != path)
                ==> #[trigger] extended(map, mappings).contains_key(path) == map.contains_key(path)
                && extended(map, mappings)[path] == map[path],
    decreases mappings.len(),
{
    if mappings.len() > 0 {
        let fewer = mappings.drop_last();
        lemma_extended(map, fewer);
        assert forall|i: int| 0 <= i < mappings.len() implies extended(
            map,
            mappings,
        ).contains_key((#[trigger] mappings[i]).0) by {
            if i < fewer.len() {
                assert(fewer[i] == mappings[i]);
            }
        }
        assert forall|path: Seq<u8>|
            (forall|i: int| 0 <= i < mappings.len() ==> (#[trigger] mappings[i]).0
                != path) implies #[trigger] extended(map, mappings).contains_key(path)
            == map.contains_key(path) && extended(map, mappings)[path] == map[path] by {
            assert forall|i: int| 0 <= i < fewer.len() implies (#[trigger] fewer[i]).0 != path by {
                assert(fewer[i] == mappings[i]);
            }
            assert(mappings[mappings.len() - 1].0 != path);
            assert(extended(map, fewer).contains_key(path) == map.contains_key(path));
        }
    }
}

/// Learning paths changes nothing of what was known.
pub proof fn law_learning_forgets_nothing(
    map: Map<Seq<u8>, Seq<u8>>,
    paths: Seq<Seq<u8>>,
    windows_paths: Seq<Seq<u8>>,
)
    ensures
        map.submap_of(extended(map, zipped(unseen(paths, map), windows_paths))),
{
    let new_paths = unseen(paths, map);
    let mappings = zipped(new_paths, windows_paths);
    law_unseen_paths(paths, map);
    lemma_extended(map, mappings);
    assert forall|path: Seq<u8>| #[trigger] map.contains_key(path) implies extended(
        map,
        mappings,
    ).contains_key(path) && extended(map, mappings)[path] == map[path] by {
        assert forall|i: int| 0 <= i < mappings.len() implies (#[trigger] mappings[i]).0
            != path by {
            assert(new_paths.contains(new_paths[i]));
        }
        assert(extended(map, mappings).contains_key(path));
    }
}

/// Where every path that had to be converted was, all absolute paths of the
/// list are known, and nothing of it has to be converted again.
pub proof fn law_learned_paths_are_known(
    map: Map<Seq<u8>, Seq<u8>>,
    paths: Seq<Seq<u8>>,
    windows_paths: Seq<Seq<u8>>,
)
    requires
        windows_paths.len() == unseen(paths, map).len(),
    ensures
        ({
            let after = extended(map, zipped(unseen(paths, map), windows_paths));
            &&& forall|path: Seq<u8>| #[trigger]
                paths.contains(path) && posix_absolute(path) ==> after.contains_key(path)
            &&& unseen(paths, after).len() == 0
        }),
{
    let new_paths = unseen(paths, map);
    let mappings = zipped(new_paths, windows_paths);
    let after = extended(map, mappings);
    law_unseen_paths(paths, map);
    law_unseen_paths(paths, after);
    lemma_extended(map, mappings);
    assert forall|path: Seq<u8>| #[trigger]
        paths.contains(path) && posix_absolute(path) implies after.contains_key(path) by {
        if !map.contains_key(path) {
            assert(new_paths.contains(path));
            let i = choose|i: int| 0 <= i < new_paths.len() && new_paths[i] == path;
            assert(mappings[i].0 == path);
        }
    }
    if unseen(paths, after).len() > 0 {
        assert(unseen(paths, after).contains(unseen(paths, after)[0]));
    }
}

/// The paths of a list cost one cygpath process at most. It gives native paths, and
/// reads exactly the absolute paths of the list that are not known, each once and
/// in the order in which they first stand there. Where all absolute paths are known
/// none is started; so it is once those paths have been learned.
pub proof fn law_one_process_converts_what_is_new(
    map: Map<Seq<u8>, Seq<u8>>,
    paths: Seq<Seq<u8>>,
    windows_paths: Seq<Seq<u8>>,
)
    ensures
        ({
            let new = unseen(paths, map);
            &&& match conversion(TO_NATIVE@, new) {
                Some(run) => {
                    &&& run.arguments == seq!["-m"@, "-f"@, "-"@]
                    &&& run.input == one_to_a_line(new)
                    &&& run.expected == new.len()
                    &&& new.no_duplicates()
                    &&& forall|path: Seq<u8>| #[trigger]
                        new.contains(path) <==> paths.contains(path) && posix_absolute(path)
                            && !map.contains_key(path)
                    &&& forall|i: int, j: int|
                        0 <= i < j < new.len() ==> first_at(paths, #[trigger] new[i]) < first_at(
                            paths,
                            #[trigger] new[j],
                        )
                },
                None => forall|path: Seq<u8>| #[trigger]
                    paths.contains(path) && posix_absolute(path) ==> map.contains_key(path),
            }
            &&& windows_paths.len() == new.len() ==> conversion(
                TO_NATIVE@,
                unseen(paths, extended(map, zipped(new, windows_paths))),
            ) is None
        }),
{
    let new = unseen(paths, map);
    law_unseen_paths(paths, map);
    if windows_paths.len() == new.len() {
        law_learned_paths_are_known(map, paths, windows_paths);
    }
    if new.len() == 0 {
        assert forall|path: Seq<u8>| #[trigger]
            paths.contains(path) && posix_absolute(path) implies map.contains_key(path) by {
            assert(!new.contains(path));
        }
    }
}

/// Any list of the mappings of a map will do for textual use, in a text and in a
/// stream, as long as the longest paths come first.
pub proof fn law_any_listing_gives_the_same_text(
    data: Seq<u8>,
    state: StreamState,
    map: Map<Seq<u8>, Seq<u8>>,
    one: Seq<(Seq<u8>, Seq<u8>)>,
    other: Seq<(Seq<u8>, Seq<u8>)>,
)
    requires
        is_listing(one, map),
        is_listing(other, map),
    ensures
        replaced(data, one) == replaced(data, other),
        next_line(state, one) == next_line(state, other),
{
    assert forall|m: (Seq<u8>, Seq<u8>)| one.contains(m) <==> other.contains(m) by {
        assert(one.contains((m.0, m.1)) <==> other.contains((m.0, m.1)));
    }
    law_order_of_equal_lengths_is_immaterial(data, one, other, true);
    lemma_same_line(state.line_buffer, state.path_buffer, state.ended, one, other);
}

/// What becomes of a line of a stream, as a function of the line.
pub open spec fn line_rewriter(
    native: Map<Seq<u8>, Seq<u8>>,
) -> spec_fn(Seq<u8>) -> Seq<u8> {
    |line: Seq<u8>| rewritten_line(line, native)
}

/// The map after a line has been written, where `convert` says what cygpath makes
/// of a path, and `None` where it fails.
pub open spec fn map_after_line(
    line: Seq<u8>,
    map: Map<Seq<u8>, Seq<u8>>,
    convert: spec_fn(Seq<u8>) -> Option<Seq<u8>>,
) -> Map<Seq<u8>, Seq<u8>> {
    match file_line_path(line) {
        Some((start, end)) => {
            let path = line.subrange(start, end);
            if map.contains_key(path) {
                map
            } else {
                match convert(path) {
                    Some(native) => map.insert(path, native),
                    None => map,
                }
            }
        },
        None => map,
    }
}

/// What is written for the lines that a stream gives out before more is read, what
/// it then holds, and the map that has learned from those lines. `listing` gives
/// the list of mappings for a map.
pub open spec fn written_lines(
    state: StreamState,
    map: Map<Seq<u8>, Seq<u8>>,
    listing: spec_fn(Map<Seq<u8>, Seq<u8>>) -> Seq<(Seq<u8>, Seq<u8>)>,
    convert: spec_fn(Seq<u8>) -> Option<Seq<u8>>,
) -> (Seq<u8>, StreamState, Map<Seq<u8>, Seq<u8>>)
    decreases state.path_buffer.len(), state.line_buffer.len(),
{
    match next_line(state, listing(map)) {
        Some((line, next)) => if next.path_buffer.len() < state.path_buffer.len() || (
        next.path_buffer.len() == state.path_buffer.len() && next.line_buffer.len()
            < state.line_buffer.len()) {
            let learned = map_after_line(line, map, convert);
            let (text, end, last) = written_lines(next, learned, listing, convert);
            (rewritten_line(line, learned) + text, end, last)
        } else {
            (Seq::empty(), state, map)
        },
        None => (Seq::empty(), state, map),
    }
}

/// What is written for a stream from `state` on that is read in the parts `reads`
/// and then ends.
pub open spec fn written_stream(
    state: StreamState,
    reads: Seq<Seq<u8>>,
    map: Map<Seq<u8>, Seq<u8>>,
    listing: spec_fn(Map<Seq<u8>, Seq<u8>>) -> Seq<(Seq<u8>, Seq<u8>)>,
    convert: spec_fn(Seq<u8>) -> Option<Seq<u8>>,
) -> Seq<u8>
    decreases reads.len(),
{
    if reads.len() == 0 {
        written_lines(after_read(state, Seq::empty()), map, listing, convert).0
    } else {
        let (text, next, learned) = written_lines(
            after_read(state, reads[0]),
            map,
            listing,
            convert,
        );
        text + written_stream(next, reads.drop_first(), learned, listing, convert)
    }
}

/// What a stream holds with more data after it.
spec fn with_more(state: StreamState, more: Seq<u8>, ended: bool) -> StreamState {
    StreamState {
        path_buffer: state.path_buffer + more,
        line_buffer: state.line_buffer,
        ended,
    }
}

/// Lines written before more is read are written all the same after it.
proof fn lemma_written_before_more(
    state: StreamState,
    more: Seq<u8>,
    ended: bool,
    map: Map<Seq<u8>, Seq<u8>>,
    listing: spec_fn(Map<Seq<u8>, Seq<u8>>) -> Seq<(Seq<u8>, Seq<u8>)>,
    convert: spec_fn(Seq<u8>) -> Option<Seq<u8>>,
)
    requires
        !state.ended,
    ensures
        ({
            let (text, next, learned) = written_lines(state, map, listing, convert);
            let (later, end, last) = written_lines(
                with_more(next, more, ended),
                learned,
                listing,
                convert,
            );
            written_lines(with_more(state, more, ended), map, listing, convert) == (
                text + later,
                end,
                last,
            )
        }),
    decreases state.path_buffer.len(), state.line_buffer.len(),
{
    let known = listing(map);
    lemma_line_leaves_less(state.line_buffer, state.path_buffer, false, known);
    law_reading_more_changes_no_line(state, more, ended, known);
    match next_line(state, known) {
        Some((line, next)) => {
            let learned = map_after_line(line, map, convert);
            lemma_written_before_more(next, more, ended, learned, listing, convert);
            let (text, end, after) = written_lines(next, learned, listing, convert);
            let later = written_lines(with_more(end, more, ended), after, listing, convert).0;
            let first = rewritten_line(line, learned);
            assert(first + (text + later) =~= (first + text) + later);
        },
        None => {
            let later = written_lines(with_more(state, more, ended), map, listing, convert).0;
            assert(Seq::<u8>::empty() + later =~= later);
        },
    }
}

/// How a stream is read does not matter to what is written for it, whatever paths
/// are learned on the way: it is what is written when all of it has come in one
/// read, and ended.
pub proof fn law_reads_do_not_matter(
    state: StreamState,
    reads: Seq<Seq<u8>>,
    map: Map<Seq<u8>, Seq<u8>>,
    listing: spec_fn(Map<Seq<u8>, Seq<u8>>) -> Seq<(Seq<u8>, Seq<u8>)>,
    convert: spec_fn(Seq<u8>) -> Option<Seq<u8>>,
)
    requires
        forall|i: int| 0 <= i < reads.len() ==> (#[trigger] reads[i]).len() > 0,
    ensures
        written_stream(state, reads, map, listing, convert) == written_lines(
            StreamState {
                path_buffer: state.path_buffer + reads.flatten(),
                line_buffer: state.line_buffer,
                ended: true,
            },
            map,
            listing,
            convert,
        ).0,
    decreases reads.len(),
{
    if reads.len() > 0 {
        let later = reads.drop_first();
        let more = later.flatten();
        let first = after_read(state, reads[0]);
        assert(reads[0].len() > 0);
        assert forall|i: int| 0 <= i < later.len() implies (#[trigger] later[i]).len() > 0 by {
            assert(later[i] == reads[i + 1]);
        }
        let (text, next, learned) = written_lines(first, map, listing, convert);
        law_reads_do_not_matter(next, later, learned, listing, convert);
        lemma_written_before_more(first, more, true, map, listing, convert);
        assert(state.path_buffer + reads.flatten() =~= first.path_buffer + more);
    }
}

/// A path that is learned from a line is known in all that is written after it,
/// whether that came in the same read or not, and even if a part of it was held
/// back before.
pub proof fn law_learned_paths_are_replaced_from_then_on(
    state: StreamState,
    map: Map<Seq<u8>, Seq<u8>>,
    listing: spec_fn(Map<Seq<u8>, Seq<u8>>) -> Seq<(Seq<u8>, Seq<u8>)>,
    convert: spec_fn(Seq<u8>) -> Option<Seq<u8>>,
)
    ensures
        next_line(state, listing(map)) matches Some((line, next)) ==> ({
            let learned = map_after_line(line, map, convert);
            let (text, end, last) = written_lines(next, learned, listing, convert);
            &&& written_lines(state, map, listing, convert) == (
                rewritten_line(line, learned) + text,
                end,
                last,
            )
            &&& map.submap_of(learned)
            &&& (file_line_path(line) matches Some((start, pos)) ==> (convert(
                line.subrange(start, pos),
            ) is Some ==> learned.contains_key(line.subrange(start, pos))))
        }),
{
    lemma_line_leaves_less(state.line_buffer, state.path_buffer, state.ended, listing(map));
}

/// What is written for lines where no path is learned.
proof fn lemma_written_without_learning(
    state: StreamState,
    map: Map<Seq<u8>, Seq<u8>>,
    listing: spec_fn(Map<Seq<u8>, Seq<u8>>) -> Seq<(Seq<u8>, Seq<u8>)>,
    convert: spec_fn(Seq<u8>) -> Option<Seq<u8>>,
)
    requires
        forall|path: Seq<u8>| #[trigger] convert(path) is None,
    ensures
        written_lines(state, map, listing, convert).0 == lines_left(
            state,
            listing(map),
        ).map_values(line_rewriter(map)).flatten(),
    decreases state.path_buffer.len(), state.line_buffer.len(),
{
    let known = listing(map);
    let rewrite = line_rewriter(map);
    lemma_line_leaves_less(state.line_buffer, state.path_buffer, state.ended, known);
    match next_line(state, known) {
        Some((line, next)) => {
            assert(map_after_line(line, map, convert) == map);
            lemma_written_without_learning(next, map, listing, convert);
            let later = lines_left(next, known);
            let lines = lines_left(state, known);
            assert(lines == seq![line] + later);
            let written = lines.map_values(rewrite);
            assert(written.first() == rewritten_line(line, map));
            assert(written.drop_first() =~= later.map_values(rewrite));
        },
        None => {
            assert(lines_left(state, known).map_values(rewrite) =~= Seq::<Seq<u8>>::empty());
        },
    }
}

/// Known paths are replaced once in a stream, however it is read: where no path is
/// learned on the way, what is written are the lines of the whole stream with its
/// known paths replaced, and in each of them at most the path before the line
/// number is replaced after that. Where no line begins with such a path that has a
/// native form, it is the stream with its known paths replaced, and nothing else.
pub proof fn law_known_paths_are_replaced_once(
    reads: Seq<Seq<u8>>,
    map: Map<Seq<u8>, Seq<u8>>,
    listing: spec_fn(Map<Seq<u8>, Seq<u8>>) -> Seq<(Seq<u8>, Seq<u8>)>,
    convert: spec_fn(Seq<u8>) -> Option<Seq<u8>>,
)
    requires
        forall|i: int| 0 <= i < reads.len() ==> (#[trigger] reads[i]).len() > 0,
        forall|path: Seq<u8>| #[trigger] convert(path) is None,
    ensures
        ({
            let text = replaced(reads.flatten(), listing(map));
            let lines = all_lines(text);
            let written = written_stream(
                unread(Seq::empty(), false),
                reads,
                map,
                listing,
                convert,
            );
            &&& lines.flatten() == text
            &&& written == lines.map_values(line_rewriter(map)).flatten()
            &&& (forall|i: int|
                0 <= i < lines.len() ==> (file_line_path(#[trigger] lines[i]) matches Some(
                    (start, end),
                ) ==> !map.contains_key(lines[i].subrange(start, end)))) ==> written == text
        }),
{
    let start = unread(Seq::empty(), false);
    let all = unread(reads.flatten(), true);
    let text = replaced(reads.flatten(), listing(map));
    let lines = all_lines(text);
    law_lines_make_up_the_data(text);
    law_reads_do_not_matter(start, reads, map, listing, convert);
    assert(start.path_buffer + reads.flatten() =~= reads.flatten());
    lemma_written_without_learning(all, map, listing, convert);
    law_stream_is_forwarded_whole(all, listing(map));
    assert(all.line_buffer + text =~= text);
    if forall|i: int|
        0 <= i < lines.len() ==> (file_line_path(#[trigger] lines[i]) matches Some(
            (start, end),
        ) ==> !map.contains_key(lines[i].subrange(start, end))) {
        assert(lines.map_values(line_rewriter(map)) =~= lines);
    }
}

/// A map that has taken in mappings gives for a path what the last mapping of that
/// path says, for a path without one what it gave before, and knows no others.
pub proof fn law_the_last_mapping_counts(
    map: Map<Seq<u8>, Seq<u8>>,
    mappings: Seq<(Seq<u8>, Seq<u8>)>,
    k: int,
    path: Seq<u8>,
)
    ensures
        0 <= k < mappings.len() && mappings[k].0 == path && (forall|j: int|
            k < j < mappings.len() ==> (#[trigger] mappings[j]).0 != path) ==> extended(
            map,
            mappings,
        ).contains_key(path) && extended(map, mappings)[path] == mappings[k].1,
        (forall|j: int| 0 <= j < mappings.len() ==> (#[trigger] mappings[j]).0 != path) ==> (
        extended(map, mappings).contains_key(path) <==> map.contains_key(path)) && (
        map.contains_key(path) ==> extended(map, mappings)[path] == map[path]),
    decreases mappings.len(),
{
    if mappings.len() > 0 {
        let fewer = mappings.drop_last();
        law_the_last_mapping_counts(map, fewer, k, path);
        assert(forall|j: int| 0 <= j < fewer.len() ==> fewer[j] == mappings[j]);
        if 0 <= k < fewer.len() && mappings[k].0 == path && (forall|j: int|
            k < j < mappings.len() ==> (#[trigger] mappings[j]).0 != path) {
            assert(mappings[mappings.len() - 1].0 != path);
        }
        if forall|j: int| 0 <= j < mappings.len() ==> (#[trigger] mappings[j]).0 != path {
            assert(mappings[mappings.len() - 1].0 != path);
        }
    }
}

/// Each path that is learned gets the native form that came back for it: the first
/// the first, the second the second, and so on. No other path is learned.
pub proof fn law_each_path_gets_its_own_form(
    map: Map<Seq<u8>, Seq<u8>>,
    paths: Seq<Seq<u8>>,
    windows_paths: Seq<Seq<u8>>,
    k: int,
    path: Seq<u8>,
)
    requires
        windows_paths.len() == unseen(paths, map).len(),
    ensures
        ({
            let new = unseen(paths, map);
            let after = extended(map, zipped(new, windows_paths));
            &&& 0 <= k < new.len() ==> after.contains_key(new[k]) && after[new[k]]
                == windows_paths[k]
            &&& after.contains_key(path) <==> map.contains_key(path) || (paths.contains(path)
                && path.len() > 0 && path[0] == 0x2f)
        }),
{
    let new = unseen(paths, map);
    let mappings = zipped(new, windows_paths);
    law_unseen_paths(paths, map);
    if 0 <= k < new.len() {
        assert(mappings[k] == (new[k], windows_paths[k]));
        assert forall|j: int| k < j < mappings.len() implies (#[trigger] mappings[j]).0
            != new[k] by {
            assert(new[j] != new[k]);
        }
        law_the_last_mapping_counts(map, mappings, k, new[k]);
    }
    if new.contains(path) {
        let i = choose|i: int| 0 <= i < new.len() && new[i] == path;
        assert(mappings[i] == (new[i], windows_paths[i]));
        assert forall|j: int| i < j < mappings.len() implies (#[trigger] mappings[j]).0 != path by {
            assert(new[j] != new[i]);
        }
        law_the_last_mapping_counts(map, mappings, i, path);
    } else {
        assert forall|j: int| 0 <= j < mappings.len() implies (#[trigger] mappings[j]).0
            != path by {
            assert(new.contains(new[j]));
        }
        law_the_last_mapping_counts(map, mappings, 0, path);
    }
}

/// The paths of an invocation are known from the start, each by the form that
/// cygpath made of it, and stand for themselves: the text of the last native path
/// with that form. Nothing else is known.
pub proof fn law_invocation_paths_are_known(
    posix_paths: Seq<Seq<u8>>,
    windows_paths: Seq<String>,
    k: int,
    path: Seq<u8>,
)
    requires
        posix_paths.len() == windows_paths.len(),
    ensures
        ({
            let map = extended(Map::empty(), zipped(posix_paths, text_views(windows_paths)));
            &&& 0 <= k < posix_paths.len() && posix_paths[k] == path && (forall|j: int|
                k < j < posix_paths.len() ==> #[trigger] posix_paths[j] != path)
                ==> map.contains_key(path) && map[path] == vstd::utf8::encode_utf8(
                windows_paths[k]@,
            )
            &&& map.contains_key(path) <==> posix_paths.contains(path)
        }),
{
    let mappings = zipped(posix_paths, text_views(windows_paths));
    let map = extended(Map::<Seq<u8>, Seq<u8>>::empty(), mappings);
    if 0 <= k < posix_paths.len() && posix_paths[k] == path && (forall|j: int|
        k < j < posix_paths.len() ==> #[trigger] posix_paths[j] != path) {
        assert forall|j: int| k < j < mappings.len() implies (#[trigger] mappings[j]).0 != path by {
            assert(posix_paths[j] != path);
        }
        assert(mappings[k].0 == path);
        law_the_last_mapping_counts(Map::empty(), mappings, k, path);
    }
    lemma_extended(Map::empty(), mappings);
    if posix_paths.contains(path) {
        let i = choose|i: int| 0 <= i < posix_paths.len() && posix_paths[i] == path;
        assert(mappings[i].0 == path);
    } else {
        assert forall|j: int| 0 <= j < mappings.len() implies (#[trigger] mappings[j]).0
            != path by {
            assert(posix_paths.contains(posix_paths[j]));
        }
        law_the_last_mapping_counts(Map::empty(), mappings, 0, path);
    }
}

/// The path of a diagnostic gives way to its native form, whatever the line number
/// is and whether a parenthesis stands before it or not; the rest of the line stays
/// as it is. Where the path has no native form, so does the whole line. A path that
/// cygpath can convert is known after such a line.
pub proof fn law_diagnostics_name_native_paths(
    path: Seq<u8>,
    digits: Seq<u8>,
    rest: Seq<u8>,
    native: Map<Seq<u8>, Seq<u8>>,
    convert: spec_fn(Seq<u8>) -> Option<Seq<u8>>,
)
    requires
        path.len() > 0,
        path[0] == 0x2f,
        forall|i: int| 0 <= i < path.len() ==> #[trigger] path[i] != 0x3a,
        digits.len() > 0,
        forall|i: int| 0 <= i < digits.len() ==> 0x30 <= #[trigger] digits[i] <= 0x39,
    ensures
        ({
            let tail = seq![0x3au8] + digits + seq![0x3au8] + rest;
            let form = if native.contains_key(path) {
                native[path]
            } else {
                path
            };
            &&& rewritten_line(path + tail, native) == form + tail
            &&& rewritten_line(seq![0x28u8] + path + tail, native) == seq![0x28u8] + form + tail
            &&& !native.contains_key(path) && convert(path) is Some ==> rewritten_line(
                path + tail,
                map_after_line(path + tail, native, convert),
            ) == convert(path)->0 + tail
        }),
{
    let tail = seq![0x3au8] + digits + seq![0x3au8] + rest;
    law_path_before_any_line_number_is_found(path, digits, rest);
    let plain = path + tail;
    let nested = seq![0x28u8] + path + tail;
    let n = path.len() as int;
    assert(plain.subrange(0, n) =~= path);
    assert(nested.subrange(1, n + 1) =~= path);
    assert(plain.skip(n) =~= tail);
    assert(nested.skip(n + 1) =~= tail);
    assert(plain.take(0) =~= Seq::<u8>::empty());
    assert(nested.take(1) =~= seq![0x28u8]);
    if native.contains_key(path) {
        assert(spliced(plain, 0, n, native[path]) =~= native[path] + tail);
        assert(spliced(nested, 1, n + 1, native[path]) =~= seq![0x28u8] + native[path] + tail);
    }
    if convert(path) is Some {
        assert(spliced(plain, 0, n, convert(path)->0) =~= convert(path)->0 + tail);
    }
}

/// A line that does not begin with an absolute path, after a parenthesis or without
/// one, stays as it is, whatever is known.
pub proof fn law_other_lines_are_not_rewritten(line: Seq<u8>, native: Map<Seq<u8>, Seq<u8>>)
    requires
        !(line.len() > 0 && line[0] == 0x2f),
        !(line.len() > 1 && line[0] == 0x28 && line[1] == 0x2f),
    ensures
        rewritten_line(line, native) == line,
{
    law_only_a_path_before_a_line_number_is_found(line);
}

/// What the right answer to a line is: a diagnostic of a path without a native form
/// calls for the conversion of that path, all of it and nothing more, and any other
/// line for nothing; then the line is the rewritten one.
pub proof fn law_unknown_paths_call_for_conversion(
    answer: Diagnostic,
    path: Seq<u8>,
    digits: Seq<u8>,
    rest: Seq<u8>,
    line: Seq<u8>,
    native: Map<Seq<u8>, Seq<u8>>,
)
    requires
        path.len() > 0,
        path[0] == 0x2f,
        forall|i: int| 0 <= i < path.len() ==> #[trigger] path[i] != 0x3a,
        digits.len() > 0,
        forall|i: int| 0 <= i < digits.len() ==> 0x30 <= #[trigger] digits[i] <= 0x39,
        line == path + (seq![0x3au8] + digits + seq![0x3au8] + rest) || line == seq![0x28u8] + path
            + (seq![0x3au8] + digits + seq![0x3au8] + rest),
        answer.answers(line, native),
    ensures
        !native.contains_key(path) ==> (answer matches Diagnostic::Unknown(pending)
            && pending.spec_path() == path && pending.text@ == line),
        native.contains_key(path) ==> (answer matches Diagnostic::Rewritten(out) && out@
            == rewritten_line(line, native)),
{
    law_path_before_any_line_number_is_found(path, digits, rest);
    let n = path.len() as int;
    if line == path + (seq![0x3au8] + digits + seq![0x3au8] + rest) {
        assert(line.subrange(0, n) =~= path);
    } else {
        assert(line.subrange(1, n + 1) =~= path);
    }
}

/// The right answer to a line that does not begin with an absolute path is the line
/// itself.
pub proof fn law_other_lines_call_for_nothing(
    answer: Diagnostic,
    line: Seq<u8>,
    native: Map<Seq<u8>, Seq<u8>>,
)
    requires
        !(line.len() > 0 && line[0] == 0x2f),
        !(line.len() > 1 && line[0] == 0x28 && line[1] == 0x2f),
        answer.answers(line, native),
    ensures
        answer matches Diagnostic::Rewritten(out) && out@ == line,
{
    law_only_a_path_before_a_line_number_is_found(line);
}

/// A list for textual use has every path that is known with its native form, once,
/// and no other; a longer path never stands after a shorter one.
pub proof fn law_a_listing_has_every_mapping(
    list: Seq<(Seq<u8>, Seq<u8>)>,
    map: Map<Seq<u8>, Seq<u8>>,
    path: Seq<u8>,
)
    requires
        is_listing(list, map),
    ensures
        map.contains_key(path) <==> exists|i: int|
            0 <= i < list.len() && (#[trigger] list[i]).0 == path,
        forall|i: int| 0 <= i < list.len() && (#[trigger] list[i]).0 == path ==> list[i].1 == map[path],
        forall|i: int, j: int|
            0 <= i < j < list.len() ==> (#[trigger] list[i]).0.len() >= (#[trigger] list[j]).0.len()
                && list[i].0 != list[j].0,
{
    if map.contains_key(path) {
        assert(list.contains((path, map[path])));
        let i = choose|i: int| 0 <= i < list.len() && list[i] == (path, map[path]);
        assert(list[i].0 == path);
    }
    assert forall|i: int| 0 <= i < list.len() && (#[trigger] list[i]).0 == path implies list[i].1
        == map[path] && map.contains_key(path) by {
        assert(list.contains((list[i].0, list[i].1)));
    }
}

/// A path that is known is replaced by its native form in a text, wherever it stands
/// and with line breaks inside it or without, where no other known path begins in
/// what stands before it and no longer one in its place.
pub proof fn law_every_known_path_is_replaced(
    before: Seq<u8>,
    wrapped: Seq<u8>,
    rest: Seq<u8>,
    list: Seq<(Seq<u8>, Seq<u8>)>,
    map: Map<Seq<u8>, Seq<u8>>,
)
    requires
        is_listing(list, map),
        wrapped.len() > 0,
        wrapped[0] != 0x0d && wrapped[0] != 0x0a,
        wrapped.last() != 0x0d && wrapped.last() != 0x0a,
        map.contains_key(unbroken(wrapped)),
        forall|n: int|
            0 <= n <= (wrapped + rest).len() && unbroken((wrapped + rest).take(n)).len() > unbroken(
                wrapped,
            ).len() ==> !map.contains_key(unbroken(#[trigger] (wrapped + rest).take(n))),
        forall|at: int, n: int|
            0 <= at < before.len() && before[at] != 0x0d && before[at] != 0x0a && 0 <= n <= (before
                + wrapped + rest).len() - at && unbroken(
                (before + wrapped + rest).skip(at).take(n),
            ).len() > 0 ==> !map.contains_key(
                unbroken(#[trigger] (before + wrapped + rest).skip(at).take(n)),
            ),
    ensures
        replaced(before + wrapped + rest, list) == before + map[unbroken(wrapped)] + replaced(
            rest,
            list,
        ),
{
    let path = unbroken(wrapped);
    assert(list.contains((path, map[path])));
    let k = choose|k: int| 0 <= k < list.len() && list[k] == (path, map[path]);
    assert forall|i: int, n: int|
        0 <= i < list.len() && list[i].0.len() > list[k].0.len() && 0 <= n <= (wrapped
            + rest).len() implies unbroken(#[trigger] (wrapped + rest).take(n)) != (
    #[trigger] list[i]).0 by {
        assert(list.contains((list[i].0, list[i].1)));
    }
    assert forall|at: int, i: int, n: int|
        0 <= at < before.len() && before[at] != 0x0d && before[at] != 0x0a && 0 <= i < list.len()
            && list[i].0.len() > 0 && 0 <= n <= (before + wrapped + rest).len()
            - at implies unbroken(#[trigger] (before + wrapped + rest).skip(at).take(n)) != (
    #[trigger] list[i]).0 by {
        assert(list.contains((list[i].0, list[i].1)));
    }
    law_known_paths_are_replaced_where_they_stand(before, wrapped, rest, list, k);
}

} // verus!
