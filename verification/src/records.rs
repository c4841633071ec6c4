//! The two kinds of TeX artifact that name paths in records of their own: the
//! recorder's `.fls` file and the SyncTeX file.
use vstd::prelude::*;
use vstd::slice::slice_subrange;
use vstd::string::*;
use crate::bytes::{
    append, find, find_byte, has_prefix, lemma_find, lemma_find_is, views, COLON, CR, LF, SLASH,
};
use crate::diagnostics::{all_lines, law_lines_make_up_the_data};
use crate::lists::{lemma_filter_map_first, lemma_filter_map_holds};
use crate::path_map::PathMap;

verus! {

/// What stands before the path in a record of a file that was read.
pub const FLS_INPUT: &'static str = "INPUT ";

/// What stands before the path in a record of a file that was written.
pub const FLS_OUTPUT: &'static str = "OUTPUT ";

/// What stands before the tag and the path in a SyncTeX record.
pub const SYNCTEX_INPUT: &'static str = "Input:";

/// A line without the carriage return at its end.
pub open spec fn without_cr(line: Seq<u8>) -> Seq<u8> {
    if line.len() > 0 && line.last() == CR {
        line.drop_last()
    } else {
        line
    }
}

/// A line without the line feed at its end.
pub open spec fn without_lf(line: Seq<u8>) -> Seq<u8> {
    if line.len() > 0 && line.last() == LF {
        line.drop_last()
    } else {
        line
    }
}

/// The pieces of `data` between its line feeds.
pub open spec fn pieces(data: Seq<u8>) -> Seq<Seq<u8>>
    decreases data.len(),
{
    let n = find(data, LF);
    if 0 <= n < data.len() {
        seq![data.take(n)] + pieces(data.skip(n + 1))
    } else {
        seq![data]
    }
}

/// The contents of a list of slices.
pub open spec fn slice_views(list: Seq<&[u8]>) -> Seq<Seq<u8>> {
    list.map_values(|s: &[u8]| s@)
}

/// Whether a path is absolute for Cygwin.
pub open spec fn posix_absolute(path: Seq<u8>) -> bool {
    path.len() > 0 && path[0] == SLASH
}

/// Whether a path is absolute for Cygwin.
pub fn is_posix_absolute(path: &[u8]) -> (r: bool)
    ensures
        r == posix_absolute(path@),
{
    path.len() > 0 && path[0] == SLASH
}

/// A line without the carriage return at its end.
pub(crate) fn trim_cr(line: &[u8]) -> (r: &[u8])
    ensures
        r@ == without_cr(line@),
{
    if line.len() > 0 && line[line.len() - 1] == CR {
        let r: &[u8] = slice_subrange(line, 0, line.len() - 1);
        assert(r@ =~= line@.drop_last());
        r
    } else {
        line
    }
}

/// A line without the line feed at its end.
fn trim_lf(line: &[u8]) -> (r: &[u8])
    ensures
        r@ == without_lf(line@),
{
    if line.len() > 0 && line[line.len() - 1] == LF {
        let r: &[u8] = slice_subrange(line, 0, line.len() - 1);
        assert(r@ =~= line@.drop_last());
        r
    } else {
        line
    }
}

/// Cuts data at its line feeds, and leaves them out.
pub(crate) fn split_lines<'a>(data: &'a [u8]) -> (r: Vec<&'a [u8]>)
    ensures
        slice_views(r@) == pieces(data@),
{
    let mut r: Vec<&'a [u8]> = Vec::new();
    let mut cursor: usize = 0;
    assert(data@.skip(0) =~= data@);
    assert(slice_views(r@) + pieces(data@) =~= pieces(data@));
    loop
        invariant
            cursor <= data@.len(),
            pieces(data@) == slice_views(r@) + pieces(data@.skip(cursor as int)),
        decreases data@.len() - cursor,
    {
        let rest: &'a [u8] = slice_subrange(data, cursor, data.len());
        assert(rest@ =~= data@.skip(cursor as int));
        let n: usize = find_byte(rest, LF);
        let piece: &'a [u8] = slice_subrange(rest, 0, n);
        let ghost before = slice_views(r@);
        r.push(piece);
        assert(piece@ =~= rest@.take(n as int));
        assert(slice_views(r@) =~= before.push(piece@));
        if n == rest.len() {
            assert(piece@ =~= rest@);
            assert(before + seq![rest@] =~= slice_views(r@));
            return r;
        }
        proof {
            assert(rest@.skip(n + 1) =~= data@.skip(cursor + n + 1));
            let later = pieces(data@.skip(cursor + n + 1));
            assert(before + (seq![piece@] + later) =~= slice_views(r@) + later);
        }
        cursor += n + 1;
    }
}

/// Cuts data after its line feeds.
fn split_inclusive<'a>(data: &'a [u8]) -> (r: Vec<&'a [u8]>)
    ensures
        slice_views(r@) == all_lines(data@),
{
    let mut r: Vec<&'a [u8]> = Vec::new();
    let mut cursor: usize = 0;
    assert(data@.skip(0) =~= data@);
    assert(slice_views(r@) + all_lines(data@) =~= all_lines(data@));
    while cursor < data.len()
        invariant
            cursor <= data@.len(),
            all_lines(data@) == slice_views(r@) + all_lines(data@.skip(cursor as int)),
        decreases data@.len() - cursor,
    {
        let rest: &'a [u8] = slice_subrange(data, cursor, data.len());
        assert(rest@ =~= data@.skip(cursor as int));
        let n: usize = find_byte(rest, LF);
        let ghost before = slice_views(r@);
        if n == rest.len() {
            r.push(rest);
            assert(slice_views(r@) =~= before.push(rest@));
            assert(all_lines(rest@) =~= seq![rest@]);
            assert(before + seq![rest@] =~= slice_views(r@));
            return r;
        }
        let line: &'a [u8] = slice_subrange(rest, 0, n + 1);
        r.push(line);
        proof {
            assert(line@ =~= rest@.take(n + 1));
            assert(slice_views(r@) =~= before.push(line@));
            assert(rest@.skip(n + 1) =~= data@.skip(cursor + n + 1));
            let later = all_lines(data@.skip(cursor + n + 1));
            assert(all_lines(rest@) =~= seq![line@] + later);
            assert(before + (seq![line@] + later) =~= slice_views(r@) + later);
        }
        cursor += n + 1;
    }
    proof {
        let none = data@.skip(cursor as int);
        assert(all_lines(none) =~= Seq::<Seq<u8>>::empty());
        assert(slice_views(r@) + all_lines(none) =~= slice_views(r@));
    }
    r
}

/// The absolute path that a line of the recorder's file names.
pub open spec fn fls_path(line: Seq<u8>) -> Option<Seq<u8>> {
    let text = without_cr(line);
    let input = FLS_INPUT.spec_bytes();
    let output = FLS_OUTPUT.spec_bytes();
    let path = if input.is_prefix_of(text) {
        text.skip(input.len() as int)
    } else if output.is_prefix_of(text) {
        text.skip(output.len() as int)
    } else {
        Seq::empty()
    };
    if posix_absolute(path) {
        Some(path)
    } else {
        None
    }
}

/// What a line of the recorder's file names, as a function of the line.
pub open spec fn fls_record() -> spec_fn(Seq<u8>) -> Option<Seq<u8>> {
    |line: Seq<u8>| fls_path(line)
}

/// Extracts the absolute paths of the recorder's `INPUT` and `OUTPUT` records,
/// in order.
pub fn paths_from_fls(contents: &[u8]) -> (r: Vec<Vec<u8>>)
    ensures
        views(r@) == pieces(contents@).filter_map(fls_record()),
{
    let lines: Vec<&[u8]> = split_lines(contents);
    let ghost all = slice_views(lines@);
    let mut r: Vec<Vec<u8>> = Vec::new();
    let mut i: usize = 0;
    assert(all.take(0).filter_map(fls_record()) =~= Seq::<Seq<u8>>::empty()) by {
        reveal(Seq::filter_map);
    }
    assert(views(r@) =~= Seq::<Seq<u8>>::empty());
    while i < lines.len()
        invariant
            i <= lines@.len(),
            all == slice_views(lines@),
            views(r@) == all.take(i as int).filter_map(fls_record()),
        decreases lines@.len() - i,
    {
        proof {
            all.lemma_filter_map_take_succ(fls_record(), i as int);
            assert(all[i as int] == lines@[i as int]@);
        }
        let ghost before = views(r@);
        let line: &[u8] = trim_cr(lines[i]);
        let input: &[u8] = FLS_INPUT.as_bytes();
        let output: &[u8] = FLS_OUTPUT.as_bytes();
        let start: usize = if has_prefix(line, input) {
            input.len()
        } else if has_prefix(line, output) {
            output.len()
        } else {
            line.len()
        };
        let path: &[u8] = slice_subrange(line, start, line.len());
        assert(path@ =~= line@.skip(start as int));
        if is_posix_absolute(path) {
            let owned: Vec<u8> = vstd::slice::slice_to_vec(path);
            r.push(owned);
            assert(views(r@) =~= before.push(owned@));
            assert(before + seq![owned@] =~= before.push(owned@));
        } else {
            assert(before + Seq::<Seq<u8>>::empty() =~= before);
        }
        i += 1;
    }
    assert(all.take(i as int) =~= all);
    r
}

/// Where the path stands in a line of a SyncTeX file: after `Input:`, a tag and
/// a colon, up to the carriage return or the end.
pub open spec fn synctex_field(line: Seq<u8>) -> Option<(int, int)> {
    let text = without_cr(line);
    let input = SYNCTEX_INPUT.spec_bytes();
    let rest = text.skip(input.len() as int);
    if input.is_prefix_of(text) && find(rest, COLON) < rest.len() {
        Some((input.len() + find(rest, COLON) + 1, text.len() as int))
    } else {
        None
    }
}

/// The path in a line of a SyncTeX file.
pub open spec fn synctex_field_path(line: Seq<u8>) -> Option<Seq<u8>> {
    match synctex_field(line) {
        Some((start, end)) => Some(line.subrange(start, end)),
        None => None,
    }
}

/// A field lies within its line.
proof fn lemma_synctex_field(line: Seq<u8>)
    ensures
        synctex_field(line) matches Some((start, end)) ==> 0 < start <= end <= line.len(),
{
    let rest = without_cr(line).skip(SYNCTEX_INPUT.spec_bytes().len() as int);
    lemma_find(rest, COLON);
}

/// Where the path stands in a line of a SyncTeX file.
fn synctex_span(line: &[u8]) -> (r: Option<(usize, usize)>)
    ensures
        match r {
            Some((start, end)) => synctex_field(line@) == Some((start as int, end as int)) && start
                <= end <= line@.len(),
            None => synctex_field(line@) is None,
        },
{
    let text: &[u8] = trim_cr(line);
    let input: &[u8] = SYNCTEX_INPUT.as_bytes();
    if !has_prefix(text, input) {
        return None;
    }
    let rest: &[u8] = slice_subrange(text, input.len(), text.len());
    assert(rest@ =~= text@.skip(input@.len() as int));
    let separator: usize = find_byte(rest, COLON);
    if separator == rest.len() {
        return None;
    }
    Some((input.len() + separator + 1, text.len()))
}

/// Returns the path field while allowing colons inside the path itself.
pub fn synctex_path(line: &[u8]) -> (r: Option<&[u8]>)
    ensures
        match r {
            Some(path) => synctex_field_path(line@) == Some(path@),
            None => synctex_field_path(line@) is None,
        },
{
    match synctex_span(line) {
        Some((start, end)) => Some(slice_subrange(line, start, end)),
        None => None,
    }
}

/// The absolute path that a line of a SyncTeX file names, as a function of the
/// line.
pub open spec fn synctex_record() -> spec_fn(Seq<u8>) -> Option<Seq<u8>> {
    |line: Seq<u8>|
        match synctex_field_path(line) {
            Some(path) => if posix_absolute(path) {
                Some(path)
            } else {
                None
            },
            None => None,
        }
}

/// Extracts the absolute paths of SyncTeX's `Input:<tag>:<path>` records, in
/// order.
pub fn paths_from_synctex(contents: &[u8]) -> (r: Vec<Vec<u8>>)
    ensures
        views(r@) == pieces(contents@).filter_map(synctex_record()),
{
    let lines: Vec<&[u8]> = split_lines(contents);
    let ghost all = slice_views(lines@);
    let mut r: Vec<Vec<u8>> = Vec::new();
    let mut i: usize = 0;
    assert(all.take(0).filter_map(synctex_record()) =~= Seq::<Seq<u8>>::empty()) by {
        reveal(Seq::filter_map);
    }
    assert(views(r@) =~= Seq::<Seq<u8>>::empty());
    while i < lines.len()
        invariant
            i <= lines@.len(),
            all == slice_views(lines@),
            views(r@) == all.take(i as int).filter_map(synctex_record()),
        decreases lines@.len() - i,
    {
        proof {
            all.lemma_filter_map_take_succ(synctex_record(), i as int);
            assert(all[i as int] == lines@[i as int]@);
        }
        let ghost before = views(r@);
        assert(before + Seq::<Seq<u8>>::empty() =~= before);
        if let Some(path) = synctex_path(lines[i]) {
            if is_posix_absolute(path) {
                let owned: Vec<u8> = vstd::slice::slice_to_vec(path);
                r.push(owned);
                assert(views(r@) =~= before.push(owned@));
                assert(before + seq![owned@] =~= before.push(owned@));
            }
        }
        i += 1;
    }
    assert(all.take(i as int) =~= all);
    r
}

/// A line of a SyncTeX file, with its line ending, after a path that has a
/// native form has been replaced by it.
pub open spec fn rewritten_record(line: Seq<u8>, native: Map<Seq<u8>, Seq<u8>>) -> Seq<u8> {
    let text = without_cr(without_lf(line));
    match synctex_field(text) {
        Some((start, end)) => {
            let path = text.subrange(start, end);
            if native.contains_key(path) {
                line.take(start) + native[path] + line.skip(end)
            } else {
                line
            }
        },
        None => line,
    }
}

/// What becomes of a line of a SyncTeX file, as a function of the line.
pub open spec fn record_rewriter(
    native: Map<Seq<u8>, Seq<u8>>,
) -> spec_fn(Seq<u8>) -> Seq<u8> {
    |line: Seq<u8>| rewritten_record(line, native)
}

/// A SyncTeX file after its paths have been replaced.
pub open spec fn rewritten_synctex(contents: Seq<u8>, native: Map<Seq<u8>, Seq<u8>>) -> Seq<u8> {
    all_lines(contents).flat_map(record_rewriter(native))
}

/// Rewrites structured path fields while preserving all other bytes and
/// endings.
pub fn rewrite_synctex(contents: &[u8], mappings: &PathMap) -> (output: Vec<u8>)
    requires
        mappings.wf(),
    ensures
        output@ == rewritten_synctex(contents@, mappings@),
{
    let lines: Vec<&[u8]> = split_inclusive(contents);
    let ghost all = slice_views(lines@);
    let ghost rewriter = record_rewriter(mappings@);
    let mut output: Vec<u8> = Vec::with_capacity(contents.len());
    let mut i: usize = 0;
    assert(all.take(0).flat_map(rewriter) =~= Seq::<u8>::empty()) by {
        assert(all.take(0).map_values(rewriter) =~= Seq::<Seq<u8>>::empty());
    }
    while i < lines.len()
        invariant
            i <= lines@.len(),
            mappings.wf(),
            all == slice_views(lines@),
            rewriter == record_rewriter(mappings@),
            output@ == all.take(i as int).flat_map(rewriter),
        decreases lines@.len() - i,
    {
        proof {
            all.lemma_flat_map_take_append(rewriter, i as int);
            assert(all[i as int] == lines@[i as int]@);
        }
        let ghost before = output@;
        let line: &[u8] = lines[i];
        let text: &[u8] = trim_cr(trim_lf(line));
        let mut replaced: bool = false;
        if let Some((start, end)) = synctex_span(text) {
            if let Some(replacement) = mappings.get(slice_subrange(text, start, end)) {
                append(&mut output, slice_subrange(line, 0, start));
                append(&mut output, replacement.as_slice());
                append(&mut output, slice_subrange(line, end, line.len()));
                proof {
                    assert(line@.subrange(0, start as int) =~= line@.take(start as int));
                    assert(line@.subrange(end as int, line@.len() as int) =~= line@.skip(
                        end as int,
                    ));
                    assert(output@ =~= before + rewritten_record(line@, mappings@));
                }
                replaced = true;
            }
        }
        if !replaced {
            append(&mut output, line);
        }
        i += 1;
    }
    assert(all.take(i as int) =~= all);
    output
}

/// Lines as they stand in a file: none is empty, only the last may lack its
/// line feed, and none has another.
spec fn are_lines(lines: Seq<Seq<u8>>) -> bool {
    forall|i: int|
        0 <= i < lines.len() ==> is_line(#[trigger] lines[i], i + 1 < lines.len())
}

/// A line that has no line feed before its end, and one there if it must.
spec fn is_line(line: Seq<u8>, ended: bool) -> bool {
    &&& line.len() > 0
    &&& forall|i: int| 0 <= i < line.len() - 1 ==> line[i] != LF
    &&& ended ==> line.last() == LF
}

proof fn lemma_lines_are_lines(data: Seq<u8>)
    ensures
        are_lines(all_lines(data)),
    decreases data.len(),
{
    let n = find(data, LF);
    lemma_find(data, LF);
    if n < data.len() {
        lemma_lines_are_lines(data.skip(n + 1));
        let later = all_lines(data.skip(n + 1));
        let all = all_lines(data);
        assert(all =~= seq![data.take(n + 1)] + later);
        assert forall|i: int| 0 <= i < all.len() implies is_line(
            #[trigger] all[i],
            i + 1 < all.len(),
        ) by {
            if i > 0 {
                assert(all[i] == later[i - 1]);
                assert(is_line(later[i - 1], i < later.len()));
            }
        }
    } else if data.len() > 0 {
        assert(all_lines(data) =~= seq![data]);
    } else {
        assert(all_lines(data) =~= Seq::<Seq<u8>>::empty());
    }
}

proof fn lemma_lines_of_lines(lines: Seq<Seq<u8>>)
    requires
        are_lines(lines),
    ensures
        all_lines(lines.flatten()) == lines,
    decreases lines.len(),
{
    if lines.len() == 0 {
        assert(lines.flatten() =~= Seq::<u8>::empty());
        assert(all_lines(lines.flatten()) =~= lines);
    } else {
        let first = lines[0];
        let later = lines.drop_first();
        assert(is_line(first, 1 < lines.len()));
        assert forall|i: int| 0 <= i < later.len() implies is_line(
            #[trigger] later[i],
            i + 1 < later.len(),
        ) by {
            assert(is_line(lines[i + 1], i + 2 < lines.len()));
        }
        lemma_lines_of_lines(later);
        let data = lines.flatten();
        assert(data == first + later.flatten());
        if first.last() == LF {
            let n = first.len() - 1;
            assert forall|i: int| 0 <= i < n implies data[i] != LF by {
                assert(data[i] == first[i]);
            }
            lemma_find_is(data, LF, n);
            assert(data.take(n + 1) =~= first);
            assert(data.skip(n + 1) =~= later.flatten());
            assert(all_lines(data) =~= seq![first] + all_lines(later.flatten()));
            assert(lines =~= seq![first] + later);
        } else {
            assert(later =~= Seq::<Seq<u8>>::empty());
            assert(later.flatten() =~= Seq::<u8>::empty());
            assert(data =~= first);
            lemma_find_is(data, LF, data.len() as int);
            assert(all_lines(data) =~= seq![first]);
            assert(lines =~= seq![first]);
        }
    }
}

/// Whether no native form holds a line feed, which would end the record that it
/// stands in.
pub open spec fn without_line_feeds(native: Map<Seq<u8>, Seq<u8>>) -> bool {
    forall|path: Seq<u8>| #[trigger] native.contains_key(path) ==> !native[path].contains(LF)
}

/// Whether the native forms can be read from a record as they are: none holds a
/// line feed or ends in a carriage return.
pub open spec fn fit_for_records(native: Map<Seq<u8>, Seq<u8>>) -> bool {
    &&& without_line_feeds(native)
    &&& forall|path: Seq<u8>| #[trigger]
        native.contains_key(path) ==> without_cr(native[path]) == native[path]
}

proof fn lemma_rewritten_line(line: Seq<u8>, native: Map<Seq<u8>, Seq<u8>>, ended: bool)
    requires
        is_line(line, ended),
        without_line_feeds(native),
    ensures
        is_line(rewritten_record(line, native), ended),
{
    let text = without_cr(without_lf(line));
    lemma_synctex_field(text);
    if let Some((start, end)) = synctex_field(text) {
        let path = text.subrange(start, end);
        if native.contains_key(path) {
            let after = rewritten_record(line, native);
            let form = native[path];
            assert forall|i: int| 0 <= i < after.len() - 1 implies after[i] != LF by {
                if start <= i < start + form.len() {
                    assert(after[i] == form[i - start]);
                    if after[i] == LF {
                        assert(form.contains(LF));
                    }
                } else if i >= start + form.len() {
                    assert(after[i] == line[i - start - form.len() + end]);
                }
            }
        }
    }
}

/// What can stand after the path of a line: up to two carriage returns and a
/// line feed.
spec fn is_ending(tail: Seq<u8>) -> bool {
    tail == Seq::<u8>::empty() || tail == seq![LF] || tail == seq![CR] || tail == seq![CR, LF]
        || tail == seq![CR, CR] || tail == seq![CR, CR, LF]
}

proof fn lemma_ending_is_trimmed(text: Seq<u8>, tail: Seq<u8>)
    requires
        is_ending(tail),
        text.len() > 0,
        text.last() != CR,
        text.last() != LF,
    ensures
        without_cr(without_cr(without_lf(text + tail))) == text,
        without_cr(without_lf(text + tail)).take(text.len() as int) == text,
{
    let line = text + tail;
    if tail == Seq::<u8>::empty() {
        assert(line =~= text);
    } else if tail == seq![LF] {
        assert(without_lf(line) =~= text);
    } else if tail == seq![CR] {
        assert(without_cr(line) =~= text);
    } else if tail == seq![CR, LF] {
        assert(without_lf(line) =~= text.push(CR));
        assert(without_cr(without_lf(line)) =~= text);
    } else if tail == seq![CR, CR] {
        assert(without_cr(line) =~= text.push(CR));
        assert(without_cr(without_cr(line)) =~= text);
    } else {
        assert(without_lf(line) =~= text.push(CR).push(CR));
        assert(without_cr(without_lf(line)) =~= text.push(CR));
        assert(without_cr(without_cr(without_lf(line))) =~= text);
    }
    assert(without_cr(without_lf(line)).take(text.len() as int) =~= text);
}

proof fn lemma_ending_of_line(line: Seq<u8>)
    ensures
        is_ending(line.skip(without_cr(without_cr(without_lf(line))).len() as int)),
        line.take(without_cr(without_cr(without_lf(line))).len() as int) == without_cr(
            without_cr(without_lf(line)),
        ),
{
    let one = without_lf(line);
    let two = without_cr(one);
    let text = without_cr(two);
    let tail = line.skip(text.len() as int);
    assert(line.take(text.len() as int) =~= text);
    if one.len() < line.len() {
        if two.len() < one.len() {
            if text.len() < two.len() {
                assert(tail =~= seq![CR, CR, LF]);
            } else {
                assert(tail =~= seq![CR, LF]);
            }
        } else {
            assert(tail =~= seq![LF]);
        }
    } else if two.len() < one.len() {
        if text.len() < two.len() {
            assert(tail =~= seq![CR, CR]);
        } else {
            assert(tail =~= seq![CR]);
        }
    } else {
        assert(tail =~= Seq::<u8>::empty());
    }
}

/// A colon stands before the path.
proof fn lemma_field_start(text: Seq<u8>, start: int)
    requires
        synctex_field(text) matches Some((found, _)) && found == start,
    ensures
        0 < start <= without_cr(text).len(),
        without_cr(text)[start - 1] == COLON,
{
    let input = SYNCTEX_INPUT.spec_bytes();
    let content = without_cr(text);
    let rest = content.skip(input.len() as int);
    lemma_find(rest, COLON);
    assert(rest[start - input.len() - 1] == content[start - 1]);
}

/// A text that begins as another does, up to its path, has its path in the same
/// place.
proof fn lemma_field_after(before: Seq<u8>, after: Seq<u8>, start: int)
    requires
        synctex_field(before) matches Some((found, _)) && found == start,
        start <= without_cr(after).len(),
        without_cr(after).take(start) == without_cr(before).take(start),
    ensures
        synctex_field(after) == Some((start, without_cr(after).len() as int)),
{
    lemma_field_start(before, start);
    let input = SYNCTEX_INPUT.spec_bytes();
    let old_content = without_cr(before);
    let content = without_cr(after);
    let old_rest = old_content.skip(input.len() as int);
    let rest = content.skip(input.len() as int);
    lemma_find(old_rest, COLON);
    let n = start - input.len() - 1;
    assert forall|i: int| 0 <= i < start implies #[trigger] content[i] == old_content[i] by {
        assert(content[i] == content.take(start)[i]);
        assert(old_content[i] == old_content.take(start)[i]);
    }
    assert(input.is_prefix_of(content)) by {
        assert(input =~= content.subrange(0, input.len() as int));
    }
    assert(rest[n] == content[start - 1]);
    assert forall|i: int| 0 <= i < n implies rest[i] != COLON by {
        assert(rest[i] == content[i + input.len()]);
        assert(old_rest[i] == old_content[i + input.len()]);
    }
    lemma_find_is(rest, COLON, n);
}

/// A record is found again after it has been rewritten, with the native form of
/// its path in the path's place; a record whose path has no native form is as
/// it was.
pub proof fn law_rewritten_record_names_the_native_path(
    line: Seq<u8>,
    native: Map<Seq<u8>, Seq<u8>>,
)
    requires
        fit_for_records(native),
    ensures
        synctex_field_path(without_cr(without_lf(rewritten_record(line, native))))
            == match synctex_field_path(without_cr(without_lf(line))) {
            Some(path) => Some(
                if native.contains_key(path) {
                    native[path]
                } else {
                    path
                },
            ),
            None => None,
        },
{
    let text = without_cr(without_lf(line));
    lemma_synctex_field(text);
    if let Some((start, end)) = synctex_field(text) {
        let path = text.subrange(start, end);
        if native.contains_key(path) {
            let form = native[path];
            let content = without_cr(text);
            lemma_ending_of_line(line);
            assert(end == content.len());
            let head = line.take(start);
            assert(head =~= content.take(start));
            let after = rewritten_record(line, native);
            let trimmed = head + form;
            assert(trimmed.take(start) =~= head);
            lemma_field_start(text, start);
            assert(trimmed.last() != CR && trimmed.last() != LF) by {
                if form.len() > 0 {
                    assert(form[form.len() - 1] == form.last());
                    assert(trimmed.last() == form.last());
                } else {
                    assert(trimmed =~= head);
                    assert(head.last() == content[start - 1]);
                }
            }
            lemma_field_after(text, trimmed, start);
            lemma_ending_is_trimmed(trimmed, line.skip(end));
            assert(after == trimmed + line.skip(end));
            let after_text = without_cr(without_lf(after));
            assert(synctex_field(after_text) == Some((start, trimmed.len() as int)));
            assert(after_text.subrange(start, trimmed.len() as int) =~= after_text.take(
                trimmed.len() as int,
            ).skip(start));
            assert(trimmed.skip(start) =~= form);
        }
    }
}

/// Rewriting keeps the lines of a SyncTeX file: line by line the file is as it
/// was, but for the paths that have a native form.
pub proof fn law_rewriting_goes_line_by_line(
    contents: Seq<u8>,
    native: Map<Seq<u8>, Seq<u8>>,
)
    requires
        without_line_feeds(native),
    ensures
        all_lines(rewritten_synctex(contents, native)) == all_lines(contents).map_values(
            record_rewriter(native),
        ),
{
    let lines = all_lines(contents);
    let after = lines.map_values(record_rewriter(native));
    lemma_lines_are_lines(contents);
    assert forall|i: int| 0 <= i < after.len() implies is_line(
        #[trigger] after[i],
        i + 1 < after.len(),
    ) by {
        assert(is_line(lines[i], i + 1 < lines.len()));
        lemma_rewritten_line(lines[i], native, i + 1 < lines.len());
    }
    lemma_lines_of_lines(after);
}

/// A SyncTeX file none of whose paths has a native form is as it was.
pub proof fn law_other_synctex_is_unchanged(contents: Seq<u8>, native: Map<Seq<u8>, Seq<u8>>)
    requires
        forall|i: int|
            0 <= i < all_lines(contents).len() ==> match synctex_field_path(
                without_cr(without_lf(#[trigger] all_lines(contents)[i])),
            ) {
                Some(path) => !native.contains_key(path),
                None => true,
            },
    ensures
        rewritten_synctex(contents, native) == contents,
{
    let lines = all_lines(contents);
    let after = lines.map_values(record_rewriter(native));
    assert forall|i: int| 0 <= i < lines.len() implies after[i] == lines[i] by {
        assert(after[i] == rewritten_record(lines[i], native));
    }
    assert(after =~= lines);
    law_lines_make_up_the_data(contents);
}

/// The pieces between line feeds are the lines without theirs, and nothing more
/// but an empty piece at the end.
proof fn lemma_pieces_are_lines(data: Seq<u8>)
    ensures
        forall|i: int|
            0 <= i < pieces(data).len() ==> (#[trigger] pieces(data)[i]).len() == 0 || exists|k: int|
                0 <= k < all_lines(data).len() && pieces(data)[i] == without_lf(
                    #[trigger] all_lines(data)[k],
                ),
        forall|k: int|
            0 <= k < all_lines(data).len() ==> pieces(data).contains(
                without_lf(#[trigger] all_lines(data)[k]),
            ),
    decreases data.len(),
{
    let n = find(data, LF);
    lemma_find(data, LF);
    let all = pieces(data);
    let lines = all_lines(data);
    if n < data.len() {
        let rest = data.skip(n + 1);
        lemma_pieces_are_lines(rest);
        assert(lines =~= seq![data.take(n + 1)] + all_lines(rest));
        assert(all =~= seq![data.take(n)] + pieces(rest));
        assert(without_lf(data.take(n + 1)) =~= data.take(n));
        assert forall|i: int| 0 <= i < all.len() implies (#[trigger] all[i]).len() == 0 || exists|
            k: int,
        |
            0 <= k < lines.len() && all[i] == without_lf(#[trigger] lines[k]) by {
            if i == 0 {
                assert(all[i] == without_lf(lines[0]));
            } else if all[i].len() > 0 {
                assert(all[i] == pieces(rest)[i - 1]);
                let k = choose|k: int|
                    0 <= k < all_lines(rest).len() && pieces(rest)[i - 1] == without_lf(
                        #[trigger] all_lines(rest)[k],
                    );
                assert(lines[k + 1] == all_lines(rest)[k]);
            }
        }
        assert forall|k: int| 0 <= k < lines.len() implies all.contains(
            without_lf(#[trigger] lines[k]),
        ) by {
            if k == 0 {
                assert(all[0] == without_lf(lines[0]));
            } else {
                assert(lines[k] == all_lines(rest)[k - 1]);
                let piece = without_lf(lines[k]);
                let i = choose|i: int| 0 <= i < pieces(rest).len() && pieces(rest)[i] == piece;
                assert(all[i + 1] == piece);
            }
        }
    } else if data.len() > 0 {
        assert(lines =~= seq![data]);
        assert(all =~= seq![data]);
        assert(data.last() != LF);
        assert(all[0] == without_lf(lines[0]));
    } else {
        assert(lines =~= Seq::<Seq<u8>>::empty());
        assert(all =~= seq![data]);
    }
}

/// Whether no line of a file ends in two carriage returns.
pub open spec fn single_carriage_returns(contents: Seq<u8>) -> bool {
    forall|i: int|
        0 <= i < all_lines(contents).len() ==> {
            let text = without_lf(#[trigger] all_lines(contents)[i]);
            without_cr(without_cr(text)) == without_cr(text)
        }
}

/// The path of a record that was rewritten begins as the native form does.
proof fn lemma_rewritten_path_begins(line: Seq<u8>, native: Map<Seq<u8>, Seq<u8>>)
    requires
        without_line_feeds(native),
        without_cr(without_cr(without_lf(line))) == without_cr(without_lf(line)),
        synctex_field_path(without_cr(without_lf(line))) is Some,
        native.contains_key(synctex_field_path(without_cr(without_lf(line)))->0),
    ensures
        ({
            let form = native[synctex_field_path(without_cr(without_lf(line)))->0];
            synctex_field_path(without_lf(rewritten_record(line, native))) matches Some(path)
                ==> path.len() > 0 ==> form.len() > 0 && path[0] == form[0]
        }),
{
    let text = without_cr(without_lf(line));
    lemma_synctex_field(text);
    let (start, end) = synctex_field(text)->0;
    let form = native[text.subrange(start, end)];
    let head = line.take(start);
    let tail = line.skip(end);
    let after = rewritten_record(line, native);
    let trimmed = head + form;
    lemma_ending_of_line(line);
    lemma_field_start(text, start);
    assert(head =~= text.take(start));
    assert(trimmed.last() != LF) by {
        if form.len() > 0 {
            assert(form[form.len() - 1] == form.last());
            assert(trimmed.last() == form.last());
        } else {
            assert(trimmed =~= head);
            assert(head.last() == text[start - 1]);
        }
    }
    let piece = without_lf(after);
    if tail == seq![LF] || tail == Seq::<u8>::empty() {
        assert(piece =~= trimmed);
    } else if tail == seq![CR] || tail == seq![CR, LF] {
        assert(piece =~= trimmed.push(CR));
    } else {
        assert(line =~= text + tail);
        assert(without_lf(line) =~= text.push(CR).push(CR));
    }
    let content = without_cr(piece);
    assert(head.last() == COLON) by {
        assert(head.last() == text[start - 1]);
    }
    assert(content.len() >= start) by {
        if form.len() == 0 && piece.len() == trimmed.len() {
            assert(piece =~= head);
        }
    }
    assert(content.take(start) =~= head);
    lemma_field_after(text, piece, start);
    let path = piece.subrange(start, content.len() as int);
    if path.len() > 0 {
        if form.len() == 0 {
            assert(trimmed =~= head);
            assert(content =~= head);
        }
        assert(path[0] == piece[start]);
        assert(piece[start] == trimmed[start]);
        assert(trimmed[start] == form[0]);
    }
}

proof fn lemma_path_without_carriage_return(piece: Seq<u8>)
    requires
        without_cr(without_cr(piece)) == without_cr(piece),
    ensures
        synctex_field_path(piece) == synctex_field_path(without_cr(piece)),
{
    lemma_synctex_field(piece);
    if let Some((start, end)) = synctex_field(piece) {
        assert(piece.subrange(start, end) =~= without_cr(piece).subrange(start, end));
    }
}

/// After a SyncTeX file has been rewritten, no record of it names a POSIX path,
/// where every path that was found in it has a native form.
pub proof fn law_no_posix_path_is_left(contents: Seq<u8>, native: Map<Seq<u8>, Seq<u8>>)
    requires
        without_line_feeds(native),
        single_carriage_returns(contents),
        forall|path: Seq<u8>| #[trigger]
            native.contains_key(path) ==> !posix_absolute(native[path]),
        forall|path: Seq<u8>| #[trigger]
            pieces(contents).filter_map(synctex_record()).contains(path) ==> native.contains_key(
                path,
            ),
    ensures
        pieces(rewritten_synctex(contents, native)).filter_map(synctex_record()).len() == 0,
{
    let after = rewritten_synctex(contents, native);
    let lines = all_lines(contents);
    law_rewriting_goes_line_by_line(contents, native);
    lemma_pieces_are_lines(contents);
    lemma_pieces_are_lines(after);
    let found = pieces(after).filter_map(synctex_record());
    if found.len() > 0 {
        let path = found[0];
        assert(found.contains(path));
        pieces(after).lemma_filter_map_contains(synctex_record(), path);
        let piece = choose|piece: Seq<u8>| #[trigger]
            pieces(after).contains(piece) && synctex_record()(piece) == Some(path);
        let i = choose|i: int| 0 <= i < pieces(after).len() && pieces(after)[i] == piece;
        lemma_synctex_field(piece);
        assert(piece.len() > 0);
        let k = choose|k: int|
            0 <= k < all_lines(after).len() && pieces(after)[i] == without_lf(
                #[trigger] all_lines(after)[k],
            );
        let line = lines[k];
        assert(all_lines(after)[k] == rewritten_record(line, native));
        let before = without_lf(line);
        assert(without_cr(without_cr(before)) == without_cr(before));
        lemma_path_without_carriage_return(before);
        assert(pieces(contents).contains(before));
        match synctex_field_path(before) {
            Some(found_path) if native.contains_key(found_path) => {
                lemma_rewritten_path_begins(line, native);
            },
            _ => {
                assert(piece == before);
                lemma_filter_map_holds(pieces(contents), synctex_record(), before);
            },
        }
    }
}

/// The pieces of some data are what stands between its line feeds.
pub proof fn law_pieces_stand_between_line_feeds(line: Seq<u8>, rest: Seq<u8>)
    requires
        forall|i: int| 0 <= i < line.len() ==> #[trigger] line[i] != 0x0a,
    ensures
        pieces(line) == seq![line],
        pieces(line + (seq![0x0au8] + rest)) == seq![line] + pieces(rest),
{
    let n = line.len() as int;
    lemma_find_is(line, LF, n);
    let data = line + (seq![0x0au8] + rest);
    assert forall|i: int| 0 <= i < n implies data[i] != LF by {
        assert(data[i] == line[i]);
    }
    assert(data[n] == LF);
    lemma_find_is(data, LF, n);
    assert(data.take(n) =~= line);
    assert(data.skip(n + 1) =~= rest);
}

/// A line without the carriage return at its end, where there is one.
proof fn lemma_carriage_return(text: Seq<u8>)
    ensures
        without_cr(text.push(0x0d)) == text,
        (text.len() == 0 || text.last() != 0x0d) ==> without_cr(text) == text,
        without_cr(text) == text || text == without_cr(text).push(0x0d),
{
    assert(text.push(0x0d).drop_last() =~= text);
    if without_cr(text) != text {
        assert(text =~= text.drop_last().push(0x0d));
    }
}

/// A record of the recorder names the path after `INPUT` or `OUTPUT`, all of it, up
/// to the carriage return if there is one; and nothing but such a record of an
/// absolute path names one.
pub proof fn law_recorder_records(path: Seq<u8>, line: Seq<u8>)
    requires
        path.len() > 0,
        path[0] == 0x2f,
        path.last() != 0x0d,
    ensures
        fls_path("INPUT ".spec_bytes() + path) == Some(path),
        fls_path(("INPUT ".spec_bytes() + path).push(0x0d)) == Some(path),
        fls_path("OUTPUT ".spec_bytes() + path) == Some(path),
        fls_path(("OUTPUT ".spec_bytes() + path).push(0x0d)) == Some(path),
        fls_path(line) matches Some(found) ==> found.len() > 0 && found[0] == 0x2f && (line
            == "INPUT ".spec_bytes() + found || line == ("INPUT ".spec_bytes() + found).push(0x0d)
            || line == "OUTPUT ".spec_bytes() + found || line == ("OUTPUT ".spec_bytes()
            + found).push(0x0d)),
{
    let input = "INPUT ".spec_bytes();
    let output = "OUTPUT ".spec_bytes();
    reveal_strlit("INPUT ");
    reveal_strlit("OUTPUT ");
    assert("INPUT ".is_ascii());
    assert("OUTPUT ".is_ascii());
    is_ascii_spec_bytes("INPUT ");
    is_ascii_spec_bytes("OUTPUT ");
    let read = input + path;
    let wrote = output + path;
    assert(read.last() == path.last());
    assert(wrote.last() == path.last());
    lemma_carriage_return(read);
    lemma_carriage_return(wrote);
    assert(input =~= read.subrange(0, input.len() as int));
    assert(read.skip(input.len() as int) =~= path);
    assert(output =~= wrote.subrange(0, output.len() as int));
    assert(wrote.skip(output.len() as int) =~= path);
    assert(!input.is_prefix_of(wrote)) by {
        if input.is_prefix_of(wrote) {
            assert(wrote.subrange(0, input.len() as int)[0] == wrote[0]);
            assert(wrote[0] == output[0]);
        }
    }
    lemma_carriage_return(line);
    let text = without_cr(line);
    if let Some(found) = fls_path(line) {
        if input.is_prefix_of(text) {
            assert(text =~= input + found);
        } else {
            assert(text =~= output + found);
        }
    }
}

/// The paths of a recorder file come record by record, in their order: an `INPUT` or
/// `OUTPUT` record of an absolute path gives that path, and a line that names none
/// gives nothing.
pub proof fn law_recorder_files_are_read_line_by_line(path: Seq<u8>, line: Seq<u8>, rest: Seq<u8>)
    requires
        path.len() > 0,
        path[0] == 0x2f,
        path.last() != 0x0d,
        forall|i: int| 0 <= i < path.len() ==> #[trigger] path[i] != 0x0a,
        forall|i: int| 0 <= i < line.len() ==> #[trigger] line[i] != 0x0a,
        !"INPUT ".spec_bytes().is_prefix_of(line),
        !"OUTPUT ".spec_bytes().is_prefix_of(line),
    ensures
        ({
            let lf = seq![0x0au8];
            let found = pieces(rest).filter_map(fls_record());
            &&& pieces("INPUT ".spec_bytes() + path + (lf + rest)).filter_map(fls_record())
                == seq![path] + found
            &&& pieces("OUTPUT ".spec_bytes() + path + (lf + rest)).filter_map(fls_record())
                == seq![path] + found
            &&& pieces(line + (lf + rest)).filter_map(fls_record()) == found
        }),
{
    law_recorder_records(path, line);
    reveal_strlit("INPUT ");
    reveal_strlit("OUTPUT ");
    assert("INPUT ".is_ascii());
    assert("OUTPUT ".is_ascii());
    is_ascii_spec_bytes("INPUT ");
    is_ascii_spec_bytes("OUTPUT ");
    let read = "INPUT ".spec_bytes() + path;
    let wrote = "OUTPUT ".spec_bytes() + path;
    assert forall|i: int| 0 <= i < read.len() implies #[trigger] read[i] != 0x0a by {
        if i >= 6 {
            assert(read[i] == path[i - 6]);
        }
    }
    assert forall|i: int| 0 <= i < wrote.len() implies #[trigger] wrote[i] != 0x0a by {
        if i >= 7 {
            assert(wrote[i] == path[i - 7]);
        }
    }
    lemma_one_more_piece(read, rest, fls_record());
    lemma_one_more_piece(wrote, rest, fls_record());
    lemma_one_more_piece(line, rest, fls_record());
    lemma_carriage_return(line);
    if let Some(found) = fls_path(line) {
        let text = without_cr(line);
        if "INPUT ".spec_bytes().is_prefix_of(text) {
            assert("INPUT ".spec_bytes() =~= line.subrange(0, 6)) by {
                assert(text.subrange(0, 6) =~= line.subrange(0, 6));
            }
        } else {
            assert("OUTPUT ".spec_bytes() =~= line.subrange(0, 7)) by {
                assert(text.subrange(0, 7) =~= line.subrange(0, 7));
            }
        }
    }
}

/// What the records of a file give begins with what its first line gives.
proof fn lemma_one_more_piece(
    line: Seq<u8>,
    rest: Seq<u8>,
    record: spec_fn(Seq<u8>) -> Option<Seq<u8>>,
)
    requires
        forall|i: int| 0 <= i < line.len() ==> #[trigger] line[i] != 0x0a,
    ensures
        pieces(line + (seq![0x0au8] + rest)).filter_map(record) == match record(line) {
            Some(path) => seq![path] + pieces(rest).filter_map(record),
            None => pieces(rest).filter_map(record),
        },
{
    law_pieces_stand_between_line_feeds(line, rest);
    let all = pieces(line + (seq![0x0au8] + rest));
    lemma_filter_map_first(all, record);
    assert(all[0] == line);
    assert(all.drop_first() =~= pieces(rest));
}

/// A record of a SyncTeX file: `Input:`, a tag, a colon and a path.
pub open spec fn input_record(tag: Seq<u8>, path: Seq<u8>) -> Seq<u8> {
    "Input:".spec_bytes() + tag + seq![0x3au8] + path
}

proof fn lemma_input_record(tag: Seq<u8>, path: Seq<u8>)
    requires
        forall|i: int| 0 <= i < tag.len() ==> #[trigger] tag[i] != 0x3a,
        path.len() > 0 ==> path.last() != 0x0d,
    ensures
        ({
            let line = input_record(tag, path);
            let start = tag.len() as int + 7;
            &&& "Input:".spec_bytes().len() == 6
            &&& line.len() == start + path.len()
            &&& line.last() != 0x0d
            &&& synctex_field(line) == Some((start, start + path.len()))
            &&& line.subrange(start, start + path.len()) == path
            &&& synctex_field(line.push(0x0d)) == Some((start, start + path.len()))
            &&& line.push(0x0d).subrange(start, start + path.len()) == path
            &&& line[0] == 0x49
        }),
{
    let input = "Input:".spec_bytes();
    reveal_strlit("Input:");
    assert("Input:".is_ascii());
    is_ascii_spec_bytes("Input:");
    let line = input_record(tag, path);
    let start = tag.len() as int + 7;
    assert(line.last() != 0x0d) by {
        if path.len() > 0 {
            assert(line.last() == path.last());
        } else {
            assert(line.last() == 0x3a);
        }
    }
    lemma_carriage_return(line);
    assert(input =~= line.subrange(0, 6));
    let rest = line.skip(6);
    assert forall|i: int| 0 <= i < tag.len() implies rest[i] != COLON by {
        assert(rest[i] == tag[i]);
    }
    assert(rest[tag.len() as int] == COLON);
    lemma_find_is(rest, COLON, tag.len() as int);
    assert(line.subrange(start, start + path.len()) =~= path);
    assert(line.push(0x0d).subrange(start, start + path.len()) =~= path);
    assert(line[0] == input[0]);
}

/// The path of a SyncTeX record is all that stands after the colon after its tag,
/// colons and all, up to the carriage return if there is one; and only a line that
/// begins with `Input:` and has a colon after that has a path.
pub proof fn law_synctex_records(tag: Seq<u8>, path: Seq<u8>, line: Seq<u8>)
    requires
        forall|i: int| 0 <= i < tag.len() ==> #[trigger] tag[i] != 0x3a,
        path.len() > 0 ==> path.last() != 0x0d,
    ensures
        synctex_field_path(input_record(tag, path)) == Some(path),
        synctex_field_path(input_record(tag, path).push(0x0d)) == Some(path),
        synctex_field_path(line) is Some ==> "Input:".spec_bytes().is_prefix_of(line) && exists|
            i: int,
        |
            6 <= i < line.len() && #[trigger] line[i] == 0x3a,
{
    lemma_input_record(tag, path);
    if synctex_field_path(line) is Some {
        let text = without_cr(line);
        let rest = text.skip(6);
        reveal_strlit("Input:");
        assert("Input:".is_ascii());
        is_ascii_spec_bytes("Input:");
        lemma_find(rest, COLON);
        let at = find(rest, COLON);
        assert(line[at + 6] == rest[at]);
        assert(line.subrange(0, 6) =~= text.subrange(0, 6));
    }
}

/// The paths of a SyncTeX file come record by record, in their order: a record of an
/// absolute path gives that path, whatever its tag; a record of another path, or a
/// line that is no such record, gives nothing.
pub proof fn law_synctex_files_are_read_line_by_line(
    tag: Seq<u8>,
    path: Seq<u8>,
    line: Seq<u8>,
    rest: Seq<u8>,
)
    requires
        forall|i: int| 0 <= i < tag.len() ==> #[trigger] tag[i] != 0x3a && tag[i] != 0x0a,
        path.len() > 0 ==> path.last() != 0x0d,
        forall|i: int| 0 <= i < path.len() ==> #[trigger] path[i] != 0x0a,
        forall|i: int| 0 <= i < line.len() ==> #[trigger] line[i] != 0x0a,
        !"Input:".spec_bytes().is_prefix_of(line),
    ensures
        ({
            let lf = seq![0x0au8];
            let crlf = seq![0x0du8, 0x0au8];
            let found = pieces(rest).filter_map(synctex_record());
            let more = if path.len() > 0 && path[0] == 0x2f {
                seq![path] + found
            } else {
                found
            };
            &&& pieces(input_record(tag, path) + (lf + rest)).filter_map(synctex_record()) == more
            &&& pieces(input_record(tag, path) + (crlf + rest)).filter_map(synctex_record())
                == more
            &&& pieces(line + (lf + rest)).filter_map(synctex_record()) == found
        }),
{
    law_synctex_records(tag, path, line);
    lemma_input_record(tag, path);
    let record = input_record(tag, path);
    lemma_record_has_no_line_feed(tag, path);
    lemma_one_more_piece(record, rest, synctex_record());
    let ended = record.push(0x0d);
    assert forall|i: int| 0 <= i < ended.len() implies #[trigger] ended[i] != 0x0a by {
        if i < record.len() {
            assert(ended[i] == record[i]);
        }
    }
    lemma_one_more_piece(ended, rest, synctex_record());
    assert(record + (seq![0x0du8, 0x0au8] + rest) =~= ended + (seq![0x0au8] + rest));
    lemma_one_more_piece(line, rest, synctex_record());
}

proof fn lemma_record_has_no_line_feed(tag: Seq<u8>, path: Seq<u8>)
    requires
        forall|i: int| 0 <= i < tag.len() ==> #[trigger] tag[i] != 0x3a && tag[i] != 0x0a,
        forall|i: int| 0 <= i < path.len() ==> #[trigger] path[i] != 0x0a,
    ensures
        forall|i: int|
            0 <= i < input_record(tag, path).len() ==> #[trigger] input_record(tag, path)[i] != 0x0a,
{
    let record = input_record(tag, path);
    reveal_strlit("Input:");
    assert("Input:".is_ascii());
    is_ascii_spec_bytes("Input:");
    assert forall|i: int| 0 <= i < record.len() implies #[trigger] record[i] != 0x0a by {
        if i < 6 {
            assert(record[i] == "Input:".spec_bytes()[i]);
        } else if i < 6 + tag.len() {
            assert(record[i] == tag[i - 6]);
        } else if i > 6 + tag.len() {
            assert(record[i] == path[i - 7 - tag.len()]);
        }
    }
}

/// The lines of some data begin with its first line.
proof fn lemma_one_more_line(line: Seq<u8>, rest: Seq<u8>)
    requires
        forall|i: int| 0 <= i < line.len() ==> #[trigger] line[i] != 0x0a,
    ensures
        all_lines(line + (seq![0x0au8] + rest)) == seq![line.push(0x0a)] + all_lines(rest),
{
    let n = line.len() as int;
    let data = line + (seq![0x0au8] + rest);
    assert forall|i: int| 0 <= i < n implies data[i] != LF by {
        assert(data[i] == line[i]);
    }
    assert(data[n] == LF);
    lemma_find_is(data, LF, n);
    assert(data.take(n + 1) =~= line.push(0x0a));
    assert(data.skip(n + 1) =~= rest);
    assert(all_lines(data) =~= seq![line.push(0x0a)] + all_lines(rest));
}

proof fn lemma_rewritten_first(line: Seq<u8>, rest: Seq<u8>, native: Map<Seq<u8>, Seq<u8>>)
    requires
        forall|i: int| 0 <= i < line.len() ==> #[trigger] line[i] != 0x0a,
    ensures
        rewritten_synctex(line + (seq![0x0au8] + rest), native) == rewritten_record(
            line.push(0x0a),
            native,
        ) + rewritten_synctex(rest, native),
{
    lemma_one_more_line(line, rest);
    let all = all_lines(line + (seq![0x0au8] + rest));
    let f = record_rewriter(native);
    let mapped = all.map_values(f);
    assert(mapped.first() == rewritten_record(line.push(0x0a), native));
    assert(mapped.drop_first() =~= all_lines(rest).map_values(f));
}

/// A record with what may end it is rewritten in its path only.
proof fn lemma_record_rewritten(
    tag: Seq<u8>,
    path: Seq<u8>,
    ending: Seq<u8>,
    native: Map<Seq<u8>, Seq<u8>>,
)
    requires
        forall|i: int| 0 <= i < tag.len() ==> #[trigger] tag[i] != 0x3a && tag[i] != 0x0a,
        path.len() > 0 ==> path.last() != 0x0d,
        forall|i: int| 0 <= i < path.len() ==> #[trigger] path[i] != 0x0a,
        ending == Seq::<u8>::empty() || ending == seq![0x0au8] || ending == seq![0x0du8, 0x0au8],
    ensures
        rewritten_record(input_record(tag, path) + ending, native) == input_record(
            tag,
            if native.contains_key(path) {
                native[path]
            } else {
                path
            },
        ) + ending,
{
    lemma_input_record(tag, path);
    lemma_record_has_no_line_feed(tag, path);
    let record = input_record(tag, path);
    let line = record + ending;
    let start = tag.len() as int + 7;
    let end = start + path.len();
    assert(record.last() != LF) by {
        assert(record[record.len() - 1] != 0x0a);
    }
    lemma_carriage_return(record);
    if ending == Seq::<u8>::empty() {
        assert(line =~= record);
    } else if ending == seq![0x0au8] {
        assert(line.drop_last() =~= record);
    } else {
        assert(line.drop_last() =~= record.push(0x0d));
    }
    assert(without_cr(without_lf(line)) == record);
    if native.contains_key(path) {
        assert(line.take(start) =~= "Input:".spec_bytes() + tag + seq![0x3au8]);
        assert(line.skip(end) =~= ending);
    }
}

/// A file of one record is rewritten in its path only, and an empty file stays empty.
proof fn lemma_single_record_rewritten(
    tag: Seq<u8>,
    path: Seq<u8>,
    native: Map<Seq<u8>, Seq<u8>>,
)
    requires
        forall|i: int| 0 <= i < tag.len() ==> #[trigger] tag[i] != 0x3a && tag[i] != 0x0a,
        path.len() > 0 ==> path.last() != 0x0d,
        forall|i: int| 0 <= i < path.len() ==> #[trigger] path[i] != 0x0a,
    ensures
        rewritten_synctex(Seq::empty(), native) == Seq::<u8>::empty(),
        rewritten_synctex(input_record(tag, path), native) == rewritten_record(
            input_record(tag, path),
            native,
        ),
{
    lemma_input_record(tag, path);
    lemma_record_has_no_line_feed(tag, path);
    let record = input_record(tag, path);
    let f = record_rewriter(native);
    lemma_find_is(record, LF, record.len() as int);
    assert(all_lines(record) =~= seq![record]);
    let wanted = rewritten_record(record, native);
    assert(seq![record].map_values(f) =~= seq![wanted]);
    reveal_with_fuel(Seq::flatten, 2);
    assert(seq![wanted].drop_first() =~= Seq::<Seq<u8>>::empty());
    assert(rewritten_synctex(record, native) =~= wanted);
    let nothing = Seq::<u8>::empty();
    lemma_find(nothing, LF);
    assert(all_lines(nothing) =~= Seq::<Seq<u8>>::empty());
    assert(all_lines(nothing).map_values(f) =~= Seq::<Seq<u8>>::empty());
    assert(rewritten_synctex(nothing, native) =~= nothing);
}

/// A line that does not begin as a record does stays as it is.
proof fn lemma_other_line_rewritten(line: Seq<u8>, native: Map<Seq<u8>, Seq<u8>>)
    requires
        forall|i: int| 0 <= i < line.len() ==> #[trigger] line[i] != 0x0a,
        !"Input:".spec_bytes().is_prefix_of(line),
    ensures
        rewritten_record(line.push(0x0a), native) == line.push(0x0a),
{
    let other = line.push(0x0a);
    assert(other.drop_last() =~= line);
    let text = without_cr(line);
    lemma_carriage_return(line);
    law_synctex_records(Seq::empty(), Seq::empty(), text);
    if synctex_field(text) is Some {
        assert(synctex_field_path(text) is Some);
        reveal_strlit("Input:");
        assert("Input:".is_ascii());
        is_ascii_spec_bytes("Input:");
        assert(line.subrange(0, 6) =~= text.subrange(0, 6));
    }
}

/// What comes after a line and its ending is rewritten on its own.
proof fn lemma_file_rewritten_after(
    record: Seq<u8>,
    wanted: Seq<u8>,
    ending: Seq<u8>,
    rest: Seq<u8>,
    native: Map<Seq<u8>, Seq<u8>>,
)
    requires
        forall|i: int| 0 <= i < record.len() ==> #[trigger] record[i] != 0x0a,
        ending == seq![0x0au8] || ending == seq![0x0du8, 0x0au8],
        rewritten_record(record + ending, native) == wanted + ending,
    ensures
        rewritten_synctex(record + (ending + rest), native) == wanted + (ending
            + rewritten_synctex(rest, native)),
{
    let line = if ending == seq![0x0au8] {
        record
    } else {
        record.push(0x0d)
    };
    assert forall|i: int| 0 <= i < line.len() implies #[trigger] line[i] != 0x0a by {
        if i < record.len() {
            assert(line[i] == record[i]);
        }
    }
    lemma_rewritten_first(line, rest, native);
    assert(line.push(0x0a) =~= record + ending);
    assert(record + (ending + rest) =~= line + (seq![0x0au8] + rest));
    let later = rewritten_synctex(rest, native);
    assert((wanted + ending) + later =~= wanted + (ending + later));
}

/// A SyncTeX file is rewritten line by line, with its line endings. In a record the
/// path gives way to its native form, if it has one, and nothing else of it changes;
/// a line that is no record stays as it is.
pub proof fn law_synctex_files_are_rewritten_line_by_line(
    tag: Seq<u8>,
    path: Seq<u8>,
    line: Seq<u8>,
    rest: Seq<u8>,
    native: Map<Seq<u8>, Seq<u8>>,
)
    requires
        forall|i: int| 0 <= i < tag.len() ==> #[trigger] tag[i] != 0x3a && tag[i] != 0x0a,
        path.len() > 0 ==> path.last() != 0x0d,
        forall|i: int| 0 <= i < path.len() ==> #[trigger] path[i] != 0x0a,
        forall|i: int| 0 <= i < line.len() ==> #[trigger] line[i] != 0x0a,
        !"Input:".spec_bytes().is_prefix_of(line),
    ensures
        ({
            let lf = seq![0x0au8];
            let crlf = seq![0x0du8, 0x0au8];
            let form = if native.contains_key(path) {
                native[path]
            } else {
                path
            };
            let later = rewritten_synctex(rest, native);
            &&& rewritten_synctex(Seq::empty(), native) == Seq::<u8>::empty()
            &&& rewritten_synctex(input_record(tag, path), native) == input_record(tag, form)
            &&& rewritten_synctex(input_record(tag, path) + (lf + rest), native) == input_record(
                tag,
                form,
            ) + (lf + later)
            &&& rewritten_synctex(input_record(tag, path) + (crlf + rest), native) == input_record(
                tag,
                form,
            ) + (crlf + later)
            &&& rewritten_synctex(line + (lf + rest), native) == line + (lf + later)
        }),
{
    let record = input_record(tag, path);
    lemma_single_record_rewritten(tag, path, native);
    assert(rewritten_synctex(record, native) == input_record(
        tag,
        if native.contains_key(path) {
            native[path]
        } else {
            path
        },
    )) by {
        lemma_record_rewritten(tag, path, Seq::empty(), native);
        assert(record + Seq::<u8>::empty() =~= record);
    }
    let wanted = input_record(
        tag,
        if native.contains_key(path) {
            native[path]
        } else {
            path
        },
    );
    lemma_record_has_no_line_feed(tag, path);
    lemma_record_rewritten(tag, path, seq![0x0au8], native);
    lemma_file_rewritten_after(record, wanted, seq![0x0au8], rest, native);
    lemma_record_rewritten(tag, path, seq![0x0du8, 0x0au8], native);
    lemma_file_rewritten_after(record, wanted, seq![0x0du8, 0x0au8], rest, native);
    assert(rewritten_synctex(line + (seq![0x0au8] + rest), native) == line + (seq![0x0au8]
        + rewritten_synctex(rest, native))) by {
        lemma_rewritten_first(line, rest, native);
        lemma_other_line_rewritten(line, native);
        let later = rewritten_synctex(rest, native);
        assert(line.push(0x0a) + later =~= line + (seq![0x0au8] + later));
    }
}

/// Whether a text names an absolute POSIX path in a record of its own: it begins with
/// `Input:`, and a slash stands after the first colon after that.
pub open spec fn names_posix_path(line: Seq<u8>) -> bool {
    "Input:".spec_bytes().is_prefix_of(line) && exists|i: int|
        {
            &&& 6 <= i < line.len() - 1
            &&& #[trigger] line[i] == 0x3a
            &&& line[i + 1] == 0x2f
            &&& forall|j: int| 6 <= j < i ==> line[j] != 0x3a
        }
}

/// A line that names an absolute POSIX path is one that the path is taken from.
pub proof fn lemma_posix_path_is_taken(line: Seq<u8>)
    requires
        names_posix_path(line),
    ensures
        synctex_record()(line) is Some,
{
    let i = choose|i: int|
        {
            &&& 6 <= i < line.len() - 1
            &&& #[trigger] line[i] == 0x3a
            &&& line[i + 1] == 0x2f
            &&& forall|j: int| 6 <= j < i ==> line[j] != 0x3a
        };
    reveal_strlit("Input:");
    assert("Input:".is_ascii());
    is_ascii_spec_bytes("Input:");
    let text = without_cr(line);
    assert(i + 1 < text.len()) by {
        if text.len() < line.len() && i + 2 == line.len() {
            assert(line.last() == line[i + 1]);
        }
    }
    assert("Input:".spec_bytes() =~= text.subrange(0, 6)) by {
        assert(text.subrange(0, 6) =~= line.subrange(0, 6));
    }
    let rest = text.skip(6);
    assert forall|j: int| 0 <= j < i - 6 implies rest[j] != COLON by {
        assert(rest[j] == line[j + 6]);
    }
    assert(rest[i - 6] == line[i]);
    lemma_find_is(rest, COLON, i - 6);
    let path = line.subrange(i + 1, text.len() as int);
    assert(path[0] == line[i + 1]);
}

} // verus!
