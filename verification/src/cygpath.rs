//! Talking to `cygpath`: what goes into one process that converts a batch of
//! paths, and what its output says.
use vstd::prelude::*;
use vstd::string::*;
use crate::bytes::{append, lemma_find_is, views, CR, LF};
use crate::decimal::{decimal, push_decimal};
use crate::lists::{lemma_filter_map_empty, lemma_filter_map_first};
use crate::records::{
    law_pieces_stand_between_line_feeds, pieces, slice_views, split_lines, trim_cr, without_cr,
};
use crate::text::string_views;

verus! {

/// A batch of paths, one to a line.
pub open spec fn one_to_a_line(paths: Seq<Seq<u8>>) -> Seq<u8>
    decreases paths.len(),
{
    if paths.len() == 0 {
        Seq::empty()
    } else {
        one_to_a_line(paths.drop_last()) + paths.last().push(LF)
    }
}

/// The mode in which cygpath gives POSIX paths.
pub const TO_POSIX: &'static str = "-u";

/// The mode in which cygpath gives native paths, with slashes in them.
pub const TO_NATIVE: &'static str = "-m";

/// A cygpath process that is to be run.
pub struct CygpathRun {
    pub arguments: Vec<String>,
    /// What it is to read.
    pub input: Vec<u8>,
    /// How many paths it is to give.
    pub expected: usize,
}

/// A cygpath process, as values.
#[verifier::ext_equal]
pub struct CygpathState {
    pub arguments: Seq<Seq<char>>,
    pub input: Seq<u8>,
    pub expected: int,
}

impl View for CygpathRun {
    type V = CygpathState;

    open spec fn view(&self) -> CygpathState {
        CygpathState {
            arguments: string_views(self.arguments@),
            input: self.input@,
            expected: self.expected as int,
        }
    }
}

/// A cygpath process, if there is one, as values.
pub open spec fn run_view(run: Option<CygpathRun>) -> Option<CygpathState> {
    match run {
        Some(run) => Some(run@),
        None => None,
    }
}

/// The one cygpath process that converts a batch of paths, which it reads from its
/// standard input; none where there are no paths.
pub open spec fn conversion(mode: Seq<char>, paths: Seq<Seq<u8>>) -> Option<CygpathState> {
    if paths.len() == 0 {
        None
    } else {
        Some(
            CygpathState {
                arguments: seq![mode, "-f"@, "-"@],
                input: one_to_a_line(paths),
                expected: paths.len() as int,
            },
        )
    }
}

/// The one cygpath process that converts a batch of newline-free paths. For an
/// empty batch none is started.
pub fn bulk_cygpath(mode: &str, paths: &[Vec<u8>]) -> (run: Option<CygpathRun>)
    ensures
        run_view(run) == conversion(mode@, views(paths@)),
{
    if paths.len() == 0 {
        return None;
    }
    let ghost all = views(paths@);
    let mut text: Vec<u8> = Vec::new();
    let mut i: usize = 0;
    assert(all.take(0) =~= Seq::<Seq<u8>>::empty());
    while i < paths.len()
        invariant
            i <= paths@.len(),
            all == views(paths@),
            text@ == one_to_a_line(all.take(i as int)),
        decreases paths@.len() - i,
    {
        let ghost before = text@;
        append(&mut text, paths[i].as_slice());
        text.push(LF);
        proof {
            assert(all.take(i + 1).drop_last() =~= all.take(i as int));
            assert(all.take(i + 1).last() == paths@[i as int]@);
            assert(text@ =~= before + paths@[i as int]@.push(LF));
        }
        i += 1;
    }
    assert(all.take(i as int) =~= all);
    let arguments: Vec<String> = vec![mode.to_owned(), "-f".to_owned(), "-".to_owned()];
    assert(string_views(arguments@) =~= seq![mode@, "-f"@, "-"@]);
    Some(CygpathRun { arguments, input: text, expected: paths.len() })
}

/// Why a batch could not be converted.
#[derive(Debug, PartialEq, Eq)]
pub enum CygpathError {
    /// The process did not succeed.
    Failed,
    /// The process did not give one path for each.
    Count { returned: usize, expected: usize },
}

/// The text of an error, in UTF-8, given what the process said of it.
pub open spec fn cygpath_error_text(error: CygpathError, stderr: Seq<u8>) -> Seq<u8> {
    match error {
        CygpathError::Failed => "cygpath failed: ".spec_bytes() + stderr,
        CygpathError::Count { returned, expected } => "cygpath returned ".spec_bytes() + decimal(
            returned as nat,
        ) + " paths for ".spec_bytes() + decimal(expected as nat) + " inputs".spec_bytes(),
    }
}

impl CygpathError {
    /// The text of the error, in UTF-8, given what the process said of it.
    pub fn message(&self, stderr: &str) -> (r: Vec<u8>)
        ensures
            r@ == cygpath_error_text(*self, stderr.spec_bytes()),
    {
        match self {
            CygpathError::Failed => {
                let mut r: Vec<u8> = "cygpath failed: ".as_bytes_vec();
                append(&mut r, stderr.as_bytes());
                r
            },
            CygpathError::Count { returned, expected } => {
                let mut r: Vec<u8> = "cygpath returned ".as_bytes_vec();
                push_decimal(&mut r, *returned as u64);
                append(&mut r, " paths for ".as_bytes());
                push_decimal(&mut r, *expected as u64);
                append(&mut r, " inputs".as_bytes());
                r
            },
        }
    }
}

/// The path in a line of cygpath's output, as a function of the line: an empty
/// line is none.
pub open spec fn output_record() -> spec_fn(Seq<u8>) -> Option<Seq<u8>> {
    |line: Seq<u8>|
        if line.len() == 0 {
            None
        } else {
            Some(without_cr(line))
        }
}

/// The paths in cygpath's output.
pub open spec fn output_paths(stdout: Seq<u8>) -> Seq<Seq<u8>> {
    pieces(stdout).filter_map(output_record())
}

/// Reads the output of a process that converted a batch of `expected` paths.
pub fn bulk_cygpath_output(success: bool, stdout: &[u8], expected: usize) -> (r: Result<
    Vec<Vec<u8>>,
    CygpathError,
>)
    ensures
        match r {
            Ok(paths) => success && views(paths@) == output_paths(stdout@) && paths@.len()
                == expected,
            Err(CygpathError::Failed) => !success,
            Err(CygpathError::Count { returned, expected: wanted }) => success && returned
                == output_paths(stdout@).len() && wanted == expected && returned != expected,
        },
{
    if !success {
        return Err(CygpathError::Failed);
    }
    let lines: Vec<&[u8]> = split_lines(stdout);
    let ghost all = slice_views(lines@);
    let mut converted: Vec<Vec<u8>> = Vec::new();
    let mut i: usize = 0;
    assert(all.take(0).filter_map(output_record()) =~= Seq::<Seq<u8>>::empty()) by {
        reveal(Seq::filter_map);
    }
    assert(views(converted@) =~= Seq::<Seq<u8>>::empty());
    while i < lines.len()
        invariant
            i <= lines@.len(),
            all == slice_views(lines@),
            views(converted@) == all.take(i as int).filter_map(output_record()),
        decreases lines@.len() - i,
    {
        proof {
            all.lemma_filter_map_take_succ(output_record(), i as int);
            assert(all[i as int] == lines@[i as int]@);
        }
        let ghost before = views(converted@);
        if lines[i].len() > 0 {
            let path: Vec<u8> = vstd::slice::slice_to_vec(trim_cr(lines[i]));
            converted.push(path);
            assert(views(converted@) =~= before.push(path@));
            assert(before + seq![path@] =~= before.push(path@));
        } else {
            assert(before + Seq::<Seq<u8>>::empty() =~= before);
        }
        i += 1;
    }
    assert(all.take(i as int) =~= all);
    let returned: usize = converted.len();
    assert(views(converted@).len() == returned);
    if returned != expected {
        Err(CygpathError::Count { returned, expected })
    } else {
        Ok(converted)
    }
}

/// A path that can stand on a line of its own: it is not empty, holds no line
/// feed and does not end in a carriage return.
pub open spec fn fits_on_a_line(path: Seq<u8>) -> bool {
    path.len() > 0 && !path.contains(LF) && path.last() != CR
}

proof fn lemma_pieces_of_line(line: Seq<u8>, rest: Seq<u8>)
    requires
        !line.contains(LF),
    ensures
        pieces(line.push(LF) + rest) == seq![line] + pieces(rest),
{
    let data = line.push(LF) + rest;
    assert forall|i: int| 0 <= i < line.len() implies data[i] != LF by {
        assert(data[i] == line[i]);
    }
    lemma_find_is(data, LF, line.len() as int);
    assert(data.take(line.len() as int) =~= line);
    assert(data.skip(line.len() as int + 1) =~= rest);
}

proof fn lemma_pieces_of_lines(paths: Seq<Seq<u8>>, rest: Seq<u8>)
    requires
        forall|i: int| 0 <= i < paths.len() ==> !(#[trigger] paths[i]).contains(LF),
    ensures
        pieces(one_to_a_line(paths) + rest) == paths + pieces(rest),
    decreases paths.len(),
{
    if paths.len() == 0 {
        assert(one_to_a_line(paths) + rest =~= rest);
        assert(paths + pieces(rest) =~= pieces(rest));
    } else {
        let fewer = paths.drop_last();
        let last = paths.last();
        assert(!paths[paths.len() - 1].contains(LF));
        assert forall|i: int| 0 <= i < fewer.len() implies !(#[trigger] fewer[i]).contains(
            LF,
        ) by {
            assert(fewer[i] == paths[i]);
        }
        lemma_pieces_of_lines(fewer, last.push(LF) + rest);
        lemma_pieces_of_line(last, rest);
        assert(one_to_a_line(paths) + rest =~= one_to_a_line(fewer) + (last.push(LF) + rest));
        assert(fewer + (seq![last] + pieces(rest)) =~= paths + pieces(rest));
    }
}

/// What stands one to a line is read back as it was written, in order, with
/// line feeds at the ends of the lines.
pub proof fn law_lines_are_read_back(paths: Seq<Seq<u8>>)
    requires
        forall|i: int| 0 <= i < paths.len() ==> fits_on_a_line(#[trigger] paths[i]),
    ensures
        output_paths(one_to_a_line(paths)) == paths,
{
    let none = Seq::<u8>::empty();
    assert forall|i: int| 0 <= i < paths.len() implies !(#[trigger] paths[i]).contains(LF) by {
        assert(fits_on_a_line(paths[i]));
    }
    lemma_pieces_of_lines(paths, none);
    assert(one_to_a_line(paths) + none =~= one_to_a_line(paths));
    assert(pieces(none) =~= seq![none]);
    assert(pieces(one_to_a_line(paths)) =~= paths.push(none));
    lemma_records_are_paths(paths);
    let all = paths.push(none);
    assert(all.take(paths.len() as int) =~= paths);
    all.lemma_filter_map_take_succ(output_record(), paths.len() as int);
    assert(all.take(paths.len() as int + 1) =~= all);
    assert(paths + Seq::<Seq<u8>>::empty() =~= paths);
}

proof fn lemma_records_are_paths(paths: Seq<Seq<u8>>)
    requires
        forall|i: int| 0 <= i < paths.len() ==> fits_on_a_line(#[trigger] paths[i]),
    ensures
        paths.filter_map(output_record()) == paths,
    decreases paths.len(),
{
    if paths.len() == 0 {
        reveal(Seq::filter_map);
        assert(paths.filter_map(output_record()) =~= paths);
    } else {
        let fewer = paths.drop_last();
        let last = paths.len() - 1;
        assert forall|i: int| 0 <= i < fewer.len() implies fits_on_a_line(
            #[trigger] fewer[i],
        ) by {
            assert(fewer[i] == paths[i]);
        }
        lemma_records_are_paths(fewer);
        assert(fits_on_a_line(paths[last]));
        paths.lemma_filter_map_take_succ(output_record(), last);
        assert(paths.take(last) =~= fewer);
        assert(paths.take(last + 1) =~= paths);
        assert(fewer + seq![paths[last]] =~= paths);
    }
}

/// Each path of a batch goes in with a line feed after it, in order, and one process
/// converts all of them: it is told the mode, and to read the paths from its standard
/// input.
pub proof fn law_paths_go_in_one_to_a_line(mode: Seq<char>, paths: Seq<Seq<u8>>, path: Seq<u8>)
    ensures
        one_to_a_line(Seq::empty()) == Seq::<u8>::empty(),
        one_to_a_line(paths.push(path)) == one_to_a_line(paths) + path + seq![0x0au8],
        conversion(mode, Seq::empty()) is None,
        conversion(mode, paths.push(path)) matches Some(run) && run.arguments.len() == 3
            && run.arguments[0] == mode && run.arguments[1] == "-f"@ && run.arguments[2] == "-"@
            && run.input == one_to_a_line(paths) + path + seq![0x0au8] && run.expected
            == paths.len() + 1,
        TO_POSIX@ == "-u"@,
        TO_NATIVE@ == "-m"@,
{
    let all = paths.push(path);
    assert(all.drop_last() =~= paths);
    assert(all.last() == path);
    assert(one_to_a_line(paths) + path.push(LF) =~= one_to_a_line(paths) + path + seq![0x0au8]);
}

/// The paths come out one to a line, in order, with a line feed or a carriage return
/// and a line feed at the end of each; empty lines are none.
pub proof fn law_paths_come_out_one_to_a_line(path: Seq<u8>, rest: Seq<u8>)
    requires
        path.len() > 0,
        path.last() != 0x0d,
        forall|i: int| 0 <= i < path.len() ==> #[trigger] path[i] != 0x0a,
    ensures
        output_paths(Seq::empty()).len() == 0,
        output_paths(seq![0x0au8] + rest) == output_paths(rest),
        output_paths(path + (seq![0x0au8] + rest)) == seq![path] + output_paths(rest),
        output_paths(path + (seq![0x0du8, 0x0au8] + rest)) == seq![path] + output_paths(rest),
        output_paths(path) == seq![path],
{
    let none = Seq::<u8>::empty();
    let f = output_record();
    law_pieces_stand_between_line_feeds(none, rest);
    lemma_filter_map_first(pieces(none), f);
    lemma_filter_map_empty(pieces(none).drop_first(), f);
    assert(none + (seq![0x0au8] + rest) =~= seq![0x0au8] + rest);
    lemma_first_piece(none, rest);
    lemma_first_piece(path, rest);
    let ended = path.push(0x0d);
    assert forall|i: int| 0 <= i < ended.len() implies #[trigger] ended[i] != 0x0a by {
        if i < path.len() {
            assert(ended[i] == path[i]);
        }
    }
    lemma_first_piece(ended, rest);
    assert(ended.drop_last() =~= path);
    assert(ended + (seq![0x0au8] + rest) =~= path + (seq![0x0du8, 0x0au8] + rest));
    law_pieces_stand_between_line_feeds(path, rest);
    lemma_filter_map_first(pieces(path), f);
    lemma_filter_map_empty(pieces(path).drop_first(), f);
    assert(output_paths(path) =~= seq![path]);
}

proof fn lemma_first_piece(line: Seq<u8>, rest: Seq<u8>)
    requires
        forall|i: int| 0 <= i < line.len() ==> #[trigger] line[i] != 0x0a,
    ensures
        output_paths(line + (seq![0x0au8] + rest)) == match output_record()(line) {
            Some(path) => seq![path] + output_paths(rest),
            None => output_paths(rest),
        },
{
    law_pieces_stand_between_line_feeds(line, rest);
    let all = pieces(line + (seq![0x0au8] + rest));
    lemma_filter_map_first(all, output_record());
    assert(all[0] == line);
    assert(all.drop_first() =~= pieces(rest));
}

/// What is said of a batch that could not be converted: what the process said of it,
/// all of it, or how many paths came back and how many were wanted, in decimal.
pub proof fn law_error_texts(stderr: Seq<u8>, returned: usize, expected: usize)
    ensures
        cygpath_error_text(CygpathError::Failed, stderr) == "cygpath failed: ".spec_bytes()
            + stderr,
        cygpath_error_text(CygpathError::Count { returned, expected }, stderr)
            == "cygpath returned ".spec_bytes() + decimal(returned as nat)
            + " paths for ".spec_bytes() + decimal(expected as nat) + " inputs".spec_bytes(),
{
}

} // verus!
