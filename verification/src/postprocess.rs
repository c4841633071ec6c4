//! What is done after a TeX run: paths are gathered from the files that it
//! wrote, and then replaced in them.
use vstd::prelude::*;
use vstd::string::*;
use crate::artifacts::WatchedFile;
use crate::bytes::{copy, equal, views};
use crate::cygpath::{conversion, run_view, CygpathRun, TO_NATIVE};
use crate::invocation::optional_view;
use crate::known_paths::{replace_known_paths, replaced};
use crate::lists::{lemma_filter_map_empty, lemma_filter_map_first, lemma_filter_map_holds};
use crate::mapper::{
    extended, law_learned_paths_are_known, law_unseen_paths, unseen, zipped, PathMapper,
};
use crate::records::{
    fls_record, input_record, law_no_posix_path_is_left, law_recorder_records,
    law_synctex_records, lemma_posix_path_is_taken, names_posix_path, paths_from_fls,
    paths_from_synctex, pieces, posix_absolute, rewrite_synctex, rewritten_synctex,
    single_carriage_returns, synctex_record, without_line_feeds,
};
use crate::synctex_file::{
    decoded, gunzipped, gzipped, is_compressed, read_synctex, write_synctex, GzipError,
};

verus! {

/// A SyncTeX file that the run wrote.
pub struct SynctexFile {
    pub path: Vec<u8>,
    /// What the file holds, decompressed.
    pub contents: Vec<u8>,
    /// Whether it has to be compressed again.
    pub compressed: bool,
}

/// A SyncTeX file, as values.
#[verifier::ext_equal]
pub struct SynctexState {
    pub path: Seq<u8>,
    pub contents: Seq<u8>,
    pub compressed: bool,
}

impl View for SynctexFile {
    type V = SynctexState;

    open spec fn view(&self) -> SynctexState {
        SynctexState {
            path: self.path@,
            contents: self.contents@,
            compressed: self.compressed,
        }
    }
}

/// The values of a list of SyncTeX files.
pub open spec fn file_views(files: Seq<SynctexFile>) -> Seq<SynctexState> {
    files.map_values(|file: SynctexFile| file@)
}

/// What has been gathered so far.
pub struct Discovery {
    /// The POSIX paths, in the order in which they were found.
    pub paths: Vec<Vec<u8>>,
    /// The SyncTeX files that could be read.
    pub synctex: Vec<SynctexFile>,
}

/// Moves the entries of `more` to the end of `list`.
fn extend(list: &mut Vec<Vec<u8>>, more: Vec<Vec<u8>>)
    ensures
        views(final(list)@) == views(old(list)@) + views(more@),
{
    let mut rest: Vec<Vec<u8>> = more;
    list.append(&mut rest);
    assert(views(list@) =~= views(old(list)@) + views(more@));
}

impl Discovery {
    /// Gathers the paths of a recorder file.
    pub fn add_fls(&mut self, contents: &[u8])
        ensures
            views(final(self).paths@) == views(old(self).paths@) + pieces(contents@).filter_map(
                fls_record(),
            ),
            final(self).synctex == old(self).synctex,
    {
        let found: Vec<Vec<u8>> = paths_from_fls(contents);
        extend(&mut self.paths, found);
    }

    /// Gathers the paths of a SyncTeX file and keeps what it holds. A file that
    /// cannot be decompressed is left out.
    pub fn add_synctex(&mut self, path: Vec<u8>, file: Vec<u8>) -> (r: Result<(), GzipError>)
        ensures
            match r {
                Ok(()) => decoded(is_compressed(path@), file@) matches Some(contents) && views(
                    final(self).paths@,
                ) == views(old(self).paths@) + pieces(contents).filter_map(synctex_record())
                    && file_views(final(self).synctex@) == file_views(old(self).synctex@).push(
                    SynctexState { path: path@, contents, compressed: is_compressed(path@) },
                ),
                Err(GzipError::Read(_)) => decoded(is_compressed(path@), file@) is None
                    && *final(self) == *old(self),
                Err(GzipError::Write(_)) => false,
            },
    {
        match read_synctex(path.as_slice(), file) {
            Ok((contents, compressed)) => {
                let found: Vec<Vec<u8>> = paths_from_synctex(contents.as_slice());
                extend(&mut self.paths, found);
                let kept: SynctexFile = SynctexFile { path, contents, compressed };
                let ghost before = file_views(self.synctex@);
                self.synctex.push(kept);
                assert(file_views(self.synctex@) =~= before.push(kept@));
                Ok(())
            },
            Err(error) => Err(error),
        }
    }
}

/// The new contents of a log; nothing where no path in it is known, so that the
/// file can stay as it is.
pub fn rewrite_log(contents: &[u8], mapper: &PathMapper) -> (r: Option<Vec<u8>>)
    ensures
        match r {
            Some(rewritten) => rewritten@ == replaced(contents@, mapper.known()) && rewritten@
                != contents@,
            None => replaced(contents@, mapper.known()) == contents@,
        },
{
    let rewritten: Vec<u8> = replace_known_paths(contents, mapper.ordered_paths());
    if equal(rewritten.as_slice(), contents) {
        None
    } else {
        Some(rewritten)
    }
}

impl SynctexFile {
    /// The new bytes of the file, compressed if they were; nothing where no
    /// path in it is known, so that the file can stay as it is.
    pub fn rewrite(&self, mapper: &PathMapper) -> (r: Result<Option<Vec<u8>>, GzipError>)
        requires
            mapper.wf(),
        ensures
            ({
                let rewritten = rewritten_synctex(self.contents@, mapper@);
                match r {
                    Ok(None) => rewritten == self.contents@,
                    Ok(Some(file)) => rewritten != self.contents@ && decoded(
                        self.compressed,
                        file@,
                    ) == Some(rewritten) && if self.compressed {
                        gzipped(rewritten) == Some(file@)
                    } else {
                        file@ == rewritten
                    },
                    Err(GzipError::Write(_)) => rewritten != self.contents@ && self.compressed
                        && gzipped(rewritten) is None,
                    Err(GzipError::Read(_)) => false,
                }
            }),
    {
        let rewritten: Vec<u8> = rewrite_synctex(self.contents.as_slice(), mapper.paths());
        if equal(rewritten.as_slice(), self.contents.as_slice()) {
            return Ok(None);
        }
        match write_synctex(rewritten, self.compressed) {
            Ok(file) => Ok(Some(file)),
            Err(error) => Err(error),
        }
    }
}

/// How far post-processing has come.
pub enum Phase {
    /// The recorder file of this number is to be read.
    Fls(usize),
    /// The SyncTeX file of this number is to be read.
    Synctex(usize),
    /// The paths that were gathered are to be converted.
    Convert,
    /// The log of this number is to be read.
    Log(usize),
    /// The log of this number is to be replaced.
    LogReady(usize, Vec<u8>),
    /// The file of this number among those that were kept is to be replaced.
    SynctexReady(usize, Vec<u8>),
    Done,
    /// Something failed; nothing more is done. The error is one that occurred
    /// here, and not in what the caller was to do.
    Failed(Option<GzipError>),
}

/// How far post-processing has come, as values.
#[verifier::ext_equal]
pub enum PhaseState {
    Fls(int),
    Synctex(int),
    Convert,
    Log(int),
    LogReady(int, Seq<u8>),
    SynctexReady(int, Seq<u8>),
    Done,
    /// Whether the error occurred here.
    Failed(bool),
}

impl View for Phase {
    type V = PhaseState;

    open spec fn view(&self) -> PhaseState {
        match self {
            Phase::Fls(i) => PhaseState::Fls(*i as int),
            Phase::Synctex(i) => PhaseState::Synctex(*i as int),
            Phase::Convert => PhaseState::Convert,
            Phase::Log(i) => PhaseState::Log(*i as int),
            Phase::LogReady(i, contents) => PhaseState::LogReady(*i as int, contents@),
            Phase::SynctexReady(i, contents) => PhaseState::SynctexReady(*i as int, contents@),
            Phase::Done => PhaseState::Done,
            Phase::Failed(error) => PhaseState::Failed(error is Some),
        }
    }
}

/// The state of post-processing, as values: the files that it is about, what
/// has been gathered from them, and how far it has come.
#[verifier::ext_equal]
pub struct PostprocessState {
    pub logs: Seq<Seq<u8>>,
    pub fls: Seq<Seq<u8>>,
    pub synctex: Seq<Seq<u8>>,
    pub paths: Seq<Seq<u8>>,
    pub files: Seq<SynctexState>,
    pub phase: PhaseState,
}

/// The phase in which a SyncTeX file is read, or the one after all of them.
pub open spec fn synctex_phase(state: PostprocessState, i: int) -> PhaseState {
    if i < state.synctex.len() {
        PhaseState::Synctex(i)
    } else {
        PhaseState::Convert
    }
}

/// The phase in which a recorder file is read, or the one after all of them.
pub open spec fn fls_phase(state: PostprocessState, i: int) -> PhaseState {
    if i < state.fls.len() {
        PhaseState::Fls(i)
    } else {
        synctex_phase(state, 0)
    }
}

/// The phase in which the next SyncTeX file is replaced, from the one of a
/// number on: files that do not change are passed over. Where a file cannot be
/// compressed, post-processing fails.
pub open spec fn rewriting_phase(
    files: Seq<SynctexState>,
    i: int,
    native: Map<Seq<u8>, Seq<u8>>,
) -> PhaseState
    decreases files.len() - i,
{
    if i < 0 || i >= files.len() {
        PhaseState::Done
    } else {
        let rewritten = rewritten_synctex(files[i].contents, native);
        if rewritten == files[i].contents {
            rewriting_phase(files, i + 1, native)
        } else if !files[i].compressed {
            PhaseState::SynctexReady(i, rewritten)
        } else {
            match gzipped(rewritten) {
                Some(file) => PhaseState::SynctexReady(i, file),
                None => PhaseState::Failed(true),
            }
        }
    }
}

/// The phase in which a log is read, or the one after all of them.
pub open spec fn log_phase(
    state: PostprocessState,
    i: int,
    native: Map<Seq<u8>, Seq<u8>>,
) -> PhaseState {
    if i < state.logs.len() {
        PhaseState::Log(i)
    } else {
        rewriting_phase(state.files, 0, native)
    }
}

/// The beginning: nothing is to be done where the run has written no file that
/// would have to be rewritten.
pub open spec fn postprocess_begun(
    logs: Seq<Seq<u8>>,
    fls: Seq<Seq<u8>>,
    synctex: Seq<Seq<u8>>,
) -> PostprocessState {
    let state = PostprocessState {
        logs,
        fls,
        synctex,
        paths: Seq::empty(),
        files: Seq::empty(),
        phase: PhaseState::Done,
    };
    if logs.len() == 0 && synctex.len() == 0 {
        state
    } else {
        PostprocessState { phase: fls_phase(state, 0), ..state }
    }
}

/// After a recorder file was read; one that could not be read adds nothing.
pub open spec fn after_fls(
    state: PostprocessState,
    contents: Option<Seq<u8>>,
) -> PostprocessState {
    match state.phase {
        PhaseState::Fls(i) => PostprocessState {
            paths: match contents {
                Some(text) => state.paths + pieces(text).filter_map(fls_record()),
                None => state.paths,
            },
            phase: fls_phase(state, i + 1),
            ..state
        },
        _ => state,
    }
}

/// After a SyncTeX file was read; one that could not be read or decompressed adds
/// nothing, and is not rewritten.
pub open spec fn after_synctex(
    state: PostprocessState,
    file: Option<Seq<u8>>,
) -> PostprocessState {
    match state.phase {
        PhaseState::Synctex(i) => {
            let compressed = is_compressed(state.synctex[i]);
            let next = PostprocessState { phase: synctex_phase(state, i + 1), ..state };
            match file {
                Some(bytes) => match decoded(compressed, bytes) {
                    Some(contents) => PostprocessState {
                        paths: state.paths + pieces(contents).filter_map(synctex_record()),
                        files: state.files.push(
                            SynctexState { path: state.synctex[i], contents, compressed },
                        ),
                        ..next
                    },
                    None => next,
                },
                None => next,
            }
        },
        _ => state,
    }
}

/// After the paths were converted and learned; without that nothing is
/// rewritten.
pub open spec fn after_conversion(
    state: PostprocessState,
    success: bool,
    native: Map<Seq<u8>, Seq<u8>>,
) -> PostprocessState {
    match state.phase {
        PhaseState::Convert => PostprocessState {
            phase: if success {
                log_phase(state, 0, native)
            } else {
                PhaseState::Failed(false)
            },
            ..state
        },
        _ => state,
    }
}

/// After a log was read: it is replaced if it changes.
pub open spec fn after_log(
    state: PostprocessState,
    contents: Option<Seq<u8>>,
    known: Seq<(Seq<u8>, Seq<u8>)>,
    native: Map<Seq<u8>, Seq<u8>>,
) -> PostprocessState {
    match state.phase {
        PhaseState::Log(i) => PostprocessState {
            phase: match contents {
                Some(text) => if replaced(text, known) == text {
                    log_phase(state, i + 1, native)
                } else {
                    PhaseState::LogReady(i, replaced(text, known))
                },
                None => PhaseState::Failed(false),
            },
            ..state
        },
        _ => state,
    }
}

/// After a file was replaced.
pub open spec fn after_replacement(
    state: PostprocessState,
    success: bool,
    native: Map<Seq<u8>, Seq<u8>>,
) -> PostprocessState {
    let phase = match state.phase {
        PhaseState::LogReady(i, _) => if success {
            log_phase(state, i + 1, native)
        } else {
            PhaseState::Failed(false)
        },
        PhaseState::SynctexReady(i, _) => if success {
            rewriting_phase(state.files, i + 1, native)
        } else {
            PhaseState::Failed(false)
        },
        other => other,
    };
    PostprocessState { phase, ..state }
}

/// What is to be done next.
pub enum Task {
    /// Read this recorder file.
    ReadFls(Vec<u8>),
    /// Read this SyncTeX file.
    ReadSynctex(Vec<u8>),
    /// Convert paths to native ones by this process, if there are any to convert.
    Convert(Option<CygpathRun>),
    /// Read this log.
    ReadLog(Vec<u8>),
    /// Replace this file by these bytes.
    Replace(Vec<u8>, Vec<u8>),
    /// Nothing more: all is done.
    Done,
    /// Nothing more: something failed.
    Failed,
}

/// Post-processing under way. The caller asks for the next task, does it, and
/// says what came of it.
pub struct Postprocess {
    logs: Vec<Vec<u8>>,
    fls: Vec<Vec<u8>>,
    synctex: Vec<Vec<u8>>,
    discovery: Discovery,
    phase: Phase,
}

impl View for Postprocess {
    type V = PostprocessState;

    closed spec fn view(&self) -> PostprocessState {
        PostprocessState {
            logs: views(self.logs@),
            fls: views(self.fls@),
            synctex: views(self.synctex@),
            paths: views(self.discovery.paths@),
            files: file_views(self.discovery.synctex@),
            phase: self.phase@,
        }
    }
}

/// Whether some bytes are those of a SyncTeX file, compressed as it was, with
/// other contents.
pub open spec fn is_new_version(file: SynctexState, bytes: Seq<u8>) -> bool {
    decoded(file.compressed, bytes) matches Some(contents) && contents != file.contents
}

/// Whether the number in the phase is that of a file.
pub open spec fn phase_in_range(state: PostprocessState) -> bool {
    match state.phase {
        PhaseState::Fls(i) => 0 <= i < state.fls.len(),
        PhaseState::Synctex(i) => 0 <= i < state.synctex.len(),
        PhaseState::Log(i) => 0 <= i < state.logs.len(),
        PhaseState::LogReady(i, _) => 0 <= i < state.logs.len(),
        PhaseState::SynctexReady(i, _) => 0 <= i < state.files.len(),
        _ => true,
    }
}

/// Whether the number in the phase is that of a file, every SyncTeX file that
/// was kept is one of those that the run wrote, and what replaces one can be
/// read as it was.
pub open spec fn postprocess_wf(state: PostprocessState) -> bool {
    &&& phase_in_range(state)
    &&& state.phase matches PhaseState::SynctexReady(i, bytes) ==> is_new_version(
        state.files[i],
        bytes,
    )
    &&& forall|i: int|
        0 <= i < state.files.len() ==> state.synctex.contains((#[trigger] state.files[i]).path)
}

/// The path of each file of a list.
pub open spec fn watched_paths(files: Seq<&WatchedFile>) -> Seq<Seq<u8>> {
    files.map_values(|file: &WatchedFile| file.path@)
}

/// Copies the path of each file of a list.
fn copy_paths(files: &[&WatchedFile]) -> (r: Vec<Vec<u8>>)
    ensures
        views(r@) == watched_paths(files@),
{
    let mut r: Vec<Vec<u8>> = Vec::new();
    let ghost all = watched_paths(files@);
    let mut i: usize = 0;
    while i < files.len()
        invariant
            i <= files@.len(),
            all == watched_paths(files@),
            views(r@) == all.take(i as int),
        decreases files@.len() - i,
    {
        let ghost before = views(r@);
        let path: Vec<u8> = copy(&files[i].path);
        r.push(path);
        assert(views(r@) =~= before.push(path@));
        assert(before.push(path@) =~= all.take(i + 1));
        i += 1;
    }
    assert(all.take(i as int) =~= all);
    r
}

/// Begins the post-processing of a run, given the logs and SyncTeX files that it
/// wrote and the recorder files that are there.
pub fn postprocess(
    logs: &[&WatchedFile],
    fls: &[&WatchedFile],
    synctex: &[&WatchedFile],
) -> (r: Postprocess)
    ensures
        r@ == postprocess_begun(
            watched_paths(logs@),
            watched_paths(fls@),
            watched_paths(synctex@),
        ),
        r.wf(),
{
    let phase: Phase = if logs.len() == 0 && synctex.len() == 0 {
        Phase::Done
    } else if fls.len() > 0 {
        Phase::Fls(0)
    } else if synctex.len() > 0 {
        Phase::Synctex(0)
    } else {
        Phase::Convert
    };
    let r: Postprocess = Postprocess {
        logs: copy_paths(logs),
        fls: copy_paths(fls),
        synctex: copy_paths(synctex),
        discovery: Discovery { paths: Vec::new(), synctex: Vec::new() },
        phase,
    };
    assert(r@.paths =~= Seq::<Seq<u8>>::empty());
    assert(r@.files =~= Seq::<SynctexState>::empty());
    r
}

proof fn lemma_rewriting_phase(
    files: Seq<SynctexState>,
    i: int,
    native: Map<Seq<u8>, Seq<u8>>,
)
    ensures
        match rewriting_phase(files, i, native) {
            PhaseState::SynctexReady(k, _) => 0 <= k < files.len() && i <= k,
            PhaseState::Done => true,
            PhaseState::Failed(here) => here,
            _ => false,
        },
    decreases files.len() - i,
{
    if 0 <= i < files.len() {
        lemma_rewriting_phase(files, i + 1, native);
    }
}

impl Postprocess {
    /// The error that post-processing failed with, if it occurred here.
    pub closed spec fn error(&self) -> Option<GzipError> {
        match self.phase {
            Phase::Failed(error) => error,
            _ => None,
        }
    }

    /// The state is a valid one, and an error that occurred here is that of a file
    /// that could not be compressed.
    pub open spec fn wf(&self) -> bool {
        &&& postprocess_wf(self@)
        &&& self.error() matches Some(error) ==> error is Write
    }

    /// What is to be done next. Paths are to be converted that are absolute and
    /// not known, each once.
    pub fn task(&self, mapper: &PathMapper) -> (r: Task)
        requires
            self.wf(),
            mapper.wf(),
        ensures
            match self@.phase {
                PhaseState::Fls(i) => r matches Task::ReadFls(path) && path@ == self@.fls[i],
                PhaseState::Synctex(i) => r matches Task::ReadSynctex(path) && path@
                    == self@.synctex[i],
                PhaseState::Convert => r matches Task::Convert(run) && run_view(run) == conversion(
                    TO_NATIVE@,
                    unseen(self@.paths, mapper@),
                ),
                PhaseState::Log(i) => r matches Task::ReadLog(path) && path@ == self@.logs[i],
                PhaseState::LogReady(i, bytes) => r matches Task::Replace(path, contents) && path@
                    == self@.logs[i] && contents@ == bytes,
                PhaseState::SynctexReady(i, bytes) => r matches Task::Replace(path, contents)
                    && path@ == self@.files[i].path && contents@ == bytes,
                PhaseState::Done => r is Done,
                PhaseState::Failed(_) => r is Failed,
            },
    {
        match &self.phase {
            Phase::Fls(i) => Task::ReadFls(copy(&self.fls[*i])),
            Phase::Synctex(i) => Task::ReadSynctex(copy(&self.synctex[*i])),
            Phase::Convert => Task::Convert(
                mapper.conversion(self.discovery.paths.as_slice()),
            ),
            Phase::Log(i) => Task::ReadLog(copy(&self.logs[*i])),
            Phase::LogReady(i, contents) => Task::Replace(copy(&self.logs[*i]), copy(contents)),
            Phase::SynctexReady(i, contents) => {
                assert(self@.files[*i as int] == self.discovery.synctex@[*i as int]@);
                Task::Replace(copy(&self.discovery.synctex[*i].path), copy(contents))
            },
            Phase::Done => Task::Done,
            Phase::Failed(_) => Task::Failed,
        }
    }

    /// The phase in which a SyncTeX file is read, or the one after all of them.
    fn reading_synctex(&self, i: usize) -> (r: Phase)
        ensures
            r@ == synctex_phase(self@, i as int),
    {
        if i < self.synctex.len() {
            Phase::Synctex(i)
        } else {
            Phase::Convert
        }
    }

    /// The phase in which the next SyncTeX file is replaced.
    fn rewriting(&self, from: usize, mapper: &PathMapper) -> (r: Phase)
        requires
            mapper.wf(),
        ensures
            r@ == rewriting_phase(self@.files, from as int, mapper@),
            r matches Phase::Failed(Some(error)) ==> error is Write,
            r@ matches PhaseState::SynctexReady(i, bytes) ==> is_new_version(
                self@.files[i],
                bytes,
            ),
    {
        let ghost files = self@.files;
        let mut i: usize = from;
        while i < self.discovery.synctex.len()
            invariant
                from <= i,
                files == file_views(self.discovery.synctex@),
                mapper.wf(),
                rewriting_phase(files, from as int, mapper@) == rewriting_phase(
                    files,
                    i as int,
                    mapper@,
                ),
            decreases self.discovery.synctex@.len() - i,
        {
            let file: &SynctexFile = &self.discovery.synctex[i];
            assert(files[i as int] == file@);
            let ghost rewritten = rewritten_synctex(file.contents@, mapper@);
            match file.rewrite(mapper) {
                Ok(Some(bytes)) => {
                    return Phase::SynctexReady(i, bytes);
                },
                Ok(None) => {},
                Err(error) => {
                    return Phase::Failed(Some(error));
                },
            }
            i += 1;
        }
        Phase::Done
    }

    /// The phase in which a log is read, or the one after all of them.
    fn reading_log(&self, i: usize, mapper: &PathMapper) -> (r: Phase)
        requires
            mapper.wf(),
        ensures
            r@ == log_phase(self@, i as int, mapper@),
            r matches Phase::Failed(Some(error)) ==> error is Write,
            r@ matches PhaseState::SynctexReady(k, bytes) ==> is_new_version(
                self@.files[k],
                bytes,
            ),
    {
        if i < self.logs.len() {
            Phase::Log(i)
        } else {
            self.rewriting(0, mapper)
        }
    }

    /// Takes in what a recorder file holds, if it could be read.
    pub fn fls_read(&mut self, contents: Option<&[u8]>)
        requires
            old(self).wf(),
        ensures
            final(self)@ == after_fls(
                old(self)@,
                match contents {
                    Some(text) => Some(text@),
                    None => None,
                },
            ),
            final(self).wf(),
            old(self)@.phase is Failed ==> *final(self) == *old(self),
    {
        if let Phase::Fls(i) = &self.phase {
            assert(*i < self.fls.len());
            let next: usize = *i + 1;
            if let Some(text) = contents {
                self.discovery.add_fls(text);
            }
            self.phase = if next < self.fls.len() {
                Phase::Fls(next)
            } else {
                self.reading_synctex(0)
            };
        }
    }

    /// Takes in the bytes of a SyncTeX file, if it could be read. The error is
    /// that of a file that cannot be decompressed.
    pub fn synctex_read(&mut self, file: Option<Vec<u8>>) -> (r: Option<GzipError>)
        requires
            old(self).wf(),
        ensures
            final(self)@ == after_synctex(old(self)@, optional_view(file)),
            final(self).wf(),
            old(self)@.phase is Failed ==> *final(self) == *old(self),
            r matches Some(error) ==> error is Read,
            r is Some <==> (old(self)@.phase matches PhaseState::Synctex(i) && file matches Some(
                bytes,
            ) && decoded(is_compressed(old(self)@.synctex[i]), bytes@) is None),
    {
        let mut warning: Option<GzipError> = None;
        if let Phase::Synctex(i) = &self.phase {
            assert(*i < self.synctex.len());
            let at: usize = *i;
            let path: Vec<u8> = copy(&self.synctex[at]);
            assert(path@ == self@.synctex[at as int]);
            if let Some(bytes) = file {
                match self.discovery.add_synctex(path, bytes) {
                    Ok(()) => {},
                    Err(error) => {
                        warning = Some(error);
                    },
                }
            }
            self.phase = self.reading_synctex(at + 1);
        }
        warning
    }

    /// Takes in what the paths were converted to, if they could be, and learns
    /// them.
    pub fn converted(&mut self, mapper: &mut PathMapper, windows_paths: Option<Vec<Vec<u8>>>)
        requires
            old(self).wf(),
            old(mapper).wf(),
        ensures
            final(mapper).wf(),
            final(mapper)@ == match windows_paths {
                Some(native) => if old(self)@.phase is Convert {
                    extended(
                        old(mapper)@,
                        zipped(unseen(old(self)@.paths, old(mapper)@), views(native@)),
                    )
                } else {
                    old(mapper)@
                },
                None => old(mapper)@,
            },
            windows_paths is None || !(old(self)@.phase is Convert) || unseen(
                old(self)@.paths,
                old(mapper)@,
            ).len() == 0 ==> *final(mapper) == *old(mapper),
            final(self)@ == after_conversion(
                old(self)@,
                windows_paths is Some,
                final(mapper)@,
            ),
            final(self).wf(),
            old(self)@.phase is Failed ==> *final(self) == *old(self),
    {
        if let Phase::Convert = &self.phase {
            match windows_paths {
                Some(native) => {
                    mapper.add_posix_paths(self.discovery.paths.as_slice(), native);
                    proof {
                        lemma_rewriting_phase(self@.files, 0, mapper@);
                    }
                    self.phase = self.reading_log(0, mapper);
                },
                None => {
                    self.phase = Phase::Failed(None);
                },
            }
        }
    }

    /// Takes in what a log holds, if it could be read.
    pub fn log_read(&mut self, mapper: &PathMapper, contents: Option<&[u8]>)
        requires
            old(self).wf(),
            mapper.wf(),
        ensures
            final(self)@ == after_log(
                old(self)@,
                match contents {
                    Some(text) => Some(text@),
                    None => None,
                },
                mapper.known(),
                mapper@,
            ),
            final(self).wf(),
            old(self)@.phase is Failed ==> *final(self) == *old(self),
    {
        if let Phase::Log(i) = &self.phase {
            assert(*i < self.logs.len());
            let at: usize = *i;
            proof {
                lemma_rewriting_phase(self@.files, 0, mapper@);
            }
            self.phase = match contents {
                Some(text) => match rewrite_log(text, mapper) {
                    Some(rewritten) => Phase::LogReady(at, rewritten),
                    None => self.reading_log(at + 1, mapper),
                },
                None => Phase::Failed(None),
            };
        }
    }

    /// Takes in whether a file could be replaced.
    pub fn file_replaced(&mut self, mapper: &PathMapper, success: bool)
        requires
            old(self).wf(),
            mapper.wf(),
        ensures
            final(self)@ == after_replacement(old(self)@, success, mapper@),
            final(self).wf(),
            old(self)@.phase is Failed ==> *final(self) == *old(self),
    {
        proof {
            lemma_rewriting_phase(self@.files, 0, mapper@);
        }
        match &self.phase {
            Phase::LogReady(i, _) => {
                assert(*i < self.logs.len());
                let next: usize = *i + 1;
                self.phase = if success {
                    self.reading_log(next, mapper)
                } else {
                    Phase::Failed(None)
                };
            },
            Phase::SynctexReady(i, _) => {
                assert(*i < self.discovery.synctex.len());
                let next: usize = *i + 1;
                proof {
                    lemma_rewriting_phase(self@.files, next as int, mapper@);
                }
                self.phase = if success {
                    self.rewriting(next, mapper)
                } else {
                    Phase::Failed(None)
                };
            },
            _ => {},
        }
    }

    /// The error that post-processing failed with, if it occurred here.
    pub fn into_error(self) -> (r: Option<GzipError>)
        requires
            self.wf(),
        ensures
            r == self.error(),
            r matches Some(error) ==> error is Write,
            r is Some <==> self@.phase == PhaseState::Failed(true),
    {
        match self.phase {
            Phase::Failed(error) => error,
            _ => None,
        }
    }
}

proof fn lemma_found_paths_are_absolute(lines: Seq<Seq<u8>>, path: Seq<u8>)
    requires
        lines.filter_map(synctex_record()).contains(path),
    ensures
        posix_absolute(path),
{
    lines.lemma_filter_map_contains(synctex_record(), path);
}

/// A SyncTeX file that a run wrote names no POSIX path once it has been
/// rewritten, where the paths that were gathered, those of the file among them,
/// have all been converted, and to native paths.
pub proof fn law_synctex_ends_up_native(
    contents: Seq<u8>,
    gathered: Seq<Seq<u8>>,
    known: Map<Seq<u8>, Seq<u8>>,
    windows_paths: Seq<Seq<u8>>,
)
    requires
        single_carriage_returns(contents),
        forall|path: Seq<u8>| #[trigger]
            pieces(contents).filter_map(synctex_record()).contains(path) ==> gathered.contains(
                path,
            ),
        windows_paths.len() == unseen(gathered, known).len(),
        ({
            let native = extended(known, zipped(unseen(gathered, known), windows_paths));
            &&& without_line_feeds(native)
            &&& forall|path: Seq<u8>| #[trigger]
                native.contains_key(path) ==> !posix_absolute(native[path])
        }),
    ensures
        ({
            let native = extended(known, zipped(unseen(gathered, known), windows_paths));
            pieces(rewritten_synctex(contents, native)).filter_map(synctex_record()).len() == 0
        }),
{
    let native = extended(known, zipped(unseen(gathered, known), windows_paths));
    law_learned_paths_are_known(known, gathered, windows_paths);
    assert forall|path: Seq<u8>| #[trigger]
        pieces(contents).filter_map(synctex_record()).contains(path) implies native.contains_key(
        path,
    ) by {
        lemma_found_paths_are_absolute(pieces(contents), path);
        assert(gathered.contains(path));
    }
    law_no_posix_path_is_left(contents, native);
}

/// The file that is to be replaced, and what by.
pub open spec fn replacement(state: PostprocessState) -> Option<(Seq<u8>, Seq<u8>)> {
    match state.phase {
        PhaseState::LogReady(i, bytes) => Some((state.logs[i], bytes)),
        PhaseState::SynctexReady(i, bytes) => Some((state.files[i].path, bytes)),
        _ => None,
    }
}

/// Only logs and SyncTeX files that the run wrote are replaced; recorder files
/// are read and never replaced.
pub proof fn law_only_written_files_are_replaced(state: PostprocessState)
    requires
        postprocess_wf(state),
    ensures
        replacement(state) matches Some((path, _)) ==> state.logs.contains(path)
            || state.synctex.contains(path),
{
    match state.phase {
        PhaseState::LogReady(i, _) => {
            assert(state.logs.contains(state.logs[i]));
        },
        PhaseState::SynctexReady(i, _) => {
            assert(state.synctex.contains(state.files[i].path));
        },
        _ => {},
    }
}

/// Once something has failed, nothing more is done; a recorder file or SyncTeX
/// file that cannot be read is no such failure.
pub proof fn law_a_failure_ends_postprocessing(
    state: PostprocessState,
    contents: Option<Seq<u8>>,
    success: bool,
    known: Seq<(Seq<u8>, Seq<u8>)>,
    native: Map<Seq<u8>, Seq<u8>>,
)
    ensures
        state.phase is Failed ==> after_fls(state, contents) == state && after_synctex(
            state,
            contents,
        ) == state && after_conversion(state, success, native) == state && after_log(
            state,
            contents,
            known,
            native,
        ) == state && after_replacement(state, success, native) == state,
        !(state.phase is Failed) ==> !(after_fls(state, contents).phase is Failed)
            && !(after_synctex(state, contents).phase is Failed),
{
}

/// How many tasks there may still be, at most.
pub open spec fn tasks_left(state: PostprocessState) -> int {
    let logs = 2 * state.logs.len() as int;
    let files = state.files.len() as int;
    match state.phase {
        PhaseState::Fls(i) => (state.fls.len() - i) + 2 * state.synctex.len() + 2 + logs + files,
        PhaseState::Synctex(i) => 2 * (state.synctex.len() - i) + 2 + logs + files,
        PhaseState::Convert => 2 + logs + files,
        PhaseState::Log(i) => logs - 2 * i + 1 + files,
        PhaseState::LogReady(i, _) => logs - 2 * i + files,
        PhaseState::SynctexReady(i, _) => files - i,
        _ => 0,
    }
}

/// Every task takes post-processing further, so that it ends.
pub proof fn law_postprocessing_ends(
    state: PostprocessState,
    contents: Option<Seq<u8>>,
    success: bool,
    known: Seq<(Seq<u8>, Seq<u8>)>,
    native: Map<Seq<u8>, Seq<u8>>,
)
    requires
        phase_in_range(state),
    ensures
        tasks_left(state) >= 0,
        tasks_left(state) == 0 <==> state.phase is Done || state.phase is Failed,
        state.phase is Fls ==> tasks_left(after_fls(state, contents)) < tasks_left(state),
        state.phase is Synctex ==> tasks_left(after_synctex(state, contents)) < tasks_left(state),
        state.phase is Convert ==> tasks_left(after_conversion(state, success, native))
            < tasks_left(state),
        state.phase is Log ==> tasks_left(after_log(state, contents, known, native)) < tasks_left(
            state,
        ),
        state.phase is LogReady || state.phase is SynctexReady ==> tasks_left(
            after_replacement(state, success, native),
        ) < tasks_left(state),
{
    lemma_rewriting_phase(state.files, 0, native);
    if let PhaseState::SynctexReady(i, _) = state.phase {
        lemma_rewriting_phase(state.files, i + 1, native);
    }
}

/// The state after the next task has been done, with success but for files that
/// cannot be read. `read` says what files hold, `known` and `native` what the
/// paths were converted to.
pub open spec fn task_done(
    state: PostprocessState,
    read: spec_fn(Seq<u8>) -> Option<Seq<u8>>,
    known: Seq<(Seq<u8>, Seq<u8>)>,
    native: Map<Seq<u8>, Seq<u8>>,
) -> PostprocessState {
    match state.phase {
        PhaseState::Fls(i) => after_fls(state, read(state.fls[i])),
        PhaseState::Synctex(i) => after_synctex(state, read(state.synctex[i])),
        PhaseState::Convert => after_conversion(state, true, native),
        PhaseState::Log(i) => after_log(state, read(state.logs[i]), known, native),
        _ => after_replacement(state, true, native),
    }
}

/// All files that are replaced from a state on, and what by, in order.
pub open spec fn replacements(
    state: PostprocessState,
    read: spec_fn(Seq<u8>) -> Option<Seq<u8>>,
    known: Seq<(Seq<u8>, Seq<u8>)>,
    native: Map<Seq<u8>, Seq<u8>>,
) -> Seq<(Seq<u8>, Seq<u8>)>
    decreases tasks_left(state),
{
    let here = match replacement(state) {
        Some(change) => seq![change],
        None => Seq::empty(),
    };
    let next = task_done(state, read, known, native);
    if 0 <= tasks_left(next) < tasks_left(state) {
        here + replacements(next, read, known, native)
    } else {
        here
    }
}

/// What a log is replaced by, if it changes, as a function of its path.
pub open spec fn log_change(
    read: spec_fn(Seq<u8>) -> Option<Seq<u8>>,
    known: Seq<(Seq<u8>, Seq<u8>)>,
) -> spec_fn(Seq<u8>) -> Option<(Seq<u8>, Seq<u8>)> {
    |path: Seq<u8>|
        match read(path) {
            Some(text) => if replaced(text, known) == text {
                None
            } else {
                Some((path, replaced(text, known)))
            },
            None => None,
        }
}

/// A SyncTeX file, if it can be read, as a function of its path.
pub open spec fn readable_synctex(
    read: spec_fn(Seq<u8>) -> Option<Seq<u8>>,
) -> spec_fn(Seq<u8>) -> Option<SynctexState> {
    |path: Seq<u8>|
        match read(path) {
            Some(file) => match decoded(is_compressed(path), file) {
                Some(contents) => Some(
                    SynctexState { path, contents, compressed: is_compressed(path) },
                ),
                None => None,
            },
            None => None,
        }
}

/// What a SyncTeX file is replaced by, if it changes, as a function of the file.
pub open spec fn synctex_change(
    native: Map<Seq<u8>, Seq<u8>>,
) -> spec_fn(SynctexState) -> Option<(Seq<u8>, Seq<u8>)> {
    |file: SynctexState|
        {
            let rewritten = rewritten_synctex(file.contents, native);
            if rewritten == file.contents {
                None
            } else if file.compressed {
                Some((file.path, gzipped(rewritten)->0))
            } else {
                Some((file.path, rewritten))
            }
        }
}

/// Whether every file of a list can be compressed again after it was rewritten.
pub open spec fn compressible(
    files: Seq<SynctexState>,
    native: Map<Seq<u8>, Seq<u8>>,
) -> bool {
    forall|i: int|
        0 <= i < files.len() ==> gzipped(
            rewritten_synctex((#[trigger] files[i]).contents, native),
        ) is Some
}

proof fn lemma_replacements_of_synctex(
    state: PostprocessState,
    i: int,
    read: spec_fn(Seq<u8>) -> Option<Seq<u8>>,
    known: Seq<(Seq<u8>, Seq<u8>)>,
    native: Map<Seq<u8>, Seq<u8>>,
)
    requires
        0 <= i <= state.files.len(),
        compressible(state.files, native),
        state.phase == rewriting_phase(state.files, i, native),
    ensures
        replacements(state, read, known, native) == state.files.skip(i).filter_map(
            synctex_change(native),
        ),
    decreases state.files.len() - i,
{
    let f = synctex_change(native);
    let rest = state.files.skip(i);
    if i == state.files.len() {
        lemma_filter_map_empty(rest, f);
        assert(replacements(state, read, known, native) =~= Seq::<(Seq<u8>, Seq<u8>)>::empty());
    } else {
        assert(rest[0] == state.files[i]);
        assert(rest.drop_first() =~= state.files.skip(i + 1));
        lemma_filter_map_first(rest, f);
        let rewritten = rewritten_synctex(state.files[i].contents, native);
        if rewritten == state.files[i].contents {
            lemma_replacements_of_synctex(state, i + 1, read, known, native);
        } else {
            let next = task_done(state, read, known, native);
            law_postprocessing_ends(state, None, true, known, native);
            lemma_rewriting_phase(state.files, i + 1, native);
            law_postprocessing_ends(next, None, true, known, native);
            lemma_replacements_of_synctex(next, i + 1, read, known, native);
        }
    }
}

proof fn lemma_replacements_of_logs(
    state: PostprocessState,
    i: int,
    read: spec_fn(Seq<u8>) -> Option<Seq<u8>>,
    known: Seq<(Seq<u8>, Seq<u8>)>,
    native: Map<Seq<u8>, Seq<u8>>,
)
    requires
        0 <= i <= state.logs.len(),
        compressible(state.files, native),
        forall|k: int| 0 <= k < state.logs.len() ==> read(#[trigger] state.logs[k]) is Some,
        state.phase == log_phase(state, i, native),
    ensures
        replacements(state, read, known, native) == state.logs.skip(i).filter_map(
            log_change(read, known),
        ) + state.files.filter_map(synctex_change(native)),
    decreases state.logs.len() - i,
{
    let f = log_change(read, known);
    let rest = state.logs.skip(i);
    let later = state.files.filter_map(synctex_change(native));
    if i == state.logs.len() {
        lemma_filter_map_empty(rest, f);
        lemma_replacements_of_synctex(state, 0, read, known, native);
        assert(state.files.skip(0) =~= state.files);
        assert(rest.filter_map(f) + later =~= later);
    } else {
        assert(rest[0] == state.logs[i]);
        assert(rest.drop_first() =~= state.logs.skip(i + 1));
        lemma_filter_map_first(rest, f);
        lemma_rewriting_phase(state.files, 0, native);
        let text = read(state.logs[i])->0;
        let next = task_done(state, read, known, native);
        law_postprocessing_ends(state, read(state.logs[i]), true, known, native);
        law_postprocessing_ends(next, None, true, known, native);
        if replaced(text, known) == text {
            lemma_replacements_of_logs(next, i + 1, read, known, native);
        } else {
            let change = (state.logs[i], replaced(text, known));
            let last = task_done(next, read, known, native);
            law_postprocessing_ends(last, None, true, known, native);
            lemma_replacements_of_logs(last, i + 1, read, known, native);
            let more = replacements(last, read, known, native);
            assert(replacements(next, read, known, native) =~= seq![change] + more);
            assert(rest.filter_map(f) + later =~= seq![change] + more);
        }
        assert(replacements(state, read, known, native) =~= replacements(
            next,
            read,
            known,
            native,
        ));
    }
}

proof fn lemma_replacements_after_synctex(
    state: PostprocessState,
    i: int,
    read: spec_fn(Seq<u8>) -> Option<Seq<u8>>,
    known: Seq<(Seq<u8>, Seq<u8>)>,
    native: Map<Seq<u8>, Seq<u8>>,
)
    requires
        0 <= i <= state.synctex.len(),
        compressible(
            state.files + state.synctex.skip(i).filter_map(readable_synctex(read)),
            native,
        ),
        forall|k: int| 0 <= k < state.logs.len() ==> read(#[trigger] state.logs[k]) is Some,
        state.phase == synctex_phase(state, i),
    ensures
        replacements(state, read, known, native) == state.logs.filter_map(log_change(read, known))
            + (state.files + state.synctex.skip(i).filter_map(readable_synctex(read))).filter_map(
            synctex_change(native),
        ),
    decreases state.synctex.len() - i,
{
    let f = readable_synctex(read);
    let rest = state.synctex.skip(i);
    let all = state.files + rest.filter_map(f);
    let next = task_done(state, read, known, native);
    if i == state.synctex.len() {
        lemma_filter_map_empty(rest, f);
        assert(all =~= state.files);
        lemma_rewriting_phase(state.files, 0, native);
        law_postprocessing_ends(state, None, true, known, native);
        law_postprocessing_ends(next, None, true, known, native);
        lemma_replacements_of_logs(next, 0, read, known, native);
        assert(state.logs.skip(0) =~= state.logs);
    } else {
        assert(rest[0] == state.synctex[i]);
        assert(rest.drop_first() =~= state.synctex.skip(i + 1));
        lemma_filter_map_first(rest, f);
        assert(next.files + state.synctex.skip(i + 1).filter_map(f) =~= all);
        law_postprocessing_ends(state, read(state.synctex[i]), true, known, native);
        law_postprocessing_ends(next, None, true, known, native);
        lemma_replacements_after_synctex(next, i + 1, read, known, native);
    }
    assert(replacements(state, read, known, native) =~= replacements(next, read, known, native));
}

proof fn lemma_replacements_after_fls(
    state: PostprocessState,
    i: int,
    read: spec_fn(Seq<u8>) -> Option<Seq<u8>>,
    known: Seq<(Seq<u8>, Seq<u8>)>,
    native: Map<Seq<u8>, Seq<u8>>,
)
    requires
        0 <= i <= state.fls.len(),
        state.files.len() == 0,
        compressible(state.synctex.filter_map(readable_synctex(read)), native),
        forall|k: int| 0 <= k < state.logs.len() ==> read(#[trigger] state.logs[k]) is Some,
        state.phase == fls_phase(state, i),
    ensures
        replacements(state, read, known, native) == state.logs.filter_map(log_change(read, known))
            + state.synctex.filter_map(readable_synctex(read)).filter_map(synctex_change(native)),
    decreases state.fls.len() - i,
{
    if i == state.fls.len() {
        assert(state.synctex.skip(0) =~= state.synctex);
        assert(state.files + state.synctex.filter_map(readable_synctex(read))
            =~= state.synctex.filter_map(readable_synctex(read)));
        lemma_replacements_after_synctex(state, 0, read, known, native);
    } else {
        let next = task_done(state, read, known, native);
        law_postprocessing_ends(state, read(state.fls[i]), true, known, native);
        law_postprocessing_ends(next, None, true, known, native);
        lemma_replacements_after_fls(next, i + 1, read, known, native);
        assert(replacements(state, read, known, native) =~= replacements(
            next,
            read,
            known,
            native,
        ));
    }
}

/// Where the paths could be converted, the logs be read and files be compressed
/// and replaced, exactly those logs and SyncTeX files are replaced that change,
/// each once and in order, by their contents with the paths rewritten. SyncTeX
/// files that cannot be read are left as they are.
pub proof fn law_exactly_what_changes_is_replaced(
    logs: Seq<Seq<u8>>,
    fls: Seq<Seq<u8>>,
    synctex: Seq<Seq<u8>>,
    read: spec_fn(Seq<u8>) -> Option<Seq<u8>>,
    known: Seq<(Seq<u8>, Seq<u8>)>,
    native: Map<Seq<u8>, Seq<u8>>,
)
    requires
        forall|k: int| 0 <= k < logs.len() ==> read(#[trigger] logs[k]) is Some,
        compressible(synctex.filter_map(readable_synctex(read)), native),
    ensures
        replacements(postprocess_begun(logs, fls, synctex), read, known, native)
            == logs.filter_map(log_change(read, known)) + synctex.filter_map(
            readable_synctex(read),
        ).filter_map(synctex_change(native)),
{
    let state = postprocess_begun(logs, fls, synctex);
    if logs.len() == 0 && synctex.len() == 0 {
        lemma_filter_map_empty(logs, log_change(read, known));
        lemma_filter_map_empty(synctex, readable_synctex(read));
        lemma_filter_map_empty(
            synctex.filter_map(readable_synctex(read)),
            synctex_change(native),
        );
        assert(replacements(state, read, known, native) =~= logs.filter_map(
            log_change(read, known),
        ) + synctex.filter_map(readable_synctex(read)).filter_map(synctex_change(native)));
    } else {
        lemma_replacements_after_fls(state, 0, read, known, native);
    }
}

/// The state once all recorder files and SyncTeX files have been read, where `read`
/// says what files hold.
pub open spec fn all_read(
    state: PostprocessState,
    read: spec_fn(Seq<u8>) -> Option<Seq<u8>>,
) -> PostprocessState
    decreases tasks_left(state),
{
    let next = match state.phase {
        PhaseState::Fls(i) => after_fls(state, read(state.fls[i])),
        PhaseState::Synctex(i) => after_synctex(state, read(state.synctex[i])),
        _ => state,
    };
    if 0 <= tasks_left(next) < tasks_left(state) {
        all_read(next, read)
    } else {
        state
    }
}

/// The paths of a recorder file, as a function of its name; none where it cannot be
/// read.
pub open spec fn recorded_in(
    read: spec_fn(Seq<u8>) -> Option<Seq<u8>>,
) -> spec_fn(Seq<u8>) -> Seq<Seq<u8>> {
    |name: Seq<u8>|
        match read(name) {
            Some(text) => pieces(text).filter_map(fls_record()),
            None => Seq::empty(),
        }
}

/// The paths of a SyncTeX file, as a function of its name; none where it cannot be
/// read.
pub open spec fn named_in(
    read: spec_fn(Seq<u8>) -> Option<Seq<u8>>,
) -> spec_fn(Seq<u8>) -> Seq<Seq<u8>> {
    |name: Seq<u8>|
        match readable_synctex(read)(name) {
            Some(file) => pieces(file.contents).filter_map(synctex_record()),
            None => Seq::empty(),
        }
}

proof fn lemma_flat_map_first(list: Seq<Seq<u8>>, f: spec_fn(Seq<u8>) -> Seq<Seq<u8>>)
    requires
        list.len() > 0,
    ensures
        list.flat_map(f) == f(list[0]) + list.drop_first().flat_map(f),
{
    let mapped = list.map_values(f);
    assert(mapped.first() == f(list[0]));
    assert(mapped.drop_first() =~= list.drop_first().map_values(f));
}

proof fn lemma_flat_map_empty(list: Seq<Seq<u8>>, f: spec_fn(Seq<u8>) -> Seq<Seq<u8>>)
    requires
        list.len() == 0,
    ensures
        list.flat_map(f) == Seq::<Seq<u8>>::empty(),
{
    assert(list.map_values(f) =~= Seq::<Seq<Seq<u8>>>::empty());
}

proof fn lemma_flat_map_holds(
    list: Seq<Seq<u8>>,
    f: spec_fn(Seq<u8>) -> Seq<Seq<u8>>,
    k: int,
    path: Seq<u8>,
)
    requires
        0 <= k < list.len(),
        f(list[k]).contains(path),
    ensures
        list.flat_map(f).contains(path),
    decreases k,
{
    lemma_flat_map_first(list, f);
    let all = list.flat_map(f);
    let first = f(list[0]);
    if k == 0 {
        let i = choose|i: int| 0 <= i < first.len() && first[i] == path;
        assert(all[i] == path);
    } else {
        let rest = list.drop_first();
        assert(rest[k - 1] == list[k]);
        lemma_flat_map_holds(rest, f, k - 1, path);
        let later = rest.flat_map(f);
        let i = choose|i: int| 0 <= i < later.len() && later[i] == path;
        assert(all[first.len() + i] == path);
    }
}

proof fn lemma_synctex_read_from(
    state: PostprocessState,
    i: int,
    read: spec_fn(Seq<u8>) -> Option<Seq<u8>>,
)
    requires
        0 <= i <= state.synctex.len(),
        state.phase == synctex_phase(state, i),
    ensures
        ({
            let end = all_read(state, read);
            &&& end.phase == PhaseState::Convert
            &&& end.logs == state.logs
            &&& end.paths == state.paths + state.synctex.skip(i).flat_map(named_in(read))
            &&& end.files == state.files + state.synctex.skip(i).filter_map(
                readable_synctex(read),
            )
        }),
    decreases state.synctex.len() - i,
{
    let rest = state.synctex.skip(i);
    let f = readable_synctex(read);
    let g = named_in(read);
    if i == state.synctex.len() {
        lemma_filter_map_empty(rest, f);
        lemma_flat_map_empty(rest, g);
        assert(state.paths + Seq::<Seq<u8>>::empty() =~= state.paths);
        assert(state.files + Seq::<SynctexState>::empty() =~= state.files);
    } else {
        let next = after_synctex(state, read(state.synctex[i]));
        law_postprocessing_ends(state, read(state.synctex[i]), true, Seq::empty(), Map::empty());
        law_postprocessing_ends(next, None, true, Seq::empty(), Map::empty());
        assert(rest[0] == state.synctex[i]);
        assert(rest.drop_first() =~= state.synctex.skip(i + 1));
        lemma_filter_map_first(rest, f);
        lemma_flat_map_first(rest, g);
        lemma_synctex_read_from(next, i + 1, read);
        let later = rest.drop_first().flat_map(g);
        let more = rest.drop_first().filter_map(f);
        assert(next.paths =~= state.paths + g(rest[0]));
        assert((state.paths + g(rest[0])) + later =~= state.paths + (g(rest[0]) + later));
        match f(rest[0]) {
            Some(file) => {
                assert(next.files =~= state.files.push(file));
                assert(next.files + more =~= state.files + (seq![file] + more));
            },
            None => {
                assert(next.files =~= state.files);
            },
        }
    }
}

proof fn lemma_fls_read_from(
    state: PostprocessState,
    i: int,
    read: spec_fn(Seq<u8>) -> Option<Seq<u8>>,
)
    requires
        0 <= i <= state.fls.len(),
        state.phase == fls_phase(state, i),
    ensures
        ({
            let end = all_read(state, read);
            &&& end.phase == PhaseState::Convert
            &&& end.logs == state.logs
            &&& end.paths == state.paths + state.fls.skip(i).flat_map(recorded_in(read))
                + state.synctex.flat_map(named_in(read))
            &&& end.files == state.files + state.synctex.filter_map(readable_synctex(read))
        }),
    decreases state.fls.len() - i,
{
    let rest = state.fls.skip(i);
    let g = recorded_in(read);
    if i == state.fls.len() {
        lemma_flat_map_empty(rest, g);
        assert(state.synctex.skip(0) =~= state.synctex);
        lemma_synctex_read_from(state, 0, read);
        assert(state.paths + Seq::<Seq<u8>>::empty() =~= state.paths);
    } else {
        let next = after_fls(state, read(state.fls[i]));
        law_postprocessing_ends(state, read(state.fls[i]), true, Seq::empty(), Map::empty());
        law_postprocessing_ends(next, None, true, Seq::empty(), Map::empty());
        assert(rest[0] == state.fls[i]);
        assert(rest.drop_first() =~= state.fls.skip(i + 1));
        lemma_flat_map_first(rest, g);
        lemma_fls_read_from(next, i + 1, read);
        let later = rest.drop_first().flat_map(g);
        assert(next.paths =~= state.paths + g(rest[0]));
        assert((state.paths + g(rest[0])) + later =~= state.paths + (g(rest[0]) + later));
    }
}

/// What has been gathered once all files have been read: the paths of all recorder
/// files and then those of all SyncTeX files that could be read, file by file and
/// record by record, and nothing else; and every SyncTeX file that could be read,
/// with what it holds.
pub proof fn law_all_paths_of_all_files_are_gathered(
    logs: Seq<Seq<u8>>,
    fls: Seq<Seq<u8>>,
    synctex: Seq<Seq<u8>>,
    read: spec_fn(Seq<u8>) -> Option<Seq<u8>>,
)
    requires
        logs.len() > 0 || synctex.len() > 0,
    ensures
        ({
            let end = all_read(postprocess_begun(logs, fls, synctex), read);
            &&& end.phase == PhaseState::Convert
            &&& end.logs == logs
            &&& end.paths == fls.flat_map(recorded_in(read)) + synctex.flat_map(named_in(read))
            &&& end.files == synctex.filter_map(readable_synctex(read))
        }),
{
    let state = postprocess_begun(logs, fls, synctex);
    assert(state.fls.skip(0) =~= state.fls);
    lemma_fls_read_from(state, 0, read);
    let found = fls.flat_map(recorded_in(read));
    assert(state.paths + found =~= found);
    assert(state.files + synctex.filter_map(readable_synctex(read)) =~= synctex.filter_map(
        readable_synctex(read),
    ));
}

/// Every absolute path in an `Input` record of a SyncTeX file that could be read is
/// among the paths that are gathered, and so is every one in an `INPUT` or `OUTPUT`
/// record of a recorder file; it takes no recorder file to get those of a SyncTeX
/// file. Each of them is then handed to cygpath, unless it is known.
pub proof fn law_paths_in_records_are_gathered(
    logs: Seq<Seq<u8>>,
    fls: Seq<Seq<u8>>,
    synctex: Seq<Seq<u8>>,
    read: spec_fn(Seq<u8>) -> Option<Seq<u8>>,
    known: Map<Seq<u8>, Seq<u8>>,
    k: int,
    tag: Seq<u8>,
    path: Seq<u8>,
    contents: Seq<u8>,
)
    requires
        logs.len() > 0 || synctex.len() > 0,
        path.len() > 0,
        path[0] == 0x2f,
        path.last() != 0x0d,
        forall|i: int| 0 <= i < tag.len() ==> #[trigger] tag[i] != 0x3a,
    ensures
        ({
            let gathered = all_read(postprocess_begun(logs, fls, synctex), read).paths;
            let in_synctex = 0 <= k < synctex.len() && read(synctex[k]) is Some && (if is_compressed(
                synctex[k],
            ) {
                gunzipped(read(synctex[k])->0)
            } else {
                read(synctex[k])
            }) == Some(contents) && (pieces(contents).contains(input_record(tag, path)) || pieces(
                contents,
            ).contains(input_record(tag, path).push(0x0d)));
            let in_fls = 0 <= k < fls.len() && read(fls[k]) == Some(contents) && (pieces(
                contents,
            ).contains("INPUT ".spec_bytes() + path) || pieces(contents).contains(
                "OUTPUT ".spec_bytes() + path,
            ));
            in_synctex || in_fls ==> gathered.contains(path) && (known.contains_key(path)
                || unseen(gathered, known).contains(path))
        }),
{
    let gathered = all_read(postprocess_begun(logs, fls, synctex), read).paths;
    law_all_paths_of_all_files_are_gathered(logs, fls, synctex, read);
    let first = fls.flat_map(recorded_in(read));
    let second = synctex.flat_map(named_in(read));
    law_synctex_records(tag, path, Seq::empty());
    law_recorder_records(path, Seq::empty());
    let record = input_record(tag, path);
    if 0 <= k < synctex.len() && read(synctex[k]) is Some && decoded(
        is_compressed(synctex[k]),
        read(synctex[k])->0,
    ) == Some(contents) && (pieces(contents).contains(record) || pieces(contents).contains(
        record.push(0x0d),
    )) {
        if pieces(contents).contains(record) {
            lemma_filter_map_holds(pieces(contents), synctex_record(), record);
        } else {
            lemma_filter_map_holds(pieces(contents), synctex_record(), record.push(0x0d));
        }
        lemma_flat_map_holds(synctex, named_in(read), k, path);
        let i = choose|i: int| 0 <= i < second.len() && second[i] == path;
        assert(gathered[first.len() + i] == path);
    }
    let input = "INPUT ".spec_bytes() + path;
    let output = "OUTPUT ".spec_bytes() + path;
    if 0 <= k < fls.len() && read(fls[k]) == Some(contents) && (pieces(contents).contains(input)
        || pieces(contents).contains(output)) {
        if pieces(contents).contains(input) {
            lemma_filter_map_holds(pieces(contents), fls_record(), input);
        } else {
            lemma_filter_map_holds(pieces(contents), fls_record(), output);
        }
        lemma_flat_map_holds(fls, recorded_in(read), k, path);
        let i = choose|i: int| 0 <= i < first.len() && first[i] == path;
        assert(gathered[i] == path);
    }
    law_unseen_paths(gathered, known);
}

/// After a run whose paths could be converted, a SyncTeX file that it wrote is
/// rewritten so that no record of it names a POSIX path: the paths of the file are
/// among those that were gathered, so that each of them has a native form. This
/// holds with recorder files and without.
pub proof fn law_written_synctex_files_end_up_native(
    logs: Seq<Seq<u8>>,
    fls: Seq<Seq<u8>>,
    synctex: Seq<Seq<u8>>,
    read: spec_fn(Seq<u8>) -> Option<Seq<u8>>,
    known: Map<Seq<u8>, Seq<u8>>,
    windows_paths: Seq<Seq<u8>>,
    k: int,
    contents: Seq<u8>,
)
    requires
        0 <= k < synctex.len(),
        read(synctex[k]) is Some,
        decoded(is_compressed(synctex[k]), read(synctex[k])->0) == Some(contents),
        single_carriage_returns(contents),
        ({
            let gathered = all_read(postprocess_begun(logs, fls, synctex), read).paths;
            let native = extended(known, zipped(unseen(gathered, known), windows_paths));
            &&& windows_paths.len() == unseen(gathered, known).len()
            &&& forall|path: Seq<u8>| #[trigger]
                native.contains_key(path) ==> !native[path].contains(0x0a) && !(native[path].len()
                    > 0 && native[path][0] == 0x2f)
        }),
    ensures
        ({
            let end = all_read(postprocess_begun(logs, fls, synctex), read);
            let native = extended(known, zipped(unseen(end.paths, known), windows_paths));
            &&& end.files.contains(
                SynctexState {
                    path: synctex[k],
                    contents,
                    compressed: is_compressed(synctex[k]),
                },
            )
            &&& forall|i: int|
                0 <= i < pieces(rewritten_synctex(contents, native)).len() ==> !names_posix_path(
                    #[trigger] pieces(rewritten_synctex(contents, native))[i],
                )
        }),
{
    let end = all_read(postprocess_begun(logs, fls, synctex), read);
    let gathered = end.paths;
    let native = extended(known, zipped(unseen(gathered, known), windows_paths));
    law_all_paths_of_all_files_are_gathered(logs, fls, synctex, read);
    let first = fls.flat_map(recorded_in(read));
    let second = synctex.flat_map(named_in(read));
    lemma_filter_map_holds(synctex, readable_synctex(read), synctex[k]);
    assert forall|path: Seq<u8>| #[trigger]
        pieces(contents).filter_map(synctex_record()).contains(path) implies gathered.contains(
        path,
    ) by {
        lemma_flat_map_holds(synctex, named_in(read), k, path);
        let i = choose|i: int| 0 <= i < second.len() && second[i] == path;
        assert(gathered[first.len() + i] == path);
    }
    law_synctex_ends_up_native(contents, gathered, known, windows_paths);
    let after = pieces(rewritten_synctex(contents, native));
    assert forall|i: int| 0 <= i < after.len() implies !names_posix_path(#[trigger] after[i]) by {
        if names_posix_path(after[i]) {
            lemma_posix_path_is_taken(after[i]);
            assert(after.contains(after[i]));
            lemma_filter_map_holds(after, synctex_record(), after[i]);
        }
    }
}

/// Once the paths have been learned, all logs are read in turn and then all SyncTeX
/// files are rewritten, whether paths had to be converted or not.
pub proof fn law_rewriting_follows_the_conversion(
    state: PostprocessState,
    native: Map<Seq<u8>, Seq<u8>>,
)
    requires
        state.phase == PhaseState::Convert,
    ensures
        state.logs.len() > 0 ==> after_conversion(state, true, native).phase == PhaseState::Log(0),
        after_conversion(state, true, native).files == state.files,
        after_conversion(state, true, native).logs == state.logs,
        after_conversion(state, false, native).phase == PhaseState::Failed(false),
{
}

/// Where a run has written no log and no SyncTeX file, nothing is done at all, even
/// where there are recorder files. Otherwise the recorder files are read first, then
/// the SyncTeX files, each in turn.
pub proof fn law_nothing_is_done_for_nothing(
    logs: Seq<Seq<u8>>,
    fls: Seq<Seq<u8>>,
    synctex: Seq<Seq<u8>>,
)
    ensures
        ({
            let begun = postprocess_begun(logs, fls, synctex);
            &&& begun.logs == logs && begun.fls == fls && begun.synctex == synctex
            &&& begun.paths.len() == 0 && begun.files.len() == 0
            &&& logs.len() == 0 && synctex.len() == 0 <==> begun.phase == PhaseState::Done
            &&& (logs.len() > 0 || synctex.len() > 0) && fls.len() > 0 ==> begun.phase
                == PhaseState::Fls(0)
            &&& synctex.len() > 0 && fls.len() == 0 ==> begun.phase == PhaseState::Synctex(0)
            &&& logs.len() > 0 && synctex.len() == 0 && fls.len() == 0 ==> begun.phase
                == PhaseState::Convert
        }),
{
}

/// What fails ends post-processing: a conversion, a log that cannot be read, a file
/// that cannot be replaced, and a SyncTeX file that changes and cannot be compressed
/// again.
pub proof fn law_failures_are_not_passed_over(
    state: PostprocessState,
    known: Seq<(Seq<u8>, Seq<u8>)>,
    native: Map<Seq<u8>, Seq<u8>>,
    k: int,
)
    ensures
        state.phase is Convert ==> after_conversion(state, false, native).phase is Failed,
        state.phase is Log ==> after_log(state, None, known, native).phase is Failed,
        state.phase is LogReady || state.phase is SynctexReady ==> after_replacement(
            state,
            false,
            native,
        ).phase is Failed,
        0 <= k < state.files.len() && rewritten_synctex(state.files[k].contents, native)
            != state.files[k].contents && state.files[k].compressed && gzipped(
            rewritten_synctex(state.files[k].contents, native),
        ) is None ==> rewriting_phase(state.files, k, native) is Failed,
{
}

/// Post-processing is about the files that it is given, all of them and in their
/// order.
pub proof fn law_all_given_files_are_processed(files: Seq<&WatchedFile>, k: int)
    ensures
        watched_paths(files).len() == files.len(),
        0 <= k < files.len() ==> watched_paths(files)[k] == files[k].path@,
{
}

} // verus!
