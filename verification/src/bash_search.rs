//! The search for Cygwin's Bash.
//!
//! The candidates are decided on here. What is on the disk, and what a
//! `cygpath.exe` says, is for the caller to find out: it asks for the next
//! question and hands back the answer, until Bash is found or the search has
//! failed.
use vstd::prelude::*;
use vstd::string::*;
use vstd::utf8::*;
use crate::bytes::{append, copy, views};
use crate::diagnostics::{
    content_end, find_content_end, law_content_ends_before_the_line_breaks,
};
use crate::invocation::optional_view;
use crate::lists::{lemma_filter_map_empty, lemma_filter_map_first};
use crate::native_path::{join, joined, parent, parent_of};
use crate::os_text::{lossy, to_lossy};
use crate::text::string_views;

verus! {

/// The variable that names Bash outright.
pub const BASH_VARIABLE: &'static str = "CYGSHIM_BASH";

/// Where Cygwin is installed by default.
pub const CONVENTIONAL_64: &'static str = r"C:\cygwin64\bin\bash.exe";

/// Where an older Cygwin is installed by default.
pub const CONVENTIONAL_32: &'static str = r"C:\cygwin\bin\bash.exe";

/// Why there is no Bash to run.
pub enum BashError {
    /// None of the candidates is Cygwin's.
    Missing,
    /// What a variable names is not Cygwin's.
    Invalid(String, Vec<u8>),
}

/// The text of an error, in UTF-8.
pub open spec fn error_text(error: BashError) -> Seq<u8> {
    match error {
        BashError::Missing =>
            "could not find Cygwin bash.exe; put Cygwin's bin directory on PATH or set CYGSHIM_BASH".spec_bytes(),
        BashError::Invalid(variable, path) => encode_utf8(variable@)
            + " does not identify Cygwin bash.exe: ".spec_bytes() + lossy(path@),
    }
}

impl BashError {
    /// The text of the error, in UTF-8.
    pub fn message(&self) -> (r: Vec<u8>)
        ensures
            r@ == error_text(*self),
    {
        match self {
            BashError::Missing =>
                "could not find Cygwin bash.exe; put Cygwin's bin directory on PATH or set CYGSHIM_BASH".as_bytes_vec(),
            BashError::Invalid(variable, path) => {
                let mut r: Vec<u8> = variable.as_str().as_bytes_vec();
                append(&mut r, " does not identify Cygwin bash.exe: ".as_bytes());
                append(&mut r, to_lossy(path.as_slice()).as_slice());
                r
            },
        }
    }
}

/// The library that is beside Cygwin's Bash, and not beside another one.
pub open spec fn dll_beside(path: Seq<u8>) -> Option<Seq<u8>> {
    match parent_of(path) {
        Some(directory) => Some(joined(directory, "cygwin1.dll".spec_bytes())),
        None => None,
    }
}

/// The library that is beside Cygwin's Bash, and not beside another one.
pub fn cygwin_dll(path: &[u8]) -> (r: Option<Vec<u8>>)
    ensures
        match r {
            Some(dll) => dll_beside(path@) == Some(dll@),
            None => dll_beside(path@) is None,
        },
{
    match parent(path) {
        Some(directory) => Some(join(directory.as_slice(), "cygwin1.dll".as_bytes())),
        None => None,
    }
}

/// Whether a path names Cygwin's Bash: it is a file, and so is Cygwin's library
/// beside it.
pub fn is_cygwin_bash(path: &[u8], is_file: bool, dll_is_file: bool) -> (r: bool)
    ensures
        r == (is_file && dll_beside(path@) is Some && dll_is_file),
{
    is_file && parent(path).is_some() && dll_is_file
}

/// A path that a variable names, if it is that of Cygwin's Bash.
pub fn validate_bash(path: Vec<u8>, variable: &str, is_cygwin: bool) -> (r: Result<
    Vec<u8>,
    BashError,
>)
    ensures
        match r {
            Ok(bash) => is_cygwin && bash == path,
            Err(BashError::Invalid(name, rejected)) => !is_cygwin && name@ == variable@ && rejected
                == path,
            Err(BashError::Missing) => false,
        },
{
    if is_cygwin {
        Ok(path)
    } else {
        Err(BashError::Invalid(variable.to_owned(), path))
    }
}

/// Reads bytes as text with `std::str::from_utf8`, which succeeds just where
/// they are valid UTF-8, and then gives the text that they encode.
#[verifier::external_body]
fn utf8_text(bytes: &[u8]) -> (r: Option<&str>)
    ensures
        match r {
            Some(text) => valid_utf8(bytes@) && text.spec_bytes() == bytes@,
            None => !valid_utf8(bytes@),
        },
{
    std::str::from_utf8(bytes).ok()
}

/// The root directory that a `cygpath.exe` printed, without the line break after
/// it. One that fails, prints nothing or prints no UTF-8 names none.
pub open spec fn cygwin_root(success: bool, stdout: Seq<u8>) -> Option<Seq<u8>> {
    if success && valid_utf8(stdout) && content_end(stdout) > 0 {
        Some(stdout.take(content_end(stdout)))
    } else {
        None
    }
}

/// The root directory that a `cygpath.exe` printed.
pub fn cygwin_root_from_cygpath(success: bool, stdout: &[u8]) -> (r: Option<Vec<u8>>)
    ensures
        match r {
            Some(root) => cygwin_root(success, stdout@) == Some(root@),
            None => cygwin_root(success, stdout@) is None,
        },
{
    if !success {
        return None;
    }
    match utf8_text(stdout) {
        Some(text) => {
            let bytes: &[u8] = text.as_bytes();
            let end: usize = find_content_end(bytes);
            if end == 0 {
                return None;
            }
            let root: Vec<u8> = vstd::slice::slice_to_vec(
                vstd::slice::slice_subrange(bytes, 0, end),
            );
            assert(root@ =~= stdout@.take(end as int));
            Some(root)
        },
        None => None,
    }
}

/// The `cygpath.exe` of a directory.
pub open spec fn cygpath_in(directory: Seq<u8>) -> Seq<u8> {
    joined(directory, "cygpath.exe".spec_bytes())
}

/// The `bash.exe` of a directory.
pub open spec fn bash_in(directory: Seq<u8>) -> Seq<u8> {
    joined(directory, "bash.exe".spec_bytes())
}

/// The `bash.exe` of an installation of Cygwin.
pub open spec fn bash_under(root: Seq<u8>) -> Seq<u8> {
    bash_in(joined(root, "bin".spec_bytes()))
}

/// Where a search is.
pub enum Place {
    /// Is there a `cygpath.exe` in the directory of this number?
    Cygpath(usize),
    /// What root does the `cygpath.exe` in the directory of this number name?
    Root(usize),
    /// Is there a file of this path? If it is not Cygwin's Bash, the search goes
    /// on with the candidate of the number; it ends where there is no number.
    Bash(Vec<u8>, Option<u128>),
    /// Is Cygwin's library beside this file?
    Dll(Vec<u8>, Option<u128>),
    /// This is Cygwin's Bash.
    Found(Vec<u8>),
    /// There is no candidate left.
    Missing,
    /// What the variable names is not Cygwin's Bash.
    Rejected(Vec<u8>),
}

/// Where a search is, as values.
#[verifier::ext_equal]
pub enum PlaceState {
    Cygpath(int),
    Root(int),
    Bash(Seq<u8>, Option<int>),
    Dll(Seq<u8>, Option<int>),
    Found(Seq<u8>),
    Missing,
    Rejected(Seq<u8>),
}

/// A number that may be missing.
pub open spec fn optional_int(n: Option<u128>) -> Option<int> {
    match n {
        Some(x) => Some(x as int),
        None => None,
    }
}

impl View for Place {
    type V = PlaceState;

    open spec fn view(&self) -> PlaceState {
        match self {
            Place::Cygpath(i) => PlaceState::Cygpath(*i as int),
            Place::Root(i) => PlaceState::Root(*i as int),
            Place::Bash(path, next) => PlaceState::Bash(path@, optional_int(*next)),
            Place::Dll(path, next) => PlaceState::Dll(path@, optional_int(*next)),
            Place::Found(path) => PlaceState::Found(path@),
            Place::Missing => PlaceState::Missing,
            Place::Rejected(path) => PlaceState::Rejected(path@),
        }
    }
}

/// The candidate of a number: those from the `cygpath.exe` of each directory,
/// then the `bash.exe` of each, then the conventional ones.
pub open spec fn place_at(directories: Seq<Seq<u8>>, k: int) -> PlaceState {
    let n = directories.len() as int;
    if k < n {
        PlaceState::Cygpath(k)
    } else if k < 2 * n {
        PlaceState::Bash(bash_in(directories[k - n]), Some(k + 1))
    } else if k == 2 * n {
        PlaceState::Bash(CONVENTIONAL_64.spec_bytes(), Some(k + 1))
    } else if k == 2 * n + 1 {
        PlaceState::Bash(CONVENTIONAL_32.spec_bytes(), Some(k + 1))
    } else {
        PlaceState::Missing
    }
}

/// Where a search goes on after a candidate that is not Cygwin's Bash.
pub open spec fn place_after(
    directories: Seq<Seq<u8>>,
    path: Seq<u8>,
    next: Option<int>,
) -> PlaceState {
    match next {
        Some(k) => place_at(directories, k),
        None => PlaceState::Rejected(path),
    }
}

/// Where a search begins.
pub open spec fn first_place(
    directories: Seq<Seq<u8>>,
    variable: Option<Seq<u8>>,
) -> PlaceState {
    match variable {
        Some(path) => PlaceState::Bash(path, None),
        None => place_at(directories, 0),
    }
}

/// The file that a search asks about.
pub open spec fn asked_file(directories: Seq<Seq<u8>>, place: PlaceState) -> Option<Seq<u8>> {
    match place {
        PlaceState::Cygpath(i) => Some(cygpath_in(directories[i])),
        PlaceState::Bash(path, _) => Some(path),
        PlaceState::Dll(path, _) => dll_beside(path),
        _ => None,
    }
}

/// The `cygpath.exe` that a search asks for its root.
pub open spec fn asked_root(directories: Seq<Seq<u8>>, place: PlaceState) -> Option<Seq<u8>> {
    match place {
        PlaceState::Root(i) => Some(cygpath_in(directories[i])),
        _ => None,
    }
}

/// Where a search is after it was told whether a file is there.
pub open spec fn after_file(
    directories: Seq<Seq<u8>>,
    place: PlaceState,
    is_file: bool,
) -> PlaceState {
    match place {
        PlaceState::Cygpath(i) => if is_file {
            PlaceState::Root(i)
        } else {
            place_at(directories, i + 1)
        },
        PlaceState::Bash(path, next) => if is_file && dll_beside(path) is Some {
            PlaceState::Dll(path, next)
        } else {
            place_after(directories, path, next)
        },
        PlaceState::Dll(path, next) => if is_file {
            PlaceState::Found(path)
        } else {
            place_after(directories, path, next)
        },
        _ => place,
    }
}

/// Where a search is after it was told the root of an installation.
pub open spec fn after_root(
    directories: Seq<Seq<u8>>,
    place: PlaceState,
    root: Option<Seq<u8>>,
) -> PlaceState {
    match place {
        PlaceState::Root(i) => match root {
            Some(directory) => PlaceState::Bash(bash_under(directory), Some(i + 1)),
            None => place_at(directories, i + 1),
        },
        _ => place,
    }
}

/// The arguments with which `cygpath.exe` is asked for the root of its
/// installation. They name the encoding in which the answer is read.
pub fn root_arguments() -> (r: Vec<String>)
    ensures
        string_views(r@) == seq!["-C"@, "UTF8"@, "-w"@, "/"@],
{
    let r: Vec<String> = vec![
        "-C".to_owned(),
        "UTF8".to_owned(),
        "-w".to_owned(),
        "/".to_owned(),
    ];
    assert(string_views(r@) =~= seq!["-C"@, "UTF8"@, "-w"@, "/"@]);
    r
}

/// What a search has to know next.
pub enum Question {
    /// Whether there is a file of this path.
    IsFile(Vec<u8>),
    /// What the `cygpath.exe` of this path prints when asked for the root.
    Root(Vec<u8>),
    /// Nothing: this is Bash.
    Found(Vec<u8>),
    /// Nothing: the search has failed.
    Failed(BashError),
}

/// A search under way.
pub struct BashSearch {
    directories: Vec<Vec<u8>>,
    place: Place,
}

impl BashSearch {
    /// The directories that are searched.
    pub closed spec fn directories(&self) -> Seq<Seq<u8>> {
        views(self.directories@)
    }

    /// Where the search is.
    pub closed spec fn place(&self) -> PlaceState {
        self.place@
    }

    /// The numbers in the place are those of directories and candidates.
    pub closed spec fn wf(&self) -> bool {
        let n = self.directories@.len();
        match self.place {
            Place::Cygpath(i) => i < n,
            Place::Root(i) => i < n,
            Place::Bash(_, Some(k)) => k <= 2 * n + 2,
            Place::Dll(path, Some(k)) => k <= 2 * n + 2 && dll_beside(path@) is Some,
            Place::Dll(path, None) => dll_beside(path@) is Some,
            _ => true,
        }
    }

    /// The candidate of a number.
    fn candidate(directories: &Vec<Vec<u8>>, k: u128) -> (r: Place)
        requires
            k <= 2 * directories@.len() + 2,
        ensures
            r@ == place_at(views(directories@), k as int),
            match r {
                Place::Cygpath(i) => i < directories@.len(),
                Place::Bash(_, Some(next)) => next <= 2 * directories@.len() + 2,
                Place::Missing => true,
                _ => false,
            },
    {
        let n: u128 = directories.len() as u128;
        if k < n {
            Place::Cygpath(k as usize)
        } else if k < 2 * n {
            let i: usize = (k - n) as usize;
            assert(views(directories@)[k - n] == directories@[i as int]@);
            Place::Bash(join(directories[i].as_slice(), "bash.exe".as_bytes()), Some(k + 1))
        } else if k == 2 * n {
            Place::Bash(CONVENTIONAL_64.as_bytes_vec(), Some(k + 1))
        } else if k == 2 * n + 1 {
            Place::Bash(CONVENTIONAL_32.as_bytes_vec(), Some(k + 1))
        } else {
            Place::Missing
        }
    }

    /// What the search has to know next.
    pub fn question(&self) -> (r: Question)
        requires
            self.wf(),
        ensures
            match r {
                Question::IsFile(path) => asked_file(self.directories(), self.place()) == Some(
                    path@,
                ),
                Question::Root(path) => asked_root(self.directories(), self.place()) == Some(path@),
                Question::Found(path) => self.place() == PlaceState::Found(path@),
                Question::Failed(BashError::Missing) => self.place() == PlaceState::Missing,
                Question::Failed(BashError::Invalid(variable, path)) => variable@ == BASH_VARIABLE@
                    && self.place() == PlaceState::Rejected(path@),
            },
    {
        match &self.place {
            Place::Cygpath(i) => {
                assert(self.directories()[*i as int] == self.directories@[*i as int]@);
                Question::IsFile(join(self.directories[*i].as_slice(), "cygpath.exe".as_bytes()))
            },
            Place::Root(i) => {
                assert(self.directories()[*i as int] == self.directories@[*i as int]@);
                Question::Root(join(self.directories[*i].as_slice(), "cygpath.exe".as_bytes()))
            },
            Place::Bash(path, _) => Question::IsFile(copy(path)),
            Place::Dll(path, _) => {
                match cygwin_dll(path.as_slice()) {
                    Some(dll) => Question::IsFile(dll),
                    None => Question::Failed(BashError::Missing),
                }
            },
            Place::Found(path) => Question::Found(copy(path)),
            Place::Missing => Question::Failed(BashError::Missing),
            Place::Rejected(path) => match validate_bash(copy(path), BASH_VARIABLE, false) {
                Ok(bash) => Question::Found(bash),
                Err(error) => Question::Failed(error),
            },
        }
    }

    /// Where the search goes on after a candidate that is not Cygwin's Bash.
    fn go_on(directories: &Vec<Vec<u8>>, path: Vec<u8>, next: Option<u128>) -> (r: Place)
        requires
            next matches Some(k) ==> k <= 2 * directories@.len() + 2,
        ensures
            r@ == place_after(views(directories@), path@, optional_int(next)),
            match r {
                Place::Cygpath(i) => i < directories@.len(),
                Place::Bash(_, Some(k)) => k <= 2 * directories@.len() + 2,
                Place::Missing => true,
                Place::Rejected(_) => true,
                _ => false,
            },
    {
        match next {
            Some(k) => Self::candidate(directories, k),
            None => Place::Rejected(path),
        }
    }

    /// Takes in whether the file that was asked about is there.
    pub fn answer_file(self, is_file: bool) -> (r: Self)
        requires
            self.wf(),
        ensures
            r.wf(),
            r.directories() == self.directories(),
            r.place() == after_file(self.directories(), self.place(), is_file),
    {
        let directories: Vec<Vec<u8>> = self.directories;
        let place: Place = match self.place {
            Place::Cygpath(i) => if is_file {
                Place::Root(i)
            } else {
                Self::candidate(&directories, i as u128 + 1)
            },
            Place::Bash(path, next) => if is_file && cygwin_dll(path.as_slice()).is_some() {
                Place::Dll(path, next)
            } else {
                Self::go_on(&directories, path, next)
            },
            Place::Dll(path, next) => if is_cygwin_bash(path.as_slice(), true, is_file) {
                Place::Found(path)
            } else {
                Self::go_on(&directories, path, next)
            },
            place => place,
        };
        BashSearch { directories, place }
    }

    /// Takes in what the `cygpath.exe` that was asked for its root did.
    pub fn answer_root(self, success: bool, stdout: &[u8]) -> (r: Self)
        requires
            self.wf(),
        ensures
            r.wf(),
            r.directories() == self.directories(),
            r.place() == after_root(
                self.directories(),
                self.place(),
                cygwin_root(success, stdout@),
            ),
    {
        let directories: Vec<Vec<u8>> = self.directories;
        let place: Place = match self.place {
            Place::Root(i) => match cygwin_root_from_cygpath(success, stdout) {
                Some(root) => {
                    let bin: Vec<u8> = join(root.as_slice(), "bin".as_bytes());
                    Place::Bash(join(bin.as_slice(), "bash.exe".as_bytes()), Some(i as u128 + 1))
                },
                None => Self::candidate(&directories, i as u128 + 1),
            },
            place => place,
        };
        BashSearch { directories, place }
    }
}

/// Begins to search for Bash in a Cygwin installation, rejecting Bash from other
/// environments, given what the variable names and the directories in which
/// programs are searched for.
pub fn find_bash(variable: Option<Vec<u8>>, directories: Vec<Vec<u8>>) -> (r: BashSearch)
    ensures
        r.wf(),
        r.directories() == views(directories@),
        r.place() == first_place(views(directories@), optional_view(variable)),
{
    let place: Place = match variable {
        Some(path) => Place::Bash(path, None),
        None => BashSearch::candidate(&directories, 0),
    };
    BashSearch { directories, place }
}

/// What a search can find out: which paths are files, and which roots the
/// programs named `cygpath.exe` print.
pub struct World {
    pub is_file: spec_fn(Seq<u8>) -> bool,
    pub root: spec_fn(Seq<u8>) -> Option<Seq<u8>>,
}

/// Whether a path names Cygwin's Bash.
pub open spec fn is_cygwin(path: Seq<u8>, world: World) -> bool {
    (world.is_file)(path) && (dll_beside(path) matches Some(dll) && (world.is_file)(dll))
}

/// The candidate that the `cygpath.exe` of a directory leads to.
pub open spec fn cygpath_candidate(world: World) -> spec_fn(Seq<u8>) -> Option<Seq<u8>> {
    |directory: Seq<u8>|
        if (world.is_file)(cygpath_in(directory)) {
            match (world.root)(cygpath_in(directory)) {
                Some(root) => Some(bash_under(root)),
                None => None,
            }
        } else {
            None
        }
}

/// All candidates in the order in which they are preferred: those that a
/// `cygpath.exe` leads to, those in the directories themselves, and those where
/// Cygwin is installed by default.
pub open spec fn candidates(directories: Seq<Seq<u8>>, world: World) -> Seq<Seq<u8>> {
    directories.filter_map(cygpath_candidate(world)) + directories.map_values(
        |directory: Seq<u8>| bash_in(directory),
    ) + seq![CONVENTIONAL_64.spec_bytes(), CONVENTIONAL_32.spec_bytes()]
}

/// The first of a list of paths that names Cygwin's Bash.
pub open spec fn first_cygwin(paths: Seq<Seq<u8>>, world: World) -> Option<Seq<u8>>
    decreases paths.len(),
{
    if paths.len() == 0 {
        None
    } else if is_cygwin(paths[0], world) {
        Some(paths[0])
    } else {
        first_cygwin(paths.drop_first(), world)
    }
}

/// How many questions a search may still ask, at most.
pub open spec fn questions_left(directories: Seq<Seq<u8>>, place: PlaceState) -> nat {
    let all = 2 * directories.len() + 2;
    let left = |next: Option<int>|
        match next {
            Some(k) => 4 * (all - k) as int,
            None => 0,
        };
    match place {
        PlaceState::Cygpath(i) => (4 * (all - i)) as nat,
        PlaceState::Root(i) => (4 * (all - i) - 1) as nat,
        PlaceState::Bash(_, next) => (left(next) + 2) as nat,
        PlaceState::Dll(_, next) => (left(next) + 1) as nat,
        _ => 0,
    }
}

/// Whether the numbers in a place are those of directories and candidates.
pub open spec fn in_range(directories: Seq<Seq<u8>>, place: PlaceState) -> bool {
    let n = directories.len() as int;
    match place {
        PlaceState::Cygpath(i) => 0 <= i < n,
        PlaceState::Root(i) => 0 <= i < n,
        PlaceState::Bash(_, Some(k)) => 0 < k <= 2 * n + 2,
        PlaceState::Dll(path, next) => dll_beside(path) is Some && (next matches Some(k) ==> 0 < k
            <= 2 * n + 2),
        _ => true,
    }
}

/// The place after the question of another one has been answered.
pub open spec fn answered(
    directories: Seq<Seq<u8>>,
    place: PlaceState,
    world: World,
) -> PlaceState {
    match asked_file(directories, place) {
        Some(path) => after_file(directories, place, (world.is_file)(path)),
        None => match asked_root(directories, place) {
            Some(path) => after_root(directories, place, (world.root)(path)),
            None => place,
        },
    }
}

/// The place at which a search ends.
pub open spec fn searched(
    directories: Seq<Seq<u8>>,
    place: PlaceState,
    world: World,
) -> PlaceState
    decreases questions_left(directories, place),
{
    if !in_range(directories, place) || questions_left(directories, place) == 0 || questions_left(
        directories,
        answered(directories, place, world),
    ) >= questions_left(directories, place) {
        place
    } else {
        searched(directories, answered(directories, place, world), world)
    }
}

/// Every answer takes a search further, so that it ends.
pub proof fn law_search_ends(directories: Seq<Seq<u8>>, place: PlaceState, world: World)
    requires
        in_range(directories, place),
    ensures
        in_range(directories, answered(directories, place, world)),
        questions_left(directories, place) > 0 ==> questions_left(
            directories,
            answered(directories, place, world),
        ) < questions_left(directories, place),
        questions_left(directories, place) == 0 <==> place is Found || place is Missing
            || place is Rejected,
{
}

/// The candidates from a number on.
spec fn candidates_from(directories: Seq<Seq<u8>>, k: int, world: World) -> Seq<Seq<u8>> {
    let n = directories.len() as int;
    let late = directories.map_values(|directory: Seq<u8>| bash_in(directory)) + seq![
        CONVENTIONAL_64.spec_bytes(),
        CONVENTIONAL_32.spec_bytes(),
    ];
    if k < n {
        directories.skip(k).filter_map(cygpath_candidate(world)) + late
    } else if k <= 2 * n + 2 {
        late.skip(k - n)
    } else {
        Seq::empty()
    }
}

/// What a search finds from a place on.
spec fn found_from(directories: Seq<Seq<u8>>, place: PlaceState, world: World) -> PlaceState {
    let rest = |k: int|
        match first_cygwin(candidates_from(directories, k, world), world) {
            Some(path) => PlaceState::Found(path),
            None => PlaceState::Missing,
        };
    let after = |path: Seq<u8>, next: Option<int>|
        match next {
            Some(k) => rest(k),
            None => PlaceState::Rejected(path),
        };
    match place {
        PlaceState::Cygpath(i) => rest(i),
        PlaceState::Root(i) => match (world.root)(cygpath_in(directories[i])) {
            Some(root) => if is_cygwin(bash_under(root), world) {
                PlaceState::Found(bash_under(root))
            } else {
                rest(i + 1)
            },
            None => rest(i + 1),
        },
        PlaceState::Bash(path, next) => if is_cygwin(path, world) {
            PlaceState::Found(path)
        } else {
            after(path, next)
        },
        PlaceState::Dll(path, next) => if (world.is_file)(dll_beside(path)->0) {
            PlaceState::Found(path)
        } else {
            after(path, next)
        },
        _ => place,
    }
}

/// The candidates from a number on begin with the one of that number.
proof fn lemma_candidates_from(directories: Seq<Seq<u8>>, k: int, world: World)
    requires
        0 <= k <= 2 * directories.len() + 2,
    ensures
        found_from(directories, place_at(directories, k), world) == match first_cygwin(
            candidates_from(directories, k, world),
            world,
        ) {
            Some(path) => PlaceState::Found(path),
            None => PlaceState::Missing,
        },
{
    let n = directories.len() as int;
    let late = directories.map_values(|directory: Seq<u8>| bash_in(directory)) + seq![
        CONVENTIONAL_64.spec_bytes(),
        CONVENTIONAL_32.spec_bytes(),
    ];
    let list = candidates_from(directories, k, world);
    if k >= n && k < 2 * n + 2 {
        assert(list == late.skip(k - n));
        assert(list[0] == late[k - n]);
        assert(list.drop_first() =~= late.skip(k + 1 - n));
        assert(candidates_from(directories, k + 1, world) == late.skip(k + 1 - n));
    } else if k == 2 * n + 2 {
        assert(list =~= Seq::<Seq<u8>>::empty());
    }
}

proof fn lemma_cygpath_candidate(directories: Seq<Seq<u8>>, i: int, world: World)
    requires
        0 <= i < directories.len(),
    ensures
        first_cygwin(candidates_from(directories, i, world), world) == match cygpath_candidate(
            world,
        )(directories[i]) {
            Some(path) => if is_cygwin(path, world) {
                Some(path)
            } else {
                first_cygwin(candidates_from(directories, i + 1, world), world)
            },
            None => first_cygwin(candidates_from(directories, i + 1, world), world),
        },
{
    let n = directories.len() as int;
    let f = cygpath_candidate(world);
    let late = directories.map_values(|directory: Seq<u8>| bash_in(directory)) + seq![
        CONVENTIONAL_64.spec_bytes(),
        CONVENTIONAL_32.spec_bytes(),
    ];
    let rest = directories.skip(i);
    lemma_filter_map_first(rest, f);
    assert(rest[0] == directories[i]);
    assert(rest.drop_first() =~= directories.skip(i + 1));
    if let Some(path) = f(rest[0]) {
        assert(rest.filter_map(f).drop_first() =~= rest.drop_first().filter_map(f));
    }
    let list = candidates_from(directories, i, world);
    let after = candidates_from(directories, i + 1, world);
    assert(after == directories.skip(i + 1).filter_map(f) + late) by {
        if i + 1 == n {
            lemma_filter_map_empty(directories.skip(n), f);
            assert(late.skip(0) =~= late);
            assert(after =~= directories.skip(i + 1).filter_map(f) + late);
        }
    }
    assert(list == rest.filter_map(f) + late);
    lemma_first_of_next(f(directories[i]), list, rest.filter_map(f), late, after, world);
}

/// The first of a list that may have one more path at its beginning.
proof fn lemma_first_of_next(
    first: Option<Seq<u8>>,
    list: Seq<Seq<u8>>,
    led: Seq<Seq<u8>>,
    late: Seq<Seq<u8>>,
    after: Seq<Seq<u8>>,
    world: World,
)
    requires
        list == led + late,
        first matches Some(path) ==> led.len() > 0 && led[0] == path && led.drop_first() + late
            == after,
        first is None ==> list == after,
    ensures
        first_cygwin(list, world) == match first {
            Some(path) => if is_cygwin(path, world) {
                Some(path)
            } else {
                first_cygwin(after, world)
            },
            None => first_cygwin(after, world),
        },
{
    if let Some(path) = first {
        assert(list[0] == path);
        assert(list.drop_first() =~= led.drop_first() + late);
    }
}

/// What a search finds does not depend on how far it is.
proof fn lemma_answered(directories: Seq<Seq<u8>>, place: PlaceState, world: World)
    requires
        in_range(directories, place),
    ensures
        found_from(directories, answered(directories, place, world), world) == found_from(
            directories,
            place,
            world,
        ),
{
    match place {
        PlaceState::Cygpath(i) => {
            lemma_cygpath_candidate(directories, i, world);
            lemma_candidates_from(directories, i + 1, world);
        },
        PlaceState::Root(i) => {
            lemma_candidates_from(directories, i + 1, world);
        },
        PlaceState::Bash(path, next) => {
            if let Some(k) = next {
                lemma_candidates_from(directories, k, world);
            }
        },
        PlaceState::Dll(path, next) => {
            if let Some(k) = next {
                lemma_candidates_from(directories, k, world);
            }
        },
        _ => {},
    }
}

proof fn lemma_searched(directories: Seq<Seq<u8>>, place: PlaceState, world: World)
    requires
        in_range(directories, place),
    ensures
        searched(directories, place, world) == found_from(directories, place, world),
    decreases questions_left(directories, place),
{
    law_search_ends(directories, place, world);
    if questions_left(directories, place) > 0 {
        lemma_answered(directories, place, world);
        lemma_searched(directories, answered(directories, place, world), world);
    }
}

/// A search finds the first candidate that is Cygwin's Bash, whatever is on the
/// disk; it fails where none of them is.
pub proof fn law_first_candidate_is_found(directories: Seq<Seq<u8>>, world: World)
    ensures
        searched(directories, first_place(directories, None), world) == match first_cygwin(
            candidates(directories, world),
            world,
        ) {
            Some(path) => PlaceState::Found(path),
            None => PlaceState::Missing,
        },
{
    let place = place_at(directories, 0);
    lemma_searched(directories, place, world);
    lemma_candidates_from(directories, 0, world);
    let list = candidates_from(directories, 0, world);
    if directories.len() > 0 {
        assert(directories.skip(0) =~= directories);
        assert(list =~= candidates(directories, world));
    } else {
        assert(directories.filter_map(cygpath_candidate(world)) =~= Seq::<Seq<u8>>::empty()) by {
            reveal(Seq::filter_map);
        }
        assert(list =~= candidates(directories, world));
    }
}

/// What the variable names is taken if it is Cygwin's Bash, and is the only
/// candidate.
pub proof fn law_the_variable_decides(
    directories: Seq<Seq<u8>>,
    variable: Seq<u8>,
    world: World,
)
    ensures
        searched(directories, first_place(directories, Some(variable)), world) == if is_cygwin(
            variable,
            world,
        ) {
            PlaceState::Found(variable)
        } else {
            PlaceState::Rejected(variable)
        },
{
    lemma_searched(directories, first_place(directories, Some(variable)), world);
}

proof fn lemma_first_cygwin(paths: Seq<Seq<u8>>, world: World)
    ensures
        first_cygwin(paths, world) matches Some(path) ==> paths.contains(path) && is_cygwin(
            path,
            world,
        ),
    decreases paths.len(),
{
    if paths.len() > 0 {
        if is_cygwin(paths[0], world) {
            assert(paths.contains(paths[0]));
        } else {
            lemma_first_cygwin(paths.drop_first(), world);
            if let Some(path) = first_cygwin(paths.drop_first(), world) {
                let rest = paths.drop_first();
                let i = choose|i: int| 0 <= i < rest.len() && rest[i] == path;
                assert(paths[i + 1] == path);
            }
        }
    }
}

/// Bash from another environment is never run: what is found is a file that has
/// Cygwin's library beside it.
pub proof fn law_what_is_found_is_cygwins(
    directories: Seq<Seq<u8>>,
    variable: Option<Seq<u8>>,
    world: World,
)
    ensures
        searched(directories, first_place(directories, variable), world) matches PlaceState::Found(
            path,
        ) ==> is_cygwin(path, world),
{
    match variable {
        Some(path) => {
            law_the_variable_decides(directories, path, world);
        },
        None => {
            law_first_candidate_is_found(directories, world);
            lemma_first_cygwin(candidates(directories, world), world);
        },
    }
}

/// Whether a path is that of a Bash that may be run: a file with `cygwin1.dll` in the
/// same directory.
pub open spec fn runs_on_cygwin(path: Seq<u8>, world: World) -> bool {
    (world.is_file)(path) && (parent_of(path) matches Some(directory) && (world.is_file)(
        joined(directory, "cygwin1.dll".spec_bytes()),
    ))
}

/// The Bash that the `cygpath.exe` of a directory leads to, if there is one: that in
/// `bin` under the root which it prints.
pub open spec fn led_to(directory: Seq<u8>, world: World) -> Option<Seq<u8>> {
    let cygpath = joined(directory, "cygpath.exe".spec_bytes());
    if (world.is_file)(cygpath) {
        match (world.root)(cygpath) {
            Some(root) => Some(
                joined(joined(root, "bin".spec_bytes()), "bash.exe".spec_bytes()),
            ),
            None => None,
        }
    } else {
        None
    }
}

proof fn lemma_runs_on_cygwin(path: Seq<u8>, directory: Seq<u8>, world: World)
    ensures
        is_cygwin(path, world) == runs_on_cygwin(path, world),
        cygpath_candidate(world)(directory) == led_to(directory, world),
        bash_in(directory) == joined(directory, "bash.exe".spec_bytes()),
{
}

proof fn lemma_first_of(paths: Seq<Seq<u8>>, world: World, k: int)
    requires
        0 <= k < paths.len(),
        is_cygwin(paths[k], world),
        forall|j: int| 0 <= j < k ==> !is_cygwin(#[trigger] paths[j], world),
    ensures
        first_cygwin(paths, world) == Some(paths[k]),
    decreases k,
{
    if k > 0 {
        assert(!is_cygwin(paths[0], world));
        let rest = paths.drop_first();
        assert(rest[k - 1] == paths[k]);
        assert forall|j: int| 0 <= j < k - 1 implies !is_cygwin(#[trigger] rest[j], world) by {
            assert(rest[j] == paths[j + 1]);
        }
        lemma_first_of(rest, world, k - 1);
    }
}

proof fn lemma_first_of_more(paths: Seq<Seq<u8>>, more: Seq<Seq<u8>>, world: World)
    requires
        forall|j: int| 0 <= j < paths.len() ==> !is_cygwin(#[trigger] paths[j], world),
    ensures
        first_cygwin(paths + more, world) == first_cygwin(more, world),
    decreases paths.len(),
{
    if paths.len() == 0 {
        assert(paths + more =~= more);
    } else {
        assert(!is_cygwin(paths[0], world));
        let rest = paths.drop_first();
        assert((paths + more).drop_first() =~= rest + more);
        assert forall|j: int| 0 <= j < rest.len() implies !is_cygwin(#[trigger] rest[j], world) by {
            assert(rest[j] == paths[j + 1]);
        }
        lemma_first_of_more(rest, more, world);
    }
}

/// The candidates that programs named `cygpath.exe` lead to, up to the first that is
/// Cygwin's.
proof fn lemma_led_to(directories: Seq<Seq<u8>>, world: World, more: Seq<Seq<u8>>, k: int)
    requires
        0 <= k <= directories.len(),
        forall|j: int|
            0 <= j < k ==> (cygpath_candidate(world)(#[trigger] directories[j]) matches Some(path)
                ==> !is_cygwin(path, world)),
    ensures
        k < directories.len() ==> (cygpath_candidate(world)(directories[k]) matches Some(path) ==> (
        is_cygwin(path, world) ==> first_cygwin(
            directories.filter_map(cygpath_candidate(world)) + more,
            world,
        ) == Some(path))),
        k == directories.len() ==> first_cygwin(
            directories.filter_map(cygpath_candidate(world)) + more,
            world,
        ) == first_cygwin(more, world),
    decreases directories.len(),
{
    let f = cygpath_candidate(world);
    let all = directories.filter_map(f);
    if directories.len() == 0 {
        assert(all =~= Seq::<Seq<u8>>::empty()) by {
            reveal(Seq::filter_map);
        }
        assert(all + more =~= more);
    } else {
        lemma_filter_map_first(directories, f);
        let rest = directories.drop_first();
        let later = rest.filter_map(f);
        if k == 0 {
            if let Some(path) = f(directories[0]) {
                assert((all + more)[0] == path);
            }
        } else {
            assert forall|j: int| 0 <= j < k - 1 implies (f(#[trigger] rest[j]) matches Some(path)
                ==> !is_cygwin(path, world)) by {
                assert(rest[j] == directories[j + 1]);
            }
            lemma_led_to(rest, world, more, k - 1);
            if k < directories.len() {
                assert(rest[k - 1] == directories[k]);
            }
            match f(directories[0]) {
                Some(path) => {
                    assert(!is_cygwin(path, world));
                    assert((all + more).drop_first() =~= later + more);
                    assert((all + more)[0] == path);
                },
                None => {
                    assert(all + more =~= later + more);
                },
            }
        }
    }
}

/// What the search finds, in the order in which it prefers it. The Bash that the
/// `cygpath.exe` of a directory leads to comes first, if it is Cygwin's and none
/// before it is. Where no `cygpath.exe` leads to one, the first directory with
/// Cygwin's `bash.exe` in it counts. After that come the two places where Cygwin is
/// installed by default, the newer one first; where none of all these is Cygwin's,
/// none is found.
pub proof fn law_candidates_in_order_of_preference(
    directories: Seq<Seq<u8>>,
    world: World,
    k: int,
)
    requires
        0 <= k <= directories.len(),
    ensures
        ({
            let found = searched(directories, first_place(directories, None), world);
            let none_led_to = |n: int|
                forall|j: int|
                    0 <= j < n ==> (led_to(#[trigger] directories[j], world) matches Some(path)
                        ==> !runs_on_cygwin(path, world));
            let none_in = |n: int|
                forall|j: int|
                    0 <= j < n ==> !runs_on_cygwin(
                        joined(#[trigger] directories[j], "bash.exe".spec_bytes()),
                        world,
                    );
            let newer = r"C:\cygwin64\bin\bash.exe".spec_bytes();
            let older = r"C:\cygwin\bin\bash.exe".spec_bytes();
            let all = directories.len() as int;
            &&& k < all && none_led_to(k) ==> (led_to(directories[k], world) matches Some(path) ==> (
            runs_on_cygwin(path, world) ==> found == PlaceState::Found(path)))
            &&& k < all && none_led_to(all) && none_in(k) && runs_on_cygwin(
                joined(directories[k], "bash.exe".spec_bytes()),
                world,
            ) ==> found == PlaceState::Found(joined(directories[k], "bash.exe".spec_bytes()))
            &&& none_led_to(all) && none_in(all) && runs_on_cygwin(newer, world) ==> found
                == PlaceState::Found(newer)
            &&& none_led_to(all) && none_in(all) && !runs_on_cygwin(newer, world)
                && runs_on_cygwin(older, world) ==> found == PlaceState::Found(older)
            &&& none_led_to(all) && none_in(all) && !runs_on_cygwin(newer, world)
                && !runs_on_cygwin(older, world) ==> found == PlaceState::Missing
        }),
{
    law_first_candidate_is_found(directories, world);
    let f = cygpath_candidate(world);
    let beside = directories.map_values(|directory: Seq<u8>| bash_in(directory));
    let newer = CONVENTIONAL_64.spec_bytes();
    let older = CONVENTIONAL_32.spec_bytes();
    let last = seq![newer, older];
    let late = beside + last;
    let all = directories.len() as int;
    let list = candidates(directories, world);
    assert(list =~= directories.filter_map(f) + late);
    assert forall|j: int| 0 <= j < all implies f(#[trigger] directories[j]) == led_to(
        directories[j],
        world,
    ) && beside[j] == joined(directories[j], "bash.exe".spec_bytes()) by {
        lemma_runs_on_cygwin(Seq::empty(), directories[j], world);
    }
    assert forall|path: Seq<u8>| #[trigger] is_cygwin(path, world) == runs_on_cygwin(
        path,
        world,
    ) by {
        lemma_runs_on_cygwin(path, Seq::empty(), world);
    }
    if k < all && (forall|j: int|
        0 <= j < k ==> (led_to(#[trigger] directories[j], world) matches Some(path)
            ==> !runs_on_cygwin(path, world))) {
        lemma_led_to(directories, world, late, k);
    }
    if forall|j: int|
        0 <= j < all ==> (led_to(#[trigger] directories[j], world) matches Some(path)
            ==> !runs_on_cygwin(path, world)) {
        lemma_led_to(directories, world, late, all);
        assert(first_cygwin(list, world) == first_cygwin(late, world));
        if k < all && (forall|j: int|
            0 <= j < k ==> !runs_on_cygwin(
                joined(#[trigger] directories[j], "bash.exe".spec_bytes()),
                world,
            )) && runs_on_cygwin(joined(directories[k], "bash.exe".spec_bytes()), world) {
            assert(late[k] == beside[k]);
            assert forall|j: int| 0 <= j < k implies !is_cygwin(#[trigger] late[j], world) by {
                assert(late[j] == beside[j]);
                assert(!runs_on_cygwin(
                    joined(directories[j], "bash.exe".spec_bytes()),
                    world,
                ));
            }
            lemma_first_of(late, world, k);
        }
        if forall|j: int|
            0 <= j < all ==> !runs_on_cygwin(
                joined(#[trigger] directories[j], "bash.exe".spec_bytes()),
                world,
            ) {
            assert forall|j: int| 0 <= j < beside.len() implies !is_cygwin(
                #[trigger] beside[j],
                world,
            ) by {
                assert(!runs_on_cygwin(
                    joined(directories[j], "bash.exe".spec_bytes()),
                    world,
                ));
            }
            lemma_first_of_more(beside, last, world);
            reveal_with_fuel(first_cygwin, 3);
            assert(last[0] == newer);
            assert(last.drop_first()[0] == older);
            assert(last.drop_first().drop_first() =~= Seq::<Seq<u8>>::empty());
        }
    }
}

/// The root that a `cygpath.exe` prints is taken as it is, without the line breaks
/// after it. One that fails, prints nothing but line breaks, or prints what is no
/// UTF-8 names none.
pub proof fn law_the_root_is_what_was_printed(root: Seq<u8>, breaks: Seq<u8>)
    requires
        forall|i: int| 0 <= i < breaks.len() ==> #[trigger] breaks[i] == 0x0d || breaks[i] == 0x0a,
        root.len() > 0 ==> root.last() != 0x0d && root.last() != 0x0a,
    ensures
        valid_utf8(root + breaks) && root.len() > 0 ==> cygwin_root(true, root + breaks) == Some(
            root,
        ),
        cygwin_root(true, breaks) is None,
        cygwin_root(false, root + breaks) is None,
        !valid_utf8(root + breaks) ==> cygwin_root(true, root + breaks) is None,
{
    law_content_ends_before_the_line_breaks(root, breaks);
    law_content_ends_before_the_line_breaks(Seq::empty(), breaks);
    assert(Seq::<u8>::empty() + breaks =~= breaks);
    assert((root + breaks).take(root.len() as int) =~= root);
}

/// What is said of a path that is not Cygwin's Bash names the variable and the path,
/// all of it.
pub proof fn law_a_rejected_path_is_named(variable: String, path: Vec<u8>)
    ensures
        error_text(BashError::Invalid(variable, path)) == encode_utf8(variable@)
            + " does not identify Cygwin bash.exe: ".spec_bytes() + lossy(path@),
{
}

} // verus!
