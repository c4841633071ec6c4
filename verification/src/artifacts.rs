//! The files that a TeX run may write, and which of them it did write.
use vstd::prelude::*;
use vstd::string::*;
use vstd::utf8::*;
use crate::bytes::{append, copy, views, DOT};
use crate::invocation::{optional_view, TexInvocation};
use crate::native_path::{join, joined};

verus! {

/// What the file system says of a file that is there. The time is in
/// nanoseconds since 1970, where the file system has one.
#[derive(Clone, Copy, PartialEq, Eq, Structural, Debug)]
pub struct Observation {
    pub is_file: bool,
    pub length: u64,
    pub modified: Option<i128>,
}

/// What tells two states of a file apart.
#[derive(Clone, Copy, PartialEq, Eq, Structural, Debug)]
pub struct Fingerprint {
    pub length: u64,
    pub modified: Option<i128>,
}

/// The fingerprint of a file, if it is there.
pub open spec fn fingerprint(observed: Option<Observation>) -> Option<Fingerprint> {
    match observed {
        Some(seen) => Some(Fingerprint { length: seen.length, modified: seen.modified }),
        None => None,
    }
}

/// Whether a file is there and differs from what it was before.
pub open spec fn changed_since(before: Option<Fingerprint>, observed: Option<Observation>) -> bool {
    fingerprint(observed) is Some && fingerprint(observed) != before
}

/// Whether a path names a file.
pub open spec fn is_file(observed: Option<Observation>) -> bool {
    observed matches Some(seen) && seen.is_file
}

/// Whether two times are the same.
fn same_time(a: Option<i128>, b: Option<i128>) -> (r: bool)
    ensures
        r == (a == b),
{
    match (a, b) {
        (Some(x), Some(y)) => x == y,
        (None, None) => true,
        _ => false,
    }
}

impl Fingerprint {
    /// The fingerprint of a file, if it is there.
    pub fn read(observed: Option<Observation>) -> (r: Option<Self>)
        ensures
            r == fingerprint(observed),
    {
        match observed {
            Some(seen) => Some(Self::from_metadata(&seen)),
            None => None,
        }
    }

    /// The fingerprint of a file that is there.
    pub fn from_metadata(seen: &Observation) -> (r: Self)
        ensures
            Some(r) == fingerprint(Some(*seen)),
    {
        Fingerprint { length: seen.length, modified: seen.modified }
    }
}

/// A file that a run may write, and what it was before.
pub struct WatchedFile {
    pub path: Vec<u8>,
    pub before: Option<Fingerprint>,
}

impl WatchedFile {
    /// Remembers what a file is.
    pub fn new(path: Vec<u8>, observed: Option<Observation>) -> (r: Self)
        ensures
            r.path == path,
            r.before == fingerprint(observed),
    {
        WatchedFile { path, before: Fingerprint::read(observed) }
    }

    /// Whether the file, as it is now, differs from what it was; a file that is
    /// not there has not changed.
    pub fn changed(&self, observed: Option<Observation>) -> (r: bool)
        ensures
            r == changed_since(self.before, observed),
    {
        match (Fingerprint::read(observed), self.before) {
            (Some(after), Some(before)) => after.length != before.length || !same_time(
                after.modified,
                before.modified,
            ),
            (Some(_), None) => true,
            (None, _) => false,
        }
    }

    /// Whether the file is there now.
    pub fn is_present(&self, observed: Option<Observation>) -> (r: bool)
        ensures
            r == is_file(observed),
    {
        match observed {
            Some(seen) => seen.is_file,
            None => false,
        }
    }
}

/// The items that a list of flags keeps, in their order.
pub open spec fn kept<T>(items: Seq<T>, keep: Seq<bool>) -> Seq<T>
    decreases items.len(),
{
    if items.len() == 0 || keep.len() != items.len() {
        Seq::empty()
    } else if keep.last() {
        kept(items.drop_last(), keep.drop_last()).push(items.last())
    } else {
        kept(items.drop_last(), keep.drop_last())
    }
}

/// Which files of a list changed.
pub open spec fn changed_flags(
    files: Seq<WatchedFile>,
    observed: Seq<Option<Observation>>,
) -> Seq<bool> {
    Seq::new(files.len(), |i: int| changed_since(files[i].before, observed[i]))
}

/// Which files of a list are there.
pub open spec fn existing_flags(observed: Seq<Option<Observation>>) -> Seq<bool> {
    Seq::new(observed.len(), |i: int| is_file(observed[i]))
}

/// The items that a list of references refers to.
pub open spec fn referents(list: Seq<&WatchedFile>) -> Seq<WatchedFile> {
    list.map_values(|file: &WatchedFile| *file)
}

/// The file of a run with a given extension, in a given directory: TeX puts a
/// dot and the extension after the base name, whatever dots that holds.
pub open spec fn artifact_path(
    directory: Seq<u8>,
    base: Seq<u8>,
    extension: Seq<char>,
) -> Seq<u8> {
    joined(directory, base).push(DOT) + encode_utf8(extension)
}

/// The files of a run with a given extension.
pub open spec fn artifact_paths(
    directories: Seq<Seq<u8>>,
    base: Option<Seq<u8>>,
    extension: Seq<char>,
) -> Seq<Seq<u8>> {
    match base {
        Some(name) => directories.map_values(
            |directory: Seq<u8>| artifact_path(directory, name, extension),
        ),
        None => Seq::empty(),
    }
}

/// The SyncTeX files of a run: in each directory a compressed one and a plain
/// one.
pub open spec fn synctex_paths(directories: Seq<Seq<u8>>, base: Option<Seq<u8>>) -> Seq<Seq<u8>> {
    match base {
        Some(name) => Seq::new(
            directories.len() * 2,
            |i: int|
                artifact_path(
                    directories[i / 2],
                    name,
                    if i % 2 == 0 {
                        "synctex.gz"@
                    } else {
                        "synctex"@
                    },
                ),
        ),
        None => Seq::empty(),
    }
}

/// Where the files of a run may be.
pub struct ArtifactPaths {
    pub logs: Vec<Vec<u8>>,
    pub fls: Vec<Vec<u8>>,
    pub synctex: Vec<Vec<u8>>,
}

/// A path with a dot and an extension after it.
fn with_suffix(stem: &Vec<u8>, extension: &str) -> (r: Vec<u8>)
    ensures
        r@ == stem@.push(DOT) + encode_utf8(extension@),
{
    let mut r: Vec<u8> = copy(stem);
    r.push(DOT);
    append(&mut r, extension.as_bytes());
    r
}

impl ArtifactPaths {
    /// Where the files of a run may be: logs, recorder files and SyncTeX files
    /// in every directory. Without a base name there are none.
    pub fn new(invocation: &TexInvocation) -> (r: Self)
        ensures
            views(r.logs@) == artifact_paths(
                views(invocation.directories@),
                optional_view(invocation.base),
                "log"@,
            ),
            views(r.fls@) == artifact_paths(
                views(invocation.directories@),
                optional_view(invocation.base),
                "fls"@,
            ),
            views(r.synctex@) == synctex_paths(
                views(invocation.directories@),
                optional_view(invocation.base),
            ),
    {
        let mut logs: Vec<Vec<u8>> = Vec::new();
        let mut fls: Vec<Vec<u8>> = Vec::new();
        let mut synctex: Vec<Vec<u8>> = Vec::new();
        let ghost directories = views(invocation.directories@);
        let base: &Vec<u8> = match &invocation.base {
            Some(base) => base,
            None => {
                assert(views(logs@) =~= Seq::<Seq<u8>>::empty());
                assert(views(fls@) =~= Seq::<Seq<u8>>::empty());
                assert(views(synctex@) =~= Seq::<Seq<u8>>::empty());
                return ArtifactPaths { logs, fls, synctex };
            },
        };
        let ghost some_base = Some(base@);
        let ghost all_logs = artifact_paths(directories, some_base, "log"@);
        let ghost all_fls = artifact_paths(directories, some_base, "fls"@);
        let ghost all_synctex = synctex_paths(directories, some_base);
        let mut i: usize = 0;
        while i < invocation.directories.len()
            invariant
                i <= invocation.directories@.len(),
                directories == views(invocation.directories@),
                some_base == Some(base@),
                all_logs == artifact_paths(directories, some_base, "log"@),
                all_fls == artifact_paths(directories, some_base, "fls"@),
                all_synctex == synctex_paths(directories, some_base),
                views(logs@) == all_logs.take(i as int),
                views(fls@) == all_fls.take(i as int),
                views(synctex@) == all_synctex.take(2 * i),
            decreases invocation.directories@.len() - i,
        {
            let ghost before = (views(logs@), views(fls@), views(synctex@));
            assert(directories[i as int] == invocation.directories@[i as int]@);
            let stem: Vec<u8> = join(invocation.directories[i].as_slice(), base.as_slice());
            let log: Vec<u8> = with_suffix(&stem, "log");
            let recorded: Vec<u8> = with_suffix(&stem, "fls");
            let packed: Vec<u8> = with_suffix(&stem, "synctex.gz");
            let plain: Vec<u8> = with_suffix(&stem, "synctex");
            let ghost made = (log@, recorded@, packed@, plain@);
            logs.push(log);
            fls.push(recorded);
            synctex.push(packed);
            synctex.push(plain);
            proof {
                assert(views(logs@) =~= before.0.push(made.0));
                assert(views(fls@) =~= before.1.push(made.1));
                assert(views(synctex@) =~= before.2.push(made.2).push(made.3));
                assert(all_logs[i as int] == made.0);
                assert(all_fls[i as int] == made.1);
                assert((2 * i) / 2 == i && (2 * i) % 2 == 0);
                assert((2 * i + 1) / 2 == i && (2 * i + 1) % 2 == 1);
                assert(all_synctex[2 * i] == made.2);
                assert(all_synctex[2 * i + 1] == made.3);
                assert(views(logs@) =~= all_logs.take(i + 1));
                assert(views(fls@) =~= all_fls.take(i + 1));
                assert(views(synctex@) =~= all_synctex.take(2 * (i + 1)));
            }
            i += 1;
        }
        proof {
            assert(all_logs.take(i as int) =~= all_logs);
            assert(all_fls.take(i as int) =~= all_fls);
            assert(all_synctex.take(2 * i) =~= all_synctex);
        }
        ArtifactPaths { logs, fls, synctex }
    }
}

/// Whether a list of files has these paths and was these before.
pub open spec fn watches(
    files: Seq<WatchedFile>,
    paths: Seq<Seq<u8>>,
    observed: Seq<Option<Observation>>,
) -> bool {
    &&& files.len() == paths.len()
    &&& forall|i: int|
        0 <= i < files.len() ==> (#[trigger] files[i]).path@ == paths[i] && files[i].before
            == fingerprint(observed[i])
}

/// Remembers what each file of a list is.
fn watch(paths: &Vec<Vec<u8>>, observed: &[Option<Observation>]) -> (r: Vec<WatchedFile>)
    requires
        observed@.len() == paths@.len(),
    ensures
        watches(r@, views(paths@), observed@),
{
    let mut r: Vec<WatchedFile> = Vec::new();
    let mut i: usize = 0;
    while i < paths.len()
        invariant
            i == r@.len() <= paths@.len() == observed@.len(),
            forall|j: int|
                0 <= j < i ==> (#[trigger] r@[j]).path@ == paths@[j]@ && r@[j].before
                    == fingerprint(observed@[j]),
        decreases paths@.len() - i,
    {
        r.push(WatchedFile::new(copy(&paths[i]), observed[i]));
        i += 1;
    }
    r
}

/// The files that a run may write, and what they were before it.
pub struct Artifacts {
    pub logs: Vec<WatchedFile>,
    pub fls: Vec<WatchedFile>,
    pub synctex: Vec<WatchedFile>,
}

impl Artifacts {
    /// Remembers what the files are before a run.
    pub fn snapshot(
        paths: &ArtifactPaths,
        logs: &[Option<Observation>],
        fls: &[Option<Observation>],
        synctex: &[Option<Observation>],
    ) -> (r: Self)
        requires
            logs@.len() == paths.logs@.len(),
            fls@.len() == paths.fls@.len(),
            synctex@.len() == paths.synctex@.len(),
        ensures
            watches(r.logs@, views(paths.logs@), logs@),
            watches(r.fls@, views(paths.fls@), fls@),
            watches(r.synctex@, views(paths.synctex@), synctex@),
    {
        Artifacts {
            logs: watch(&paths.logs, logs),
            fls: watch(&paths.fls, fls),
            synctex: watch(&paths.synctex, synctex),
        }
    }

    /// The files of a list that a run has written, given what they are now.
    pub fn changed<'a>(
        &self,
        files: &'a [WatchedFile],
        observed: &[Option<Observation>],
    ) -> (r: Vec<&'a WatchedFile>)
        requires
            observed@.len() == files@.len(),
        ensures
            referents(r@) == kept(files@, changed_flags(files@, observed@)),
    {
        let mut r: Vec<&'a WatchedFile> = Vec::new();
        let ghost flags = changed_flags(files@, observed@);
        let mut i: usize = 0;
        assert(referents(r@) =~= kept(files@.take(0), flags.take(0)));
        while i < files.len()
            invariant
                i <= files@.len() == observed@.len(),
                flags == changed_flags(files@, observed@),
                referents(r@) == kept(files@.take(i as int), flags.take(i as int)),
            decreases files@.len() - i,
        {
            let ghost before = referents(r@);
            proof {
                assert(files@.take(i + 1).drop_last() =~= files@.take(i as int));
                assert(flags.take(i + 1).drop_last() =~= flags.take(i as int));
            }
            if files[i].changed(observed[i]) {
                r.push(&files[i]);
                assert(referents(r@) =~= before.push(files@[i as int]));
            }
            i += 1;
        }
        assert(files@.take(i as int) =~= files@);
        assert(flags.take(i as int) =~= flags);
        r
    }

    /// The files of a list that are there.
    pub fn existing<'a>(
        &self,
        files: &'a [WatchedFile],
        observed: &[Option<Observation>],
    ) -> (r: Vec<&'a WatchedFile>)
        requires
            observed@.len() == files@.len(),
        ensures
            referents(r@) == kept(files@, existing_flags(observed@)),
    {
        let mut r: Vec<&'a WatchedFile> = Vec::new();
        let ghost flags = existing_flags(observed@);
        let mut i: usize = 0;
        assert(referents(r@) =~= kept(files@.take(0), flags.take(0)));
        while i < files.len()
            invariant
                i <= files@.len() == observed@.len(),
                flags == existing_flags(observed@),
                referents(r@) == kept(files@.take(i as int), flags.take(i as int)),
            decreases files@.len() - i,
        {
            let ghost before = referents(r@);
            proof {
                assert(files@.take(i + 1).drop_last() =~= files@.take(i as int));
                assert(flags.take(i + 1).drop_last() =~= flags.take(i as int));
            }
            if files[i].is_present(observed[i]) {
                r.push(&files[i]);
                assert(referents(r@) =~= before.push(files@[i as int]));
            }
            i += 1;
        }
        assert(files@.take(i as int) =~= files@);
        assert(flags.take(i as int) =~= flags);
        r
    }
}

/// A file that a run did not touch has not changed, one that it removed has
/// not, and one that it created has.
pub proof fn law_untouched_files_have_not_changed(observed: Option<Observation>, seen: Observation)
    ensures
        !changed_since(fingerprint(observed), observed),
        !changed_since(fingerprint(observed), None),
        changed_since(None, Some(seen)),
{
}

proof fn lemma_kept<T>(items: Seq<T>, keep: Seq<bool>, item: T)
    requires
        keep.len() == items.len(),
    ensures
        kept(items, keep).contains(item) <==> exists|i: int|
            0 <= i < items.len() && keep[i] && #[trigger] items[i] == item,
    decreases items.len(),
{
    if items.len() > 0 {
        let fewer = items.drop_last();
        let flags = keep.drop_last();
        lemma_kept(fewer, flags, item);
        let before = kept(fewer, flags);
        let after = kept(items, keep);
        if before.contains(item) {
            let i = choose|i: int| 0 <= i < fewer.len() && flags[i] && #[trigger] fewer[i] == item;
            assert(items[i] == item && keep[i]);
            let k = choose|k: int| 0 <= k < before.len() && before[k] == item;
            assert(after[k] == item);
        }
        if keep.last() && items.last() == item {
            assert(after[after.len() - 1] == item);
            assert(items[items.len() - 1] == item);
        }
        if after.contains(item) && !before.contains(item) {
            let k = choose|k: int| 0 <= k < after.len() && after[k] == item;
            if k < before.len() {
                assert(before[k] == item);
            }
            assert(items[items.len() - 1] == item);
        }
        if exists|i: int| 0 <= i < items.len() && keep[i] && #[trigger] items[i] == item {
            let i = choose|i: int| 0 <= i < items.len() && keep[i] && #[trigger] items[i] == item;
            if i < fewer.len() {
                assert(fewer[i] == item && flags[i]);
            }
        }
    } else {
        assert(kept(items, keep) =~= Seq::<T>::empty());
    }
}

/// The files that count as written by a run are those that are there and are
/// not what they were before it, and no others.
pub proof fn law_only_fresh_files_are_taken(
    files: Seq<WatchedFile>,
    observed: Seq<Option<Observation>>,
    file: WatchedFile,
)
    requires
        observed.len() == files.len(),
    ensures
        kept(files, changed_flags(files, observed)).contains(file) <==> exists|i: int|
            0 <= i < files.len() && changed_since(file.before, observed[i]) && #[trigger] files[i]
                == file,
{
    let flags = changed_flags(files, observed);
    lemma_kept(files, flags, file);
    if exists|i: int| 0 <= i < files.len() && flags[i] && #[trigger] files[i] == file {
        let i = choose|i: int| 0 <= i < files.len() && flags[i] && #[trigger] files[i] == file;
        assert(changed_since(file.before, observed[i]));
    }
    if exists|i: int|
        0 <= i < files.len() && changed_since(file.before, observed[i]) && #[trigger] files[i]
            == file {
        let i = choose|i: int|
            0 <= i < files.len() && changed_since(file.before, observed[i]) && #[trigger] files[i]
                == file;
        assert(flags[i]);
    }
}

/// A file counts as written by a run whenever it is there and its length or its
/// time is another than before, shorter or longer, earlier or later; and a file
/// that was not there before whenever it is.
pub proof fn law_any_difference_is_a_change(before: Observation, seen: Observation)
    ensures
        changed_since(fingerprint(Some(before)), Some(seen)) <==> seen.length != before.length
            || seen.modified != before.modified,
        changed_since(
            Some(Fingerprint { length: before.length, modified: before.modified }),
            Some(seen),
        ) <==> seen.length != before.length || seen.modified != before.modified,
        changed_since(fingerprint(None), Some(seen)),
        !changed_since(fingerprint(Some(before)), None),
        !changed_since(fingerprint(None), None),
{
}

/// Of the files of a list, those count as written by the run whose observation
/// differs from what they were, each where it stands: the list of them has one for
/// each, in the order of the list, and no others.
pub proof fn law_written_files_are_found(
    files: Seq<WatchedFile>,
    before: Seq<Option<Observation>>,
    observed: Seq<Option<Observation>>,
    k: int,
)
    requires
        before.len() == files.len(),
        observed.len() == files.len(),
        forall|i: int|
            0 <= i < files.len() ==> (#[trigger] files[i]).before == fingerprint(before[i]),
        0 <= k < files.len(),
    ensures
        ({
            let written = observed[k] matches Some(seen) && (before[k] matches Some(old)
                ==> seen.length != old.length || seen.modified != old.modified);
            let upto = kept(
                files.take(k),
                changed_flags(files.take(k), observed.take(k)),
            );
            kept(files.take(k + 1), changed_flags(files.take(k + 1), observed.take(k + 1)))
                == if written {
                upto.push(files[k])
            } else {
                upto
            }
        }),
        kept(files.take(0), changed_flags(files.take(0), observed.take(0))).len() == 0,
{
    let more = files.take(k + 1);
    let flags = changed_flags(more, observed.take(k + 1));
    assert(more.drop_last() =~= files.take(k));
    assert(flags.drop_last() =~= changed_flags(files.take(k), observed.take(k)));
    assert(more.last() == files[k]);
    assert(observed.take(k + 1)[k] == observed[k]);
}

/// Of the files of a list, those are there that are observed to be files, each
/// where it stands: a directory of the name is none, and neither is a missing
/// file.
pub proof fn law_existing_files_are_found(
    files: Seq<WatchedFile>,
    observed: Seq<Option<Observation>>,
    k: int,
)
    requires
        observed.len() == files.len(),
        0 <= k < files.len(),
    ensures
        ({
            let there = observed[k] matches Some(seen) && seen.is_file;
            let upto = kept(files.take(k), existing_flags(observed.take(k)));
            kept(files.take(k + 1), existing_flags(observed.take(k + 1))) == if there {
                upto.push(files[k])
            } else {
                upto
            }
        }),
        kept(files.take(0), existing_flags(observed.take(0))).len() == 0,
{
    let more = files.take(k + 1);
    let flags = existing_flags(observed.take(k + 1));
    assert(more.drop_last() =~= files.take(k));
    assert(flags.drop_last() =~= existing_flags(observed.take(k)));
    assert(more.last() == files[k]);
    assert(observed.take(k + 1)[k] == observed[k]);
}

/// In every directory there is one log to look for, one recorder file, a compressed
/// SyncTeX file and a plain one, and nothing else is looked for. The name of each
/// is the base name and, after a dot, what kind of file it is.
pub proof fn law_each_directory_has_one_file_of_each_kind(
    directories: Seq<Seq<u8>>,
    base: Seq<u8>,
    k: int,
)
    requires
        0 <= k < directories.len(),
    ensures
        artifact_paths(directories, Some(base), "log"@).len() == directories.len(),
        artifact_paths(directories, Some(base), "log"@)[k] == joined(directories[k], base)
            + ".log".spec_bytes(),
        artifact_paths(directories, Some(base), "fls"@).len() == directories.len(),
        artifact_paths(directories, Some(base), "fls"@)[k] == joined(directories[k], base)
            + ".fls".spec_bytes(),
        synctex_paths(directories, Some(base)).len() == 2 * directories.len(),
        synctex_paths(directories, Some(base))[2 * k] == joined(directories[k], base)
            + ".synctex.gz".spec_bytes(),
        synctex_paths(directories, Some(base))[2 * k + 1] == joined(directories[k], base)
            + ".synctex".spec_bytes(),
        artifact_paths(directories, None, "log"@).len() == 0,
        artifact_paths(directories, None, "fls"@).len() == 0,
        synctex_paths(directories, None).len() == 0,
{
    let stem = joined(directories[k], base);
    lemma_dotted(".log", "log");
    lemma_dotted(".fls", "fls");
    lemma_dotted(".synctex.gz", "synctex.gz");
    lemma_dotted(".synctex", "synctex");
    assert((2 * k) / 2 == k && (2 * k) % 2 == 0);
    assert((2 * k + 1) / 2 == k && (2 * k + 1) % 2 == 1);
    assert(stem.push(DOT) + encode_utf8("log"@) =~= stem + ".log".spec_bytes());
    assert(stem.push(DOT) + encode_utf8("fls"@) =~= stem + ".fls".spec_bytes());
    assert(stem.push(DOT) + encode_utf8("synctex.gz"@) =~= stem + ".synctex.gz".spec_bytes());
    assert(stem.push(DOT) + encode_utf8("synctex"@) =~= stem + ".synctex".spec_bytes());
}

/// An extension in bytes, with the dot before it.
proof fn lemma_dotted(dotted: &str, extension: &str)
    requires
        (dotted@, extension@) == (".log"@, "log"@) || (dotted@, extension@) == (".fls"@, "fls"@)
            || (dotted@, extension@) == (".synctex.gz"@, "synctex.gz"@) || (dotted@, extension@)
            == (".synctex"@, "synctex"@),
    ensures
        dotted.spec_bytes() == seq![DOT] + encode_utf8(extension@),
{
    reveal_strlit(".log");
    reveal_strlit("log");
    reveal_strlit(".fls");
    reveal_strlit("fls");
    reveal_strlit(".synctex.gz");
    reveal_strlit("synctex.gz");
    reveal_strlit(".synctex");
    reveal_strlit("synctex");
    assert(dotted.is_ascii());
    assert(extension.is_ascii());
    is_ascii_spec_bytes(dotted);
    is_ascii_spec_bytes(extension);
    assert(extension.spec_bytes() == encode_utf8(extension@));
    assert(dotted@ =~= seq!['.'] + extension@);
    assert(dotted.spec_bytes() =~= seq![DOT] + extension.spec_bytes());
}

/// A file that is watched has its own path, and is compared with what was observed of
/// that very path.
pub proof fn law_files_are_watched_one_by_one(
    files: Seq<WatchedFile>,
    paths: Seq<Seq<u8>>,
    observed: Seq<Option<Observation>>,
    k: int,
)
    requires
        watches(files, paths, observed),
        0 <= k < paths.len(),
    ensures
        files.len() == paths.len(),
        files[k].path@ == paths[k],
        observed[k] is None ==> files[k].before is None,
        observed[k] matches Some(seen) ==> (files[k].before matches Some(before) && before.length
            == seen.length && before.modified == seen.modified),
{
}

} // verus!
