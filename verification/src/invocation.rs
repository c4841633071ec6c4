//! The part of a TeX command line that says where its files are.
use vstd::prelude::*;
use vstd::string::*;
use vstd::utf8::*;
use crate::bytes::views;
use crate::native_path::{
    absolute, components, file_stem, is_absolute, join, joined, parent, parent_of, same_path,
    stem_of,
};
use crate::text::{
    after_first_prefix, after_prefix, is_option, lowered, str_views, string_views,
    strip_first_prefix, strip_prefix,
};

verus! {

/// The options that name the output directory.
pub open spec fn output_options() -> Seq<Seq<char>> {
    seq!["-outdir="@, "-output-directory="@, "--output-directory="@]
}

/// The options that name the directory of auxiliary files.
pub open spec fn aux_options() -> Seq<Seq<char>> {
    seq!["-auxdir="@, "-aux-directory="@, "--aux-directory="@]
}

/// The options whose value is a path.
pub open spec fn path_options() -> Seq<Seq<char>> {
    output_options() + aux_options()
}

/// The value of the last argument that begins with one of `prefixes`.
pub open spec fn last_value(args: Seq<Seq<char>>, prefixes: Seq<Seq<char>>) -> Option<Seq<char>>
    decreases args.len(),
{
    if args.len() == 0 {
        None
    } else {
        match after_first_prefix(args.last(), prefixes) {
            Some(value) => Some(value),
            None => last_value(args.drop_last(), prefixes),
        }
    }
}

/// The value of the last of `args` that begins with one of `prefixes`: a later
/// argument overrides an earlier one.
pub fn option_value<'a>(args: &'a [String], prefixes: &[&str]) -> (r: Option<&'a str>)
    ensures
        match r {
            Some(value) => last_value(string_views(args@), str_views(prefixes@)) == Some(value@),
            None => last_value(string_views(args@), str_views(prefixes@)) is None,
        },
{
    let ghost all = string_views(args@);
    let ghost names = str_views(prefixes@);
    let mut i: usize = args.len();
    assert(all.take(i as int) =~= all);
    while i > 0
        invariant
            i <= args@.len(),
            all == string_views(args@),
            names == str_views(prefixes@),
            last_value(all, names) == last_value(all.take(i as int), names),
        decreases i,
    {
        i -= 1;
        proof {
            assert(all.take(i + 1).last() == args@[i as int]@);
            assert(all.take(i + 1).drop_last() =~= all.take(i as int));
        }
        let value: Option<&str> = strip_first_prefix(args[i].as_str(), prefixes);
        if value.is_some() {
            return value;
        }
    }
    None
}

/// The value of an argument that is an option with a path as its value.
pub fn option_path_value(argument: &str) -> (r: Option<&str>)
    ensures
        match r {
            Some(value) => after_first_prefix(argument@, path_options()) == Some(value@),
            None => after_first_prefix(argument@, path_options()) is None,
        },
{
    let prefixes: Vec<&str> = vec![
        "-outdir=",
        "-output-directory=",
        "--output-directory=",
        "-auxdir=",
        "-aux-directory=",
        "--aux-directory=",
    ];
    assert(str_views(prefixes@) =~= path_options());
    strip_first_prefix(argument, prefixes.as_slice())
}

/// A path without the prefix of an extended-length path.
pub open spec fn without_extended_prefix(path: Seq<char>) -> Seq<char> {
    match after_prefix(path, r"\\?\UNC\"@) {
        Some(rest) => r"\\"@ + rest,
        None => match after_prefix(path, r"\\?\"@) {
            Some(rest) => rest,
            None => path,
        },
    }
}

/// A path with slashes in the place of backslashes.
pub open spec fn with_slashes(path: Seq<char>) -> Seq<char> {
    path.map_values(
        |c: char|
            if c == '\\' {
                '/'
            } else {
                c
            },
    )
}

/// A path in the form in which `cygpath` takes it.
pub open spec fn normalized(path: Seq<char>) -> Seq<char> {
    with_slashes(without_extended_prefix(path))
}

/// Copies `path` with slashes in the place of backslashes.
fn replace_backslashes(path: &str) -> (r: String)
    ensures
        r@ == with_slashes(path@),
{
    let n: usize = path.unicode_len();
    let mut r: String = String::new();
    let mut start: usize = 0;
    let mut i: usize = 0;
    proof {
        reveal_strlit("/");
        assert("/"@ =~= seq!['/']);
    }
    assert(r@ =~= with_slashes(path@).take(0));
    for c in it: path.chars()
        invariant
            n == path@.len(),
            it.seq() == path@,
            i == it.index(),
            start <= i <= n,
            "/"@ == seq!['/'],
            r@ == with_slashes(path@).take(start as int),
            forall|j: int| start <= j < i ==> path@[j] != '\\',
    {
        if c == '\\' {
            r.append(path.substring_char(start, i));
            r.append("/");
            start = i + 1;
            assert(r@ =~= with_slashes(path@).take(start as int));
        }
        i += 1;
    }
    r.append(path.substring_char(start, n));
    assert(r@ =~= with_slashes(path@));
    r
}

/// Removes the prefix of an extended-length path, which `cygpath` does not take,
/// and puts slashes in the place of backslashes.
pub fn normalize_windows_path(path: &str) -> (r: String)
    ensures
        r@ == normalized(path@),
{
    match strip_prefix(path, r"\\?\UNC\") {
        Some(rest) => {
            let mut unc: String = r"\\".to_owned();
            unc.append(rest);
            replace_backslashes(unc.as_str())
        },
        None => match strip_prefix(path, r"\\?\") {
            Some(rest) => replace_backslashes(rest),
            None => replace_backslashes(path),
        },
    }
}

/// A path, seen from the directory `cwd`.
pub open spec fn resolved_from(cwd: Seq<u8>, path: Seq<u8>) -> Seq<u8> {
    if absolute(path) {
        path
    } else {
        joined(cwd, path)
    }
}

/// A path, seen from the directory `cwd`.
pub fn resolve_path(cwd: &[u8], path: &[u8]) -> (r: Vec<u8>)
    ensures
        r@ == resolved_from(cwd@, path@),
{
    if is_absolute(path) {
        vstd::slice::slice_to_vec(path)
    } else {
        join(cwd, path)
    }
}

/// A directory given as text, seen from the directory `cwd`.
pub fn resolve_directory(cwd: &[u8], directory: &str) -> (r: Vec<u8>)
    ensures
        r@ == resolved_from(cwd@, encode_utf8(directory@)),
{
    resolve_path(cwd, directory.as_bytes())
}

/// Whether one of `paths` has the same parts as `path`.
pub open spec fn has_path(paths: Seq<Seq<u8>>, path: Seq<u8>) -> bool {
    exists|i: int|
        0 <= i < paths.len() && components(#[trigger] paths[i]) == components(path)
}

/// `paths` with `path` at the end, where none of them is the same already.
pub open spec fn pushed_unique(paths: Seq<Seq<u8>>, path: Seq<u8>) -> Seq<Seq<u8>> {
    if has_path(paths, path) {
        paths
    } else {
        paths.push(path)
    }
}

/// Adds a path to a list that has none with the same parts.
pub fn push_unique(paths: &mut Vec<Vec<u8>>, path: Vec<u8>)
    ensures
        views(final(paths)@) == pushed_unique(views(old(paths)@), path@),
{
    let ghost all = views(paths@);
    let mut i: usize = 0;
    while i < paths.len()
        invariant
            i <= paths@.len(),
            all == views(paths@),
            views(old(paths)@) == all,
            paths@ == old(paths)@,
            forall|j: int|
                0 <= j < i ==> components(#[trigger] all[j]) != components(path@),
        decreases paths@.len() - i,
    {
        assert(all[i as int] == paths@[i as int]@);
        if same_path(paths[i].as_slice(), path.as_slice()) {
            return;
        }
        i += 1;
    }
    paths.push(path);
    assert(views(paths@) =~= all.push(path@));
}

/// Each of `paths` that differs from those before it.
pub open spec fn distinct_paths(paths: Seq<Seq<u8>>) -> Seq<Seq<u8>>
    decreases paths.len(),
{
    if paths.len() == 0 {
        Seq::empty()
    } else {
        pushed_unique(distinct_paths(paths.drop_last()), paths.last())
    }
}

/// Whether an argument names a TeX source.
pub open spec fn is_source(argument: Seq<char>) -> bool {
    !(argument.len() > 0 && argument[0] == '-') && ".tex"@.is_suffix_of(lowered(argument))
}

/// The last argument that names a TeX source.
pub open spec fn source_of(args: Seq<Seq<char>>) -> Option<Seq<char>>
    decreases args.len(),
{
    if args.len() == 0 {
        None
    } else if is_source(args.last()) {
        Some(args.last())
    } else {
        source_of(args.drop_last())
    }
}

/// The name that the files of a run have in common: the job name, or that of
/// the source without its extension.
pub open spec fn base_of(args: Seq<Seq<char>>) -> Option<Seq<u8>> {
    match last_value(args, seq!["-jobname="@]) {
        Some(name) => Some(encode_utf8(name)),
        None => match source_of(args) {
            Some(source) => stem_of(encode_utf8(source)),
            None => None,
        },
    }
}

/// The directory that the last of some options names, if one of them is given.
pub open spec fn directory_option(
    args: Seq<Seq<char>>,
    prefixes: Seq<Seq<char>>,
    cwd: Seq<u8>,
) -> Seq<Seq<u8>> {
    match last_value(args, prefixes) {
        Some(directory) => seq![resolved_from(cwd, encode_utf8(directory))],
        None => Seq::empty(),
    }
}

/// Whether the tool changes to the directory of its source first.
pub open spec fn changes_directory(args: Seq<Seq<char>>) -> bool {
    args.contains("-cd"@) && !args.contains("-cd-"@)
}

/// The directory that the source is in, as the command line has it.
pub open spec fn source_parent(args: Seq<Seq<char>>) -> Option<Seq<u8>> {
    match source_of(args) {
        Some(source) => parent_of(encode_utf8(source)),
        None => None,
    }
}

/// The directory of the source, where the tool changes to it.
pub open spec fn changed_directory(args: Seq<Seq<char>>, cwd: Seq<u8>) -> Seq<Seq<u8>> {
    match source_parent(args) {
        Some(parent) => if changes_directory(args) {
            seq![resolved_from(cwd, parent)]
        } else {
            Seq::empty()
        },
        None => Seq::empty(),
    }
}

/// The directory of the source, where the command line names one.
pub open spec fn source_directory(args: Seq<Seq<char>>, cwd: Seq<u8>) -> Seq<Seq<u8>> {
    match source_parent(args) {
        Some(parent) => if parent.len() > 0 {
            seq![resolved_from(cwd, parent)]
        } else {
            Seq::empty()
        },
        None => Seq::empty(),
    }
}

/// The directories in which the files of a run may be, the likeliest first.
pub open spec fn candidate_directories(args: Seq<Seq<char>>, cwd: Seq<u8>) -> Seq<Seq<u8>> {
    directory_option(args, aux_options(), cwd) + directory_option(args, output_options(), cwd)
        + changed_directory(args, cwd) + seq![cwd] + source_directory(args, cwd)
}

/// Whether an argument names a TeX source.
fn names_source(argument: &str) -> (r: bool)
    ensures
        r == is_source(argument@),
{
    let n: usize = argument.unicode_len();
    let ghost small = lowered(argument@);
    proof {
        reveal_strlit(".tex");
        if ".tex"@.is_suffix_of(small) {
            assert(".tex"@[0] == small[small.len() - 4]);
            assert(".tex"@[1] == small[small.len() - 3]);
            assert(".tex"@[2] == small[small.len() - 2]);
            assert(".tex"@[3] == small[small.len() - 1]);
        }
    }
    if n < 4 || is_option(argument) {
        return false;
    }
    let dot: char = argument.get_char(n - 4);
    let t: char = argument.get_char(n - 3);
    let e: char = argument.get_char(n - 2);
    let x: char = argument.get_char(n - 1);
    let r: bool = dot == '.' && (t == 't' || t == 'T') && (e == 'e' || e == 'E') && (x == 'x' || x
        == 'X');
    proof {
        if r {
            assert(".tex"@ =~= small.subrange(small.len() - 4, small.len() as int));
        }
    }
    r
}

/// The last argument that names a TeX source.
fn find_source(args: &[String]) -> (r: Option<&String>)
    ensures
        match r {
            Some(source) => source_of(string_views(args@)) == Some(source@),
            None => source_of(string_views(args@)) is None,
        },
{
    let ghost all = string_views(args@);
    let mut i: usize = args.len();
    assert(all.take(i as int) =~= all);
    while i > 0
        invariant
            i <= args@.len(),
            all == string_views(args@),
            source_of(all) == source_of(all.take(i as int)),
        decreases i,
    {
        i -= 1;
        proof {
            assert(all.take(i + 1).last() == args@[i as int]@);
            assert(all.take(i + 1).drop_last() =~= all.take(i as int));
        }
        if names_source(args[i].as_str()) {
            return Some(&args[i]);
        }
    }
    None
}

/// Whether `argument` is one of `args`.
fn has_argument(args: &[String], argument: &str) -> (r: bool)
    ensures
        r == string_views(args@).contains(argument@),
{
    let wanted: String = argument.to_owned();
    let ghost all = string_views(args@);
    let mut i: usize = 0;
    while i < args.len()
        invariant
            i <= args@.len(),
            all == string_views(args@),
            wanted@ == argument@,
            forall|j: int| 0 <= j < i ==> all[j] != argument@,
        decreases args@.len() - i,
    {
        assert(all[i as int] == args@[i as int]@);
        if args[i] == wanted {
            return true;
        }
        i += 1;
    }
    false
}

/// What a command line says of the files of a run.
pub struct TexInvocation {
    /// The arguments.
    pub args: Vec<String>,
    /// The name that the files have in common, where one is known.
    pub base: Option<Vec<u8>>,
    /// The directories in which the files may be, no two of them the same.
    pub directories: Vec<Vec<u8>>,
}

/// The contents of bytes that may be missing.
pub open spec fn optional_view(bytes: Option<Vec<u8>>) -> Option<Seq<u8>> {
    match bytes {
        Some(b) => Some(b@),
        None => None,
    }
}

proof fn lemma_distinct_push(paths: Seq<Seq<u8>>, path: Seq<u8>)
    ensures
        distinct_paths(paths + seq![path]) == pushed_unique(distinct_paths(paths), path),
{
    assert((paths + seq![path]).drop_last() =~= paths);
    assert((paths + seq![path]).last() == path);
}

/// The name that the files of a run have in common.
fn find_base(args: &[String], source: Option<&String>) -> (r: Option<Vec<u8>>)
    requires
        match source {
            Some(s) => source_of(string_views(args@)) == Some(s@),
            None => source_of(string_views(args@)) is None,
        },
    ensures
        optional_view(r) == base_of(string_views(args@)),
{
    let jobname: Vec<&str> = vec!["-jobname="];
    assert(str_views(jobname@) =~= seq!["-jobname="@]);
    match option_value(args, jobname.as_slice()) {
        Some(name) => Some(name.as_bytes_vec()),
        None => match source {
            Some(s) => file_stem(s.as_str().as_bytes()),
            None => None,
        },
    }
}

/// The path that an argument may be: the value of an option that takes a path,
/// or the argument itself.
pub open spec fn path_argument(argument: Seq<char>) -> Seq<char> {
    match after_first_prefix(argument, path_options()) {
        Some(value) => value,
        None => argument,
    }
}

/// The absolute paths of a command line, normalized, each once.
pub open spec fn absolute_paths(args: Seq<Seq<char>>) -> Seq<Seq<char>>
    decreases args.len(),
{
    if args.len() == 0 {
        Seq::empty()
    } else {
        let before = absolute_paths(args.drop_last());
        let path = path_argument(args.last());
        if absolute(encode_utf8(path)) && !before.contains(normalized(path)) {
            before.push(normalized(path))
        } else {
            before
        }
    }
}

impl TexInvocation {
    /// Reads a command line, given the directory that the tool runs in.
    pub fn parse(args: &[String], cwd: &[u8]) -> (r: Self)
        ensures
            string_views(r.args@) == string_views(args@),
            optional_view(r.base) == base_of(string_views(args@)),
            views(r.directories@) == distinct_paths(
                candidate_directories(string_views(args@), cwd@),
            ),
    {
        let ghost all = string_views(args@);
        let source: Option<&String> = find_source(args);
        let base: Option<Vec<u8>> = find_base(args, source);
        let output: Vec<&str> = vec!["-outdir=", "-output-directory=", "--output-directory="];
        let aux: Vec<&str> = vec!["-auxdir=", "-aux-directory=", "--aux-directory="];
        assert(str_views(output@) =~= output_options());
        assert(str_views(aux@) =~= aux_options());
        let change_directory: bool = has_argument(args, "-cd") && !has_argument(args, "-cd-");
        let source_parent: Option<Vec<u8>> = match source {
            Some(s) => parent(s.as_str().as_bytes()),
            None => None,
        };
        assert(optional_view(source_parent) == self::source_parent(all));

        let mut directories: Vec<Vec<u8>> = Vec::new();
        let ghost mut so_far = Seq::<Seq<u8>>::empty();
        assert(views(directories@) =~= distinct_paths(so_far));
        if let Some(directory) = option_value(args, aux.as_slice()) {
            let path: Vec<u8> = resolve_directory(cwd, directory);
            proof {
                lemma_distinct_push(so_far, path@);
                so_far = so_far + seq![path@];
            }
            push_unique(&mut directories, path);
        }
        let ghost first = directory_option(all, aux_options(), cwd@);
        assert(so_far =~= first);
        if let Some(directory) = option_value(args, output.as_slice()) {
            let path: Vec<u8> = resolve_directory(cwd, directory);
            proof {
                lemma_distinct_push(so_far, path@);
                so_far = so_far + seq![path@];
            }
            push_unique(&mut directories, path);
        }
        let ghost second = directory_option(all, output_options(), cwd@);
        assert(so_far =~= first + second);
        if let Some(parent) = &source_parent {
            if change_directory {
                let path: Vec<u8> = resolve_path(cwd, parent.as_slice());
                proof {
                    lemma_distinct_push(so_far, path@);
                    so_far = so_far + seq![path@];
                }
                push_unique(&mut directories, path);
            }
        }
        let ghost third = changed_directory(all, cwd@);
        assert(so_far =~= first + second + third);
        proof {
            lemma_distinct_push(so_far, cwd@);
            so_far = so_far + seq![cwd@];
        }
        push_unique(&mut directories, vstd::slice::slice_to_vec(cwd));
        if let Some(parent) = &source_parent {
            if parent.len() > 0 {
                let path: Vec<u8> = resolve_path(cwd, parent.as_slice());
                proof {
                    lemma_distinct_push(so_far, path@);
                    so_far = so_far + seq![path@];
                }
                push_unique(&mut directories, path);
            }
        }
        assert(so_far =~= candidate_directories(all, cwd@));

        let mut kept: Vec<String> = Vec::new();
        let mut i: usize = 0;
        while i < args.len()
            invariant
                i <= args@.len(),
                all == string_views(args@),
                string_views(kept@) == all.take(i as int),
            decreases args@.len() - i,
        {
            let ghost before = string_views(kept@);
            kept.push(args[i].clone());
            assert(string_views(kept@) =~= before.push(args@[i as int]@));
            assert(before.push(args@[i as int]@) =~= all.take(i + 1));
            i += 1;
        }
        assert(all.take(i as int) =~= all);
        TexInvocation { args: kept, base, directories }
    }

    /// The paths on the command line that TeX may later print in their POSIX
    /// form: those that are absolute, normalized, each once.
    pub fn absolute_windows_paths(&self) -> (r: Vec<String>)
        ensures
            string_views(r@) == absolute_paths(string_views(self.args@)),
    {
        let ghost all = string_views(self.args@);
        let mut paths: Vec<String> = Vec::new();
        let mut i: usize = 0;
        assert(all.take(0) =~= Seq::<Seq<char>>::empty());
        assert(string_views(paths@) =~= absolute_paths(all.take(0)));
        while i < self.args.len()
            invariant
                i <= self.args@.len(),
                all == string_views(self.args@),
                string_views(paths@) == absolute_paths(all.take(i as int)),
            decreases self.args@.len() - i,
        {
            let ghost before = string_views(paths@);
            proof {
                assert(all.take(i + 1).last() == self.args@[i as int]@);
                assert(all.take(i + 1).drop_last() =~= all.take(i as int));
            }
            let argument: &str = self.args[i].as_str();
            let value: &str = match option_path_value(argument) {
                Some(value) => value,
                None => argument,
            };
            if is_absolute(value.as_bytes()) {
                let path: String = normalize_windows_path(value);
                if !has_argument(paths.as_slice(), path.as_str()) {
                    let ghost text = path@;
                    paths.push(path);
                    assert(string_views(paths@) =~= before.push(text));
                }
            }
            i += 1;
        }
        assert(all.take(i as int) =~= all);
        paths
    }
}

/// Where every path of a list differs from the others.
pub open spec fn all_distinct(paths: Seq<Seq<u8>>) -> bool {
    forall|i: int, j: int|
        0 <= i < j < paths.len() ==> components(#[trigger] paths[i]) != components(
            #[trigger] paths[j],
        )
}

/// The list of directories has no two that are the same, and each candidate, or
/// one that is the same as it, is in the list.
pub proof fn law_directories_are_distinct(candidates: Seq<Seq<u8>>)
    ensures
        all_distinct(distinct_paths(candidates)),
        forall|i: int|
            0 <= i < candidates.len() ==> has_path(
                distinct_paths(candidates),
                #[trigger] candidates[i],
            ),
        distinct_paths(candidates).len() <= candidates.len(),
    decreases candidates.len(),
{
    if candidates.len() > 0 {
        let fewer = candidates.drop_last();
        law_directories_are_distinct(fewer);
        let before = distinct_paths(fewer);
        let after = distinct_paths(candidates);
        assert forall|i: int| 0 <= i < candidates.len() implies has_path(
            after,
            #[trigger] candidates[i],
        ) by {
            if i < fewer.len() {
                assert(candidates[i] == fewer[i]);
                let k = choose|k: int|
                    0 <= k < before.len() && components(#[trigger] before[k]) == components(
                        fewer[i],
                    );
                assert(after[k] == before[k]);
            } else if !has_path(before, candidates[i]) {
                assert(after[after.len() - 1] == candidates[i]);
            }
        }
    }
}

/// There are at most five directories to look in, and the one that the tool
/// runs in is among them.
pub proof fn law_at_most_five_directories(args: Seq<Seq<char>>, cwd: Seq<u8>)
    ensures
        distinct_paths(candidate_directories(args, cwd)).len() <= 5,
        has_path(distinct_paths(candidate_directories(args, cwd)), cwd),
{
    let candidates = candidate_directories(args, cwd);
    law_directories_are_distinct(candidates);
    let at = (directory_option(args, aux_options(), cwd) + directory_option(
        args,
        output_options(),
        cwd,
    ) + changed_directory(args, cwd)).len() as int;
    assert(candidates[at] == cwd);
}

/// A normalized path has no backslash, and normalizing it again changes nothing.
pub proof fn law_normalized_once(path: Seq<char>)
    ensures
        !normalized(path).contains('\\'),
        normalized(normalized(path)) == normalized(path),
{
    let once = normalized(path);
    reveal_strlit(r"\\?\UNC\");
    reveal_strlit(r"\\?\");
    assert(r"\\?\UNC\"@[0] == '\\');
    assert(r"\\?\"@[0] == '\\');
    if r"\\?\UNC\"@.is_prefix_of(once) {
        assert(once[0] == '\\');
    }
    if r"\\?\"@.is_prefix_of(once) {
        assert(once[0] == '\\');
    }
    assert(with_slashes(once) =~= once);
}

/// The paths of a command line are all different, and each absolute path on it
/// is among them.
pub proof fn law_absolute_paths_once_each(args: Seq<Seq<char>>)
    ensures
        absolute_paths(args).no_duplicates(),
        forall|i: int|
            0 <= i < args.len() && absolute(encode_utf8(path_argument(#[trigger] args[i])))
                ==> absolute_paths(args).contains(normalized(path_argument(args[i]))),
        forall|p: Seq<char>| #[trigger]
            absolute_paths(args).contains(p) ==> exists|i: int|
                0 <= i < args.len() && absolute(encode_utf8(path_argument(#[trigger] args[i])))
                    && p == normalized(path_argument(args[i])),
    decreases args.len(),
{
    if args.len() > 0 {
        let fewer = args.drop_last();
        law_absolute_paths_once_each(fewer);
        let before = absolute_paths(fewer);
        let after = absolute_paths(args);
        assert forall|i: int|
            0 <= i < args.len() && absolute(
                encode_utf8(path_argument(#[trigger] args[i])),
            ) implies after.contains(normalized(path_argument(args[i]))) by {
            let p = normalized(path_argument(args[i]));
            if i < fewer.len() {
                assert(args[i] == fewer[i]);
                let k = choose|k: int| 0 <= k < before.len() && before[k] == p;
                assert(after[k] == p);
            } else if !before.contains(p) {
                assert(after[after.len() - 1] == p);
            }
        }
        assert forall|p: Seq<char>| #[trigger] after.contains(p) implies exists|i: int|
            0 <= i < args.len() && absolute(encode_utf8(path_argument(#[trigger] args[i]))) && p
                == normalized(path_argument(args[i])) by {
            if before.contains(p) {
                let i = choose|i: int|
                    0 <= i < fewer.len() && absolute(
                        encode_utf8(path_argument(#[trigger] fewer[i])),
                    ) && p == normalized(path_argument(fewer[i]));
                assert(args[i] == fewer[i]);
            } else {
                let k = choose|k: int| 0 <= k < after.len() && after[k] == p;
                if k < before.len() {
                    assert(before[k] == p);
                }
                assert(args[args.len() - 1] == args.last());
            }
        }
    }
}

/// A text that differs from another at some place does not begin it.
pub proof fn lemma_no_prefix<T>(prefix: Seq<T>, text: Seq<T>, i: int)
    requires
        0 <= i < prefix.len(),
        i >= text.len() || prefix[i] != text[i],
    ensures
        !prefix.is_prefix_of(text),
{
    if prefix.is_prefix_of(text) {
        assert(text.subrange(0, prefix.len() as int)[i] == text[i]);
    }
}

/// The three options that name the output directory.
pub open spec fn names_output(option: Seq<char>) -> bool {
    option == "-outdir="@ || option == "-output-directory="@ || option == "--output-directory="@
}

/// The three options that name the directory of auxiliary files.
pub open spec fn names_aux(option: Seq<char>) -> bool {
    option == "-auxdir="@ || option == "-aux-directory="@ || option == "--aux-directory="@
}

proof fn lemma_output_option(option: Seq<char>, value: Seq<char>)
    requires
        names_output(option),
    ensures
        after_first_prefix(option + value, output_options()) == Some(value),
        after_first_prefix(option + value, path_options()) == Some(value),
        after_first_prefix(option + value, aux_options()) is None,
{
    reveal_strlit("-outdir=");
    reveal_strlit("-output-directory=");
    reveal_strlit("--output-directory=");
    reveal_strlit("-auxdir=");
    reveal_strlit("-aux-directory=");
    reveal_strlit("--aux-directory=");
    reveal_with_fuel(after_first_prefix, 7);
    let text = option + value;
    assert(forall|i: int| 0 <= i < option.len() ==> text[i] == option[i]);
    assert(option =~= text.subrange(0, option.len() as int));
    assert(text.skip(option.len() as int) =~= value);
    if option == "-output-directory="@ {
        lemma_no_prefix("-outdir="@, text, 4);
    } else if option == "--output-directory="@ {
        lemma_no_prefix("-outdir="@, text, 1);
        lemma_no_prefix("-output-directory="@, text, 1);
    }
    if option == "--output-directory="@ {
        lemma_no_prefix("-auxdir="@, text, 1);
        lemma_no_prefix("-aux-directory="@, text, 1);
        lemma_no_prefix("--aux-directory="@, text, 2);
    } else {
        lemma_no_prefix("-auxdir="@, text, 1);
        lemma_no_prefix("-aux-directory="@, text, 1);
        lemma_no_prefix("--aux-directory="@, text, 1);
    }
}

proof fn lemma_aux_option(option: Seq<char>, value: Seq<char>)
    requires
        names_aux(option),
    ensures
        after_first_prefix(option + value, aux_options()) == Some(value),
        after_first_prefix(option + value, path_options()) == Some(value),
        after_first_prefix(option + value, output_options()) is None,
{
    reveal_strlit("-outdir=");
    reveal_strlit("-output-directory=");
    reveal_strlit("--output-directory=");
    reveal_strlit("-auxdir=");
    reveal_strlit("-aux-directory=");
    reveal_strlit("--aux-directory=");
    reveal_with_fuel(after_first_prefix, 7);
    let text = option + value;
    assert(forall|i: int| 0 <= i < option.len() ==> text[i] == option[i]);
    assert(option =~= text.subrange(0, option.len() as int));
    assert(text.skip(option.len() as int) =~= value);
    lemma_no_prefix("-outdir="@, text, 1);
    lemma_no_prefix("-output-directory="@, text, 1);
    if option == "--aux-directory="@ {
        lemma_no_prefix("--output-directory="@, text, 2);
        lemma_no_prefix("-auxdir="@, text, 1);
        lemma_no_prefix("-aux-directory="@, text, 1);
    } else {
        lemma_no_prefix("--output-directory="@, text, 1);
        if option == "-aux-directory="@ {
            lemma_no_prefix("-auxdir="@, text, 4);
        }
    }
}

/// An argument that begins with an option of a group has it.
proof fn lemma_prefix_found(text: Seq<char>, prefixes: Seq<Seq<char>>)
    ensures
        after_first_prefix(text, prefixes) is Some <==> exists|i: int|
            0 <= i < prefixes.len() && (#[trigger] prefixes[i]).is_prefix_of(text),
    decreases prefixes.len(),
{
    if prefixes.len() > 0 {
        let rest = prefixes.drop_first();
        lemma_prefix_found(text, rest);
        if !prefixes[0].is_prefix_of(text) {
            if exists|i: int| 0 <= i < rest.len() && (#[trigger] rest[i]).is_prefix_of(text) {
                let i = choose|i: int|
                    0 <= i < rest.len() && (#[trigger] rest[i]).is_prefix_of(text);
                assert(prefixes[i + 1].is_prefix_of(text));
            }
            if exists|i: int|
                0 <= i < prefixes.len() && (#[trigger] prefixes[i]).is_prefix_of(text) {
                let i = choose|i: int|
                    0 <= i < prefixes.len() && (#[trigger] prefixes[i]).is_prefix_of(text);
                assert(rest[i - 1].is_prefix_of(text));
            }
        } else {
            assert(prefixes[0].is_prefix_of(text));
        }
    }
}

/// The value of the last argument that has one counts.
proof fn lemma_last_value_is(args: Seq<Seq<char>>, prefixes: Seq<Seq<char>>, k: int)
    requires
        0 <= k < args.len(),
        after_first_prefix(args[k], prefixes) is Some,
        forall|j: int| k < j < args.len() ==> after_first_prefix(#[trigger] args[j], prefixes) is None,
    ensures
        last_value(args, prefixes) == after_first_prefix(args[k], prefixes),
    decreases args.len(),
{
    if k + 1 < args.len() {
        assert(after_first_prefix(args[args.len() - 1], prefixes) is None);
        let fewer = args.drop_last();
        assert(fewer[k] == args[k]);
        assert forall|j: int| k < j < fewer.len() implies after_first_prefix(
            #[trigger] fewer[j],
            prefixes,
        ) is None by {
            assert(fewer[j] == args[j]);
        }
        lemma_last_value_is(fewer, prefixes, k);
    }
}

proof fn lemma_no_value(args: Seq<Seq<char>>, prefixes: Seq<Seq<char>>)
    requires
        forall|j: int| 0 <= j < args.len() ==> after_first_prefix(#[trigger] args[j], prefixes) is None,
    ensures
        last_value(args, prefixes) is None,
    decreases args.len(),
{
    if args.len() > 0 {
        assert(after_first_prefix(args[args.len() - 1], prefixes) is None);
        let fewer = args.drop_last();
        assert forall|j: int| 0 <= j < fewer.len() implies after_first_prefix(
            #[trigger] fewer[j],
            prefixes,
        ) is None by {
            assert(fewer[j] == args[j]);
        }
        lemma_no_value(fewer, prefixes);
    }
}

/// Whether an argument begins with none of the three options of a group.
pub open spec fn without_output(argument: Seq<char>) -> bool {
    !"-outdir="@.is_prefix_of(argument) && !"-output-directory="@.is_prefix_of(argument)
        && !"--output-directory="@.is_prefix_of(argument)
}

/// Whether an argument begins with none of the three options of a group.
pub open spec fn without_aux(argument: Seq<char>) -> bool {
    !"-auxdir="@.is_prefix_of(argument) && !"-aux-directory="@.is_prefix_of(argument)
        && !"--aux-directory="@.is_prefix_of(argument)
}

proof fn lemma_without_options(argument: Seq<char>)
    ensures
        without_output(argument) <==> after_first_prefix(argument, output_options()) is None,
        without_aux(argument) <==> after_first_prefix(argument, aux_options()) is None,
        without_output(argument) && without_aux(argument) <==> after_first_prefix(
            argument,
            path_options(),
        ) is None,
{
    lemma_prefix_found(argument, output_options());
    lemma_prefix_found(argument, aux_options());
    lemma_prefix_found(argument, path_options());
    let a = output_options();
    let b = aux_options();
    let c = path_options();
    assert(a[0] == "-outdir="@ && a[1] == "-output-directory="@ && a[2]
        == "--output-directory="@);
    assert(b[0] == "-auxdir="@ && b[1] == "-aux-directory="@ && b[2] == "--aux-directory="@);
    assert(c[0] == a[0] && c[1] == a[1] && c[2] == a[2] && c[3] == b[0] && c[4] == b[1] && c[5]
        == b[2]);
}

/// The directory that an option names is looked in, whichever of the six options
/// it is: the last one for the output and the last one for auxiliary files count.
/// The directory for auxiliary files comes first, and then that for the output.
pub proof fn law_option_directories_are_looked_in(
    args: Seq<Seq<char>>,
    cwd: Seq<u8>,
    k: int,
    option: Seq<char>,
    value: Seq<char>,
)
    requires
        0 <= k < args.len(),
        args[k] == option + value,
    ensures
        ({
            let all = distinct_paths(candidate_directories(args, cwd));
            let path = encode_utf8(value);
            let directory = if absolute(path) {
                path
            } else {
                joined(cwd, path)
            };
            &&& names_output(option) && (forall|j: int|
                k < j < args.len() ==> without_output(#[trigger] args[j])) ==> has_path(
                all,
                directory,
            ) && ((forall|j: int| 0 <= j < args.len() ==> without_aux(#[trigger] args[j])) ==> all[0]
                == directory)
            &&& names_aux(option) && (forall|j: int|
                k < j < args.len() ==> without_aux(#[trigger] args[j])) ==> has_path(all, directory)
                && all[0] == directory
        }),
{
    let candidates = candidate_directories(args, cwd);
    let path = encode_utf8(value);
    let directory = resolved_from(cwd, path);
    law_directories_are_distinct(candidates);
    if names_output(option) && (forall|j: int|
        k < j < args.len() ==> without_output(#[trigger] args[j])) {
        lemma_output_option(option, value);
        assert forall|j: int| k < j < args.len() implies after_first_prefix(
            #[trigger] args[j],
            output_options(),
        ) is None by {
            lemma_without_options(args[j]);
        }
        lemma_last_value_is(args, output_options(), k);
        let at = directory_option(args, aux_options(), cwd).len() as int;
        assert(candidates[at] == directory);
        if forall|j: int| 0 <= j < args.len() ==> without_aux(#[trigger] args[j]) {
            assert forall|j: int| 0 <= j < args.len() implies after_first_prefix(
                #[trigger] args[j],
                aux_options(),
            ) is None by {
                lemma_without_options(args[j]);
            }
            lemma_no_value(args, aux_options());
            assert(candidates[0] == directory);
            lemma_first_is_kept(candidates);
        }
    }
    if names_aux(option) && (forall|j: int|
        k < j < args.len() ==> without_aux(#[trigger] args[j])) {
        lemma_aux_option(option, value);
        assert forall|j: int| k < j < args.len() implies after_first_prefix(
            #[trigger] args[j],
            aux_options(),
        ) is None by {
            lemma_without_options(args[j]);
        }
        lemma_last_value_is(args, aux_options(), k);
        assert(candidates[0] == directory);
        lemma_first_is_kept(candidates);
    }
}

/// The first path of a list is the first of those that differ.
proof fn lemma_first_is_kept(paths: Seq<Seq<u8>>)
    requires
        paths.len() > 0,
    ensures
        distinct_paths(paths).len() > 0,
        distinct_paths(paths)[0] == paths[0],
    decreases paths.len(),
{
    let fewer = paths.drop_last();
    if fewer.len() > 0 {
        lemma_first_is_kept(fewer);
        assert(fewer[0] == paths[0]);
    } else {
        assert(distinct_paths(fewer) =~= Seq::<Seq<u8>>::empty());
    }
}

/// Whether an argument names a TeX source: it is no option, and ends in `.tex`, in
/// capitals or small letters.
pub open spec fn ends_in_tex(argument: Seq<char>) -> bool {
    let n = argument.len() as int;
    &&& n >= 4
    &&& argument[0] != '-'
    &&& argument[n - 4] == '.'
    &&& argument[n - 3] == 't' || argument[n - 3] == 'T'
    &&& argument[n - 2] == 'e' || argument[n - 2] == 'E'
    &&& argument[n - 1] == 'x' || argument[n - 1] == 'X'
}

proof fn lemma_is_source(argument: Seq<char>)
    ensures
        is_source(argument) == ends_in_tex(argument),
{
    reveal_strlit(".tex");
    let small = lowered(argument);
    let n = argument.len() as int;
    if is_source(argument) {
        let tail = small.subrange(n - 4, n);
        assert(tail[0] == small[n - 4] && tail[1] == small[n - 3] && tail[2] == small[n - 2]
            && tail[3] == small[n - 1]);
        assert(".tex"@[0] == tail[0] && ".tex"@[1] == tail[1] && ".tex"@[2] == tail[2]
            && ".tex"@[3] == tail[3]);
    }
    if ends_in_tex(argument) {
        assert(".tex"@ =~= small.subrange(n - 4, n));
    }
}

proof fn lemma_source_is(args: Seq<Seq<char>>, k: int)
    requires
        0 <= k < args.len(),
        ends_in_tex(args[k]),
        forall|j: int| k < j < args.len() ==> !ends_in_tex(#[trigger] args[j]),
    ensures
        source_of(args) == Some(args[k]),
    decreases args.len(),
{
    lemma_is_source(args.last());
    if k + 1 < args.len() {
        assert(!ends_in_tex(args[args.len() - 1]));
        let fewer = args.drop_last();
        assert(fewer[k] == args[k]);
        assert forall|j: int| k < j < fewer.len() implies !ends_in_tex(#[trigger] fewer[j]) by {
            assert(fewer[j] == args[j]);
        }
        lemma_source_is(fewer, k);
    }
}

proof fn lemma_no_source(args: Seq<Seq<char>>)
    requires
        forall|j: int| 0 <= j < args.len() ==> !ends_in_tex(#[trigger] args[j]),
    ensures
        source_of(args) is None,
    decreases args.len(),
{
    if args.len() > 0 {
        assert(!ends_in_tex(args[args.len() - 1]));
        lemma_is_source(args.last());
        let fewer = args.drop_last();
        assert forall|j: int| 0 <= j < fewer.len() implies !ends_in_tex(#[trigger] fewer[j]) by {
            assert(fewer[j] == args[j]);
        }
        lemma_no_source(fewer);
    }
}

/// The files of a run are named after the job, where the command line gives a name
/// to it: the last one counts. Otherwise they are named after the last argument that
/// names a TeX source, without its extension; where there is none, no name is known.
pub proof fn law_files_are_named_after_the_job_or_the_source(
    args: Seq<Seq<char>>,
    k: int,
    name: Seq<char>,
)
    requires
        0 <= k < args.len(),
    ensures
        args[k] == "-jobname="@ + name && (forall|j: int|
            k < j < args.len() ==> !"-jobname="@.is_prefix_of(#[trigger] args[j])) ==> base_of(args)
            == Some(encode_utf8(name)),
        (forall|j: int| 0 <= j < args.len() ==> !"-jobname="@.is_prefix_of(#[trigger] args[j]))
            && ends_in_tex(args[k]) && (forall|j: int|
            k < j < args.len() ==> !ends_in_tex(#[trigger] args[j])) ==> base_of(args) == stem_of(
            encode_utf8(args[k]),
        ),
        (forall|j: int|
            0 <= j < args.len() ==> !"-jobname="@.is_prefix_of(#[trigger] args[j]) && !ends_in_tex(
                args[j],
            )) ==> base_of(args) is None,
{
    let jobname = seq!["-jobname="@];
    assert(jobname[0] == "-jobname="@);
    assert forall|j: int| 0 <= j < args.len() implies "-jobname="@.is_prefix_of(#[trigger] args[j])
        == (after_first_prefix(args[j], jobname) is Some) by {
        lemma_prefix_found(args[j], jobname);
        if "-jobname="@.is_prefix_of(args[j]) {
            assert(jobname[0].is_prefix_of(args[j]));
        }
    }
    if args[k] == "-jobname="@ + name && (forall|j: int|
        k < j < args.len() ==> !"-jobname="@.is_prefix_of(#[trigger] args[j])) {
        assert("-jobname="@ =~= args[k].subrange(0, "-jobname="@.len() as int));
        assert(args[k].skip("-jobname="@.len() as int) =~= name);
        lemma_last_value_is(args, jobname, k);
    }
    if forall|j: int| 0 <= j < args.len() ==> !"-jobname="@.is_prefix_of(#[trigger] args[j]) {
        lemma_no_value(args, jobname);
        if ends_in_tex(args[k]) && (forall|j: int|
            k < j < args.len() ==> !ends_in_tex(#[trigger] args[j])) {
            lemma_source_is(args, k);
        }
        if forall|j: int| 0 <= j < args.len() ==> !ends_in_tex(#[trigger] args[j]) {
            lemma_no_source(args);
        }
    }
}

/// Where no option names a directory, the files are looked for in the directory
/// that the tool runs in and in that of the source; the latter comes first where the
/// tool is told to change to it by `-cd`, and not told by `-cd-` that it is not to.
pub proof fn law_source_directory_is_looked_in(args: Seq<Seq<char>>, cwd: Seq<u8>, k: int)
    requires
        0 <= k < args.len(),
        forall|j: int|
            0 <= j < args.len() ==> without_output(#[trigger] args[j]) && without_aux(args[j]),
    ensures
        ends_in_tex(args[k]) && (forall|j: int|
            k < j < args.len() ==> !ends_in_tex(#[trigger] args[j])) ==> (parent_of(
            encode_utf8(args[k]),
        ) matches Some(parent) ==> {
            let directory = if absolute(parent) {
                parent
            } else {
                joined(cwd, parent)
            };
            let changes = (exists|i: int| 0 <= i < args.len() && #[trigger] args[i] == "-cd"@) && (
            forall|i: int| 0 <= i < args.len() ==> #[trigger] args[i] != "-cd-"@);
            candidate_directories(args, cwd) == if changes {
                if parent.len() > 0 {
                    seq![directory, cwd, directory]
                } else {
                    seq![directory, cwd]
                }
            } else {
                if parent.len() > 0 {
                    seq![cwd, directory]
                } else {
                    seq![cwd]
                }
            }
        }),
        (forall|j: int| 0 <= j < args.len() ==> !ends_in_tex(#[trigger] args[j]))
            ==> candidate_directories(args, cwd) == seq![cwd],
{
    assert forall|j: int| 0 <= j < args.len() implies after_first_prefix(
        #[trigger] args[j],
        output_options(),
    ) is None by {
        lemma_without_options(args[j]);
    }
    assert forall|j: int| 0 <= j < args.len() implies after_first_prefix(
        #[trigger] args[j],
        aux_options(),
    ) is None by {
        lemma_without_options(args[j]);
    }
    lemma_no_value(args, output_options());
    lemma_no_value(args, aux_options());
    if ends_in_tex(args[k]) && (forall|j: int|
        k < j < args.len() ==> !ends_in_tex(#[trigger] args[j])) {
        lemma_source_is(args, k);
        if let Some(parent) = parent_of(encode_utf8(args[k])) {
            let directory = resolved_from(cwd, parent);
            let changes = (exists|i: int| 0 <= i < args.len() && #[trigger] args[i] == "-cd"@) && (
            forall|i: int| 0 <= i < args.len() ==> #[trigger] args[i] != "-cd-"@);
            assert(changes == changes_directory(args)) by {
                if args.contains("-cd"@) {
                    let i = choose|i: int| 0 <= i < args.len() && args[i] == "-cd"@;
                    assert(args[i] == "-cd"@);
                }
                if args.contains("-cd-"@) {
                    let i = choose|i: int| 0 <= i < args.len() && args[i] == "-cd-"@;
                    assert(args[i] == "-cd-"@);
                }
            }
            let expected = if changes {
                if parent.len() > 0 {
                    seq![directory, cwd, directory]
                } else {
                    seq![directory, cwd]
                }
            } else {
                if parent.len() > 0 {
                    seq![cwd, directory]
                } else {
                    seq![cwd]
                }
            };
            assert(candidate_directories(args, cwd) =~= expected);
        }
    }
    if forall|j: int| 0 <= j < args.len() ==> !ends_in_tex(#[trigger] args[j]) {
        lemma_no_source(args);
        assert(candidate_directories(args, cwd) =~= seq![cwd]);
    }
}

/// An absolute path on the command line is known before the run, whether it stands
/// by itself or is the value of one of the six options: `cygpath` gets it without
/// the prefix of an extended-length path and with slashes for backslashes.
pub proof fn law_absolute_arguments_are_known(
    args: Seq<Seq<char>>,
    k: int,
    option: Seq<char>,
    path: Seq<char>,
)
    requires
        0 <= k < args.len(),
        absolute(encode_utf8(path)),
        (args[k] == path && without_output(path) && without_aux(path)) || ((names_output(option)
            || names_aux(option)) && args[k] == option + path),
    ensures
        absolute_paths(args).contains(normalized(path)),
{
    law_absolute_paths_once_each(args);
    if args[k] == path && without_output(path) && without_aux(path) {
        lemma_without_options(path);
    } else if names_output(option) {
        lemma_output_option(option, path);
    } else {
        lemma_aux_option(option, path);
    }
    assert(path_argument(args[k]) == path);
}

/// Whether `to` is `from` with slashes in the place of backslashes.
pub open spec fn slashed(from: Seq<char>, to: Seq<char>) -> bool {
    &&& to.len() == from.len()
    &&& forall|i: int|
        0 <= i < from.len() ==> #[trigger] to[i] == if from[i] == '\\' {
            '/'
        } else {
            from[i]
        }
}

/// A path is normalized character by character: a backslash becomes a slash and
/// every other character stays. Before that the prefix of an extended-length path is
/// taken away, and that of one on a server becomes two slashes.
pub proof fn law_normalized_paths(path: Seq<char>)
    ensures
        slashed(r"\\"@ + path, normalized(r"\\?\UNC\"@ + path)),
        !r"UNC\"@.is_prefix_of(path) ==> slashed(path, normalized(r"\\?\"@ + path)),
        !r"\\?\"@.is_prefix_of(path) ==> slashed(path, normalized(path)),
{
    reveal_strlit(r"\\");
    reveal_strlit(r"\\?\UNC\");
    reveal_strlit(r"\\?\");
    reveal_strlit(r"UNC\");
    let server = r"\\?\UNC\"@ + path;
    assert(r"\\?\UNC\"@ =~= server.subrange(0, 8));
    assert(server.skip(8) =~= path);
    let local = r"\\?\"@ + path;
    assert(r"\\?\"@ =~= local.subrange(0, 4));
    assert(local.skip(4) =~= path);
    if r"\\?\UNC\"@.is_prefix_of(local) {
        assert(local.subrange(0, 8) =~= r"\\?\UNC\"@);
        assert(r"UNC\"@ =~= path.subrange(0, 4)) by {
            assert forall|i: int| 0 <= i < 4 implies r"UNC\"@[i] == path[i] by {
                assert(local.subrange(0, 8)[i + 4] == local[i + 4]);
                assert(local[i + 4] == path[i]);
                assert(r"\\?\UNC\"@[i + 4] == r"UNC\"@[i]);
            }
        }
    }
    if r"\\?\UNC\"@.is_prefix_of(path) {
        assert(r"\\?\"@ =~= path.subrange(0, 4)) by {
            assert forall|i: int| 0 <= i < 4 implies r"\\?\"@[i] == path[i] by {
                assert(path.subrange(0, 8)[i] == path[i]);
                assert(r"\\?\UNC\"@[i] == r"\\?\"@[i]);
            }
        }
    }
}

/// A path seen from a directory is itself if it is absolute, and otherwise goes on
/// from the directory.
pub proof fn law_paths_are_seen_from_the_directory(cwd: Seq<u8>, path: Seq<u8>)
    ensures
        absolute(path) ==> resolved_from(cwd, path) == path,
        !absolute(path) ==> resolved_from(cwd, path) == joined(cwd, path),
{
}

/// The directories stay in the order in which they were named: one more is put at the
/// end, unless one with the same parts is there.
pub proof fn law_directories_stay_in_order(paths: Seq<Seq<u8>>, path: Seq<u8>)
    ensures
        distinct_paths(Seq::empty()).len() == 0,
        (exists|i: int|
            0 <= i < distinct_paths(paths).len() && components(#[trigger] distinct_paths(paths)[i])
                == components(path)) ==> distinct_paths(paths.push(path)) == distinct_paths(paths),
        (forall|i: int|
            0 <= i < distinct_paths(paths).len() ==> components(#[trigger] distinct_paths(paths)[i])
                != components(path)) ==> distinct_paths(paths.push(path)) == distinct_paths(
            paths,
        ).push(path),
{
    assert(paths.push(path).drop_last() =~= paths);
    assert(paths.push(path).last() == path);
}

} // verus!
