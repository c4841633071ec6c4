//! The expansion of short names such as `RUNNER~1` in the arguments of TeX, for
//! which a tilde is syntax.
use vstd::prelude::*;
use vstd::string::*;
use vstd::utf8::*;
use crate::bytes::{append, has_prefix};
use crate::invocation::{lemma_no_prefix, names_aux, names_output, optional_view, path_options};
use crate::native_path::{absolute, is_absolute, law_other_paths_are_not_absolute};
use crate::os_text::{lossy, starts_with_surrogate, to_lossy};
use crate::text::after_first_prefix;

verus! {

/// `-`
pub const HYPHEN: u8 = 0x2d;

/// The options whose value is a path, as bytes.
pub open spec fn path_option_bytes() -> Seq<Seq<u8>> {
    path_options().map_values(|option: Seq<char>| encode_utf8(option))
}

/// A path that Windows is to be asked for the long form of, and what stands
/// before it in its argument.
pub struct PathQuery {
    pub prefix: Vec<u8>,
    pub path: Vec<u8>,
}

/// What to ask for, of an argument: the value of an option that takes a path,
/// or else an argument that is no option, where that is an absolute path.
pub open spec fn path_query(argument: Seq<u8>) -> Option<(Seq<u8>, Seq<u8>)> {
    let text = lossy(argument);
    match after_first_prefix(text, path_option_bytes()) {
        Some(value) => if absolute(value) {
            Some((text.take(text.len() - value.len()), value))
        } else {
            None
        },
        None => if !(text.len() > 0 && text[0] == HYPHEN) && absolute(argument) {
            Some((Seq::empty(), argument))
        } else {
            None
        },
    }
}

/// Where the value of an option that takes a path begins, in bytes.
fn option_path_start(text: &[u8]) -> (r: Option<usize>)
    ensures
        match r {
            Some(start) => start <= text@.len() && after_first_prefix(
                text@,
                path_option_bytes(),
            ) == Some(text@.skip(start as int)),
            None => after_first_prefix(text@, path_option_bytes()) is None,
        },
{
    let prefixes: Vec<&str> = vec![
        "-outdir=",
        "-output-directory=",
        "--output-directory=",
        "-auxdir=",
        "-aux-directory=",
        "--aux-directory=",
    ];
    let ghost all = path_option_bytes();
    assert(all =~= prefixes@.map_values(|s: &str| encode_utf8(s@)));
    let mut i: usize = 0;
    assert(all.skip(0) =~= all);
    while i < prefixes.len()
        invariant
            i <= prefixes@.len(),
            all == prefixes@.map_values(|s: &str| encode_utf8(s@)),
            all == path_option_bytes(),
            after_first_prefix(text@, all) == after_first_prefix(text@, all.skip(i as int)),
        decreases prefixes@.len() - i,
    {
        proof {
            assert(all.skip(i as int)[0] == encode_utf8(prefixes@[i as int]@));
            assert(all.skip(i as int).drop_first() =~= all.skip(i + 1));
        }
        let prefix: &[u8] = prefixes[i].as_bytes();
        if has_prefix(text, prefix) {
            return Some(prefix.len());
        }
        i += 1;
    }
    None
}

/// What Windows is to be asked for before an argument can be passed on; nothing
/// where the argument stays as it is.
pub fn expand_tex_path_argument(argument: &[u8]) -> (r: Option<PathQuery>)
    ensures
        match r {
            Some(query) => path_query(argument@) == Some((query.prefix@, query.path@)),
            None => path_query(argument@) is None,
        },
{
    let text: Vec<u8> = to_lossy(argument);
    match option_path_start(text.as_slice()) {
        Some(start) => {
            let value: &[u8] = vstd::slice::slice_subrange(text.as_slice(), start, text.len());
            if is_absolute(value) {
                let path: Vec<u8> = vstd::slice::slice_to_vec(value);
                let prefix: Vec<u8> = vstd::slice::slice_to_vec(
                    vstd::slice::slice_subrange(text.as_slice(), 0, start),
                );
                assert(path@ =~= text@.skip(start as int));
                assert(prefix@ =~= text@.take(text@.len() - path@.len()));
                Some(PathQuery { prefix, path })
            } else {
                assert(value@ =~= text@.skip(start as int));
                None
            }
        },
        None => {
            if text.len() > 0 && text[0] == HYPHEN {
                return None;
            }
            if is_absolute(argument) {
                let prefix: Vec<u8> = Vec::new();
                Some(PathQuery { prefix, path: vstd::slice::slice_to_vec(argument) })
            } else {
                None
            }
        },
    }
}

/// An argument, given the long form of the path in it where Windows has one.
pub open spec fn expanded(argument: Seq<u8>, long: spec_fn(Seq<u8>) -> Option<Seq<u8>>) -> Seq<u8> {
    match path_query(argument) {
        Some((prefix, path)) => match long(path) {
            Some(name) => prefix + name,
            None => argument,
        },
        None => argument,
    }
}

impl PathQuery {
    /// The argument that this query came from, given the long form of the path
    /// where Windows has one.
    pub fn expand(self, argument: Vec<u8>, long: Option<Vec<u8>>) -> (r: Vec<u8>)
        ensures
            r@ == match long {
                Some(name) => self.prefix@ + name@,
                None => argument@,
            },
            path_query(argument@) == Some((self.prefix@, self.path@)) ==> r@ == expanded(
                argument@,
                |path: Seq<u8>| optional_view(long),
            ),
    {
        match long {
            Some(name) => {
                let mut r: Vec<u8> = self.prefix;
                append(&mut r, name.as_slice());
                r
            },
            None => argument,
        }
    }
}

/// What to do after Windows was asked for a long name.
#[derive(Clone, Copy, PartialEq, Eq, Structural, Debug)]
pub enum LongPathReply {
    /// There is none.
    Missing,
    /// It is in the buffer, and takes so many units of it.
    Complete(usize),
    /// The buffer is to have this length; then ask again.
    Grow(usize),
}

/// The capacity to tell Windows, of a buffer of `len` units; none where the
/// number does not fit.
pub fn long_path_capacity(len: usize) -> (r: Option<u32>)
    ensures
        match r {
            Some(capacity) => capacity == len,
            None => len > u32::MAX,
        },
{
    if len <= u32::MAX as usize {
        Some(len as u32)
    } else {
        None
    }
}

/// What the length means that Windows returned for a buffer of `len` units:
/// zero for a failure, fewer than `len` for a name that fits, and otherwise the
/// length that the buffer needs, with the zero at its end.
pub fn long_path_name(len: usize, length: u32) -> (r: LongPathReply)
    ensures
        r == if length == 0 {
            LongPathReply::Missing
        } else if length < len {
            LongPathReply::Complete(length as usize)
        } else {
            LongPathReply::Grow(length as usize)
        },
{
    if length == 0 {
        LongPathReply::Missing
    } else if (length as usize) < len {
        LongPathReply::Complete(length as usize)
    } else {
        LongPathReply::Grow(length as usize)
    }
}

proof fn lemma_after_first_prefix(text: Seq<u8>, prefixes: Seq<Seq<u8>>)
    ensures
        after_first_prefix(text, prefixes) matches Some(value) ==> value.len() <= text.len()
            && text.take(text.len() - value.len()) + value == text,
    decreases prefixes.len(),
{
    if prefixes.len() > 0 {
        if prefixes[0].is_prefix_of(text) {
            let value = text.skip(prefixes[0].len() as int);
            assert(text.take(text.len() - value.len()) + value =~= text);
        } else {
            lemma_after_first_prefix(text, prefixes.drop_first());
        }
    }
}

/// What is asked for is all of the argument after the name of the option, so
/// that only a path is ever replaced.
pub proof fn law_only_the_path_is_replaced(argument: Seq<u8>)
    ensures
        path_query(argument) matches Some((prefix, path)) ==> absolute(path) && ((prefix.len() == 0
            && path == argument) || prefix + path == lossy(argument)),
{
    lemma_after_first_prefix(lossy(argument), path_option_bytes());
}

/// An argument that is an option without a path, or a path that is not
/// absolute, is passed on as it came, whatever Windows knows.
pub proof fn law_other_arguments_are_kept(
    argument: Seq<u8>,
    long: spec_fn(Seq<u8>) -> Option<Seq<u8>>,
)
    requires
        after_first_prefix(lossy(argument), path_option_bytes()) is None,
        (lossy(argument).len() > 0 && lossy(argument)[0] == HYPHEN) || !absolute(argument),
    ensures
        expanded(argument, long) == argument,
{
}

/// An argument whose path has no long form is passed on as it came.
pub proof fn law_missing_paths_are_kept(
    argument: Seq<u8>,
    long: spec_fn(Seq<u8>) -> Option<Seq<u8>>,
)
    requires
        path_query(argument) matches Some((prefix, path)) ==> long(path) is None,
    ensures
        expanded(argument, long) == argument,
{
}

/// The value of each of the six options that take a path is asked for where it is
/// absolute, and the option stays before it; an absolute path that is an argument of
/// its own is asked for as it is. Other options are not.
pub proof fn law_absolute_paths_are_asked_for(option: &str, value: Seq<u8>, argument: Seq<u8>)
    requires
        names_output(option@) || names_aux(option@),
    ensures
        absolute(value) && lossy(option.spec_bytes() + value) == option.spec_bytes() + value
            ==> path_query(option.spec_bytes() + value) == Some((option.spec_bytes(), value)),
        !absolute(value) && lossy(option.spec_bytes() + value) == option.spec_bytes() + value
            ==> path_query(option.spec_bytes() + value) is None,
        absolute(argument) && argument[0] != 0x2d ==> path_query(argument) == Some(
            (Seq::<u8>::empty(), argument),
        ),
{
    let text = option.spec_bytes() + value;
    lemma_option_bytes(option, value);
    assert(text.take(text.len() - value.len()) =~= option.spec_bytes());
    if absolute(argument) && argument[0] != 0x2d {
        law_other_paths_are_not_absolute(argument);
        lemma_lossy_first(argument);
        let start = lossy(argument);
        assert(start[0] != HYPHEN);
        lemma_hyphens();
        assert forall|i: int| 0 <= i < path_option_bytes().len() implies !(
        #[trigger] path_option_bytes()[i]).is_prefix_of(start) by {
            lemma_no_prefix(path_option_bytes()[i], start, 0);
        }
        lemma_none_begins(start, path_option_bytes());
    }
}

/// The first byte of a text, if it is no surrogate's, is that of its lossy form.
proof fn lemma_lossy_first(text: Seq<u8>)
    requires
        text.len() > 0,
        text[0] != 0x2d,
    ensures
        lossy(text).len() > 0,
        lossy(text)[0] != 0x2d,
{
    if starts_with_surrogate(text) {
        assert(lossy(text)[0] == 0xef);
    } else {
        assert(lossy(text)[0] == text[0]);
    }
}

proof fn lemma_none_begins(text: Seq<u8>, prefixes: Seq<Seq<u8>>)
    requires
        forall|i: int| 0 <= i < prefixes.len() ==> !(#[trigger] prefixes[i]).is_prefix_of(text),
    ensures
        after_first_prefix(text, prefixes) is None,
    decreases prefixes.len(),
{
    if prefixes.len() > 0 {
        let rest = prefixes.drop_first();
        assert(!prefixes[0].is_prefix_of(text));
        assert forall|i: int| 0 <= i < rest.len() implies !(#[trigger] rest[i]).is_prefix_of(
            text,
        ) by {
            assert(rest[i] == prefixes[i + 1]);
        }
        lemma_none_begins(text, rest);
    }
}

/// The options in bytes, and where they differ.
proof fn lemma_option_bytes(option: &str, value: Seq<u8>)
    requires
        names_output(option@) || names_aux(option@),
    ensures
        after_first_prefix(option.spec_bytes() + value, path_option_bytes()) == Some(value),
{
    lemma_hyphens();
    let all = path_option_bytes();
    let name = option.spec_bytes();
    let text = name + value;
    reveal_strlit("-outdir=");
    reveal_strlit("-output-directory=");
    reveal_strlit("--output-directory=");
    reveal_strlit("-auxdir=");
    reveal_strlit("-aux-directory=");
    reveal_strlit("--aux-directory=");
    assert(option.is_ascii());
    is_ascii_spec_bytes(option);
    assert(forall|i: int| 0 <= i < name.len() ==> text[i] == name[i]);
    assert(name =~= text.subrange(0, name.len() as int));
    assert(text.skip(name.len() as int) =~= value);
    reveal_with_fuel(after_first_prefix, 7);
    assert(forall|i: int| 0 <= i < name.len() ==> name[i] == option@[i] as u8);
    if option@ == "-outdir="@ {
        assert(all[0] =~= name);
    } else if option@ == "-output-directory="@ {
        lemma_no_prefix(all[0], text, 4);
        assert(all[1] =~= name);
    } else if option@ == "--output-directory="@ {
        lemma_no_prefix(all[0], text, 1);
        lemma_no_prefix(all[1], text, 1);
        assert(all[2] =~= name);
    } else if option@ == "-auxdir="@ {
        lemma_no_prefix(all[0], text, 1);
        lemma_no_prefix(all[1], text, 1);
        lemma_no_prefix(all[2], text, 1);
        assert(all[3] =~= name);
    } else if option@ == "-aux-directory="@ {
        lemma_no_prefix(all[0], text, 1);
        lemma_no_prefix(all[1], text, 1);
        lemma_no_prefix(all[2], text, 1);
        lemma_no_prefix(all[3], text, 4);
        assert(all[4] =~= name);
    } else {
        lemma_no_prefix(all[0], text, 1);
        lemma_no_prefix(all[1], text, 1);
        lemma_no_prefix(all[2], text, 2);
        lemma_no_prefix(all[3], text, 1);
        lemma_no_prefix(all[4], text, 1);
        assert(all[5] =~= name);
    }
}

/// What the options are in bytes.
proof fn lemma_hyphens()
    ensures
        path_option_bytes() == seq![
            "-outdir=".spec_bytes(),
            "-output-directory=".spec_bytes(),
            "--output-directory=".spec_bytes(),
            "-auxdir=".spec_bytes(),
            "-aux-directory=".spec_bytes(),
            "--aux-directory=".spec_bytes(),
        ],
        "-outdir=".spec_bytes().len() == 8,
        "-output-directory=".spec_bytes().len() == 18,
        "--output-directory=".spec_bytes().len() == 19,
        "-auxdir=".spec_bytes().len() == 8,
        "-aux-directory=".spec_bytes().len() == 15,
        "--aux-directory=".spec_bytes().len() == 16,
        forall|i: int| 0 <= i < 8 ==> "-outdir=".spec_bytes()[i] == "-outdir="@[i] as u8,
        forall|i: int|
            0 <= i < 18 ==> "-output-directory=".spec_bytes()[i] == "-output-directory="@[i] as u8,
        forall|i: int|
            0 <= i < 19 ==> "--output-directory=".spec_bytes()[i] == "--output-directory="@[i] as u8,
        forall|i: int| 0 <= i < 8 ==> "-auxdir=".spec_bytes()[i] == "-auxdir="@[i] as u8,
        forall|i: int|
            0 <= i < 15 ==> "-aux-directory=".spec_bytes()[i] == "-aux-directory="@[i] as u8,
        forall|i: int|
            0 <= i < 16 ==> "--aux-directory=".spec_bytes()[i] == "--aux-directory="@[i] as u8,
        forall|i: int|
            0 <= i < 6 ==> (#[trigger] path_option_bytes()[i]).len() > 0 && path_option_bytes()[i][0]
                == 0x2d,
{
    reveal_strlit("-outdir=");
    reveal_strlit("-output-directory=");
    reveal_strlit("--output-directory=");
    reveal_strlit("-auxdir=");
    reveal_strlit("-aux-directory=");
    reveal_strlit("--aux-directory=");
    assert("-outdir=".is_ascii());
    assert("-output-directory=".is_ascii());
    assert("--output-directory=".is_ascii());
    assert("-auxdir=".is_ascii());
    assert("-aux-directory=".is_ascii());
    assert("--aux-directory=".is_ascii());
    is_ascii_spec_bytes("-outdir=");
    is_ascii_spec_bytes("-output-directory=");
    is_ascii_spec_bytes("--output-directory=");
    is_ascii_spec_bytes("-auxdir=");
    is_ascii_spec_bytes("-aux-directory=");
    is_ascii_spec_bytes("--aux-directory=");
    assert(path_option_bytes() =~= seq![
        "-outdir=".spec_bytes(),
        "-output-directory=".spec_bytes(),
        "--output-directory=".spec_bytes(),
        "-auxdir=".spec_bytes(),
        "-aux-directory=".spec_bytes(),
        "--aux-directory=".spec_bytes(),
    ]);
}

/// The long form of a path takes its place in the argument, after what stood before
/// it.
pub proof fn law_long_forms_take_the_place_of_paths(
    argument: Seq<u8>,
    prefix: Seq<u8>,
    path: Seq<u8>,
    name: Seq<u8>,
    long: spec_fn(Seq<u8>) -> Option<Seq<u8>>,
)
    requires
        path_query(argument) == Some((prefix, path)),
        long(path) == Some(name),
    ensures
        expanded(argument, long) == prefix + name,
{
}

} // verus!
