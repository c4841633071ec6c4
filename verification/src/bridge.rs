//! The bridge to Cygwin: how a Bash process is set up so that arguments reach
//! it unchanged.
//!
//! Arguments cross into Cygwin in numbered environment variables. The only text
//! that is parsed on the way is a fixed command, which evaluates a script that
//! is itself in a variable.
use vstd::prelude::*;
use vstd::string::*;
use crate::bytes::{append, ascii_lower, copy, same_ignoring_case, views};
use crate::decimal::{decimal, law_decimal_is_unique, lemma_decimal_digits, push_decimal};
use crate::invocation::optional_view;
use crate::os_text::{lossy, replacement_character, starts_with_surrogate, to_lossy};
use crate::text::says;

verus! {

/// The beginning of the names of all variables that are the bridge's own.
pub const ENV_PREFIX: &'static str = "CYGSHIM_";

/// The only command text parsed while Cygwin's inherited glob mode is active.
pub const BOOTSTRAP: &'static str = "eval \"$CYGSHIM_SCRIPT\"";

/// Bash shared by every shim, which puts the arguments together again and
/// translates paths.
///
/// Argument values arrive through the environment and are expanded only as
/// quoted array elements; they are never parsed as part of this script.
pub const PRELUDE: &'static str = r#"
cygshim_args=()
cygshim_i=0
while [[ -v CYGSHIM_ARG_$cygshim_i ]]; do
  cygshim_name=CYGSHIM_ARG_$cygshim_i
  cygshim_args+=("${!cygshim_name}")
  unset "$cygshim_name"
  ((cygshim_i++))
done

if [[ -v CYGSHIM_ORIGINAL_CYGWIN ]]; then
  export CYGWIN=$CYGSHIM_ORIGINAL_CYGWIN
else
  unset CYGWIN
fi

unset CYGSHIM_ORIGINAL_CYGWIN CYGSHIM_SCRIPT cygshim_i cygshim_name

cygshim_is_windows_absolute_path() {
  local path=$1

  if [[ ${path:0:8} == '\\?\UNC\' ]]; then
    return 0
  fi
  if [[ ${path:0:4} == '\\?\' ]]; then
    path=${path:4}
  fi

  [[ ${#path} -ge 3 && ${path:1:1} == : && ( ${path:2:1} == / || ${path:2:1} == '\' ) ]] ||
    [[ ${path:0:2} == '\\' || ${path:0:2} == // ]]
}

cygshim_to_posix_path() {
  local path=$1

  if [[ ${path:0:8} == '\\?\UNC\' ]]; then
    path="\\\\${path:8}"
  elif [[ ${path:0:4} == '\\?\' ]]; then
    path=${path:4}
  fi

  cygpath -u -- "$path"
}

cygshim_to_posix_if_windows_absolute() {
  if cygshim_is_windows_absolute_path "$1"; then
    cygshim_to_posix_path "$1"
  else
    printf '%s\n' "$1"
  fi
}
"#;

/// The variable that says how Cygwin takes its command line, among other things.
pub const CYGWIN: &'static str = "CYGWIN";

/// The variable that keeps the caller's setting of `CYGWIN`.
pub const ORIGINAL_CYGWIN: &'static str = "CYGSHIM_ORIGINAL_CYGWIN";

/// The variable that holds the script.
pub const SCRIPT: &'static str = "CYGSHIM_SCRIPT";

/// The beginning of the names of the variables that hold the arguments.
pub const ARG: &'static str = "CYGSHIM_ARG_";

/// The option of `CYGWIN` that turns glob expansion off.
pub const NOGLOB: &'static str = "noglob";

/// A space.
pub const SPACE: u8 = 0x20;

/// Whether a byte is ASCII whitespace.
pub open spec fn is_space(b: u8) -> bool {
    b == SPACE || b == 0x09 || b == 0x0a || b == 0x0c || b == 0x0d
}

/// How many bytes stand before the first whitespace of a text.
pub open spec fn word_len(text: Seq<u8>) -> int
    decreases text.len(),
{
    if text.len() == 0 || is_space(text[0]) {
        0
    } else {
        1 + word_len(text.skip(1))
    }
}

proof fn lemma_word_len(text: Seq<u8>)
    ensures
        0 <= word_len(text) <= text.len(),
        forall|i: int| 0 <= i < word_len(text) ==> !is_space(#[trigger] text[i]),
        word_len(text) < text.len() ==> is_space(text[word_len(text)]),
    decreases text.len(),
{
    if text.len() > 0 && !is_space(text[0]) {
        lemma_word_len(text.skip(1));
        assert forall|i: int| 0 <= i < word_len(text) implies !is_space(#[trigger] text[i]) by {
            if i > 0 {
                assert(text.skip(1)[i - 1] == text[i]);
            }
        }
    }
}

proof fn lemma_word_len_is(text: Seq<u8>, n: int)
    requires
        0 <= n <= text.len(),
        forall|i: int| 0 <= i < n ==> !is_space(#[trigger] text[i]),
        n < text.len() ==> is_space(text[n]),
    ensures
        word_len(text) == n,
    decreases text.len(),
{
    if n > 0 {
        let rest = text.skip(1);
        assert(!is_space(text[0]));
        assert forall|i: int| 0 <= i < n - 1 implies !is_space(#[trigger] rest[i]) by {
            assert(rest[i] == text[i + 1]);
        }
        lemma_word_len_is(rest, n - 1);
    }
}

/// The words of a text: what stands between whitespace.
pub open spec fn words(text: Seq<u8>) -> Seq<Seq<u8>>
    decreases text.len(),
{
    if text.len() == 0 {
        Seq::empty()
    } else if is_space(text[0]) {
        words(text.skip(1))
    } else {
        let n = word_len(text);
        if 0 < n <= text.len() {
            seq![text.take(n)] + words(text.skip(n))
        } else {
            Seq::empty()
        }
    }
}

/// Words with a space between each two.
pub open spec fn sentence(list: Seq<Seq<u8>>) -> Seq<u8>
    decreases list.len(),
{
    if list.len() == 0 {
        Seq::empty()
    } else if list.len() == 1 {
        list[0]
    } else {
        sentence(list.drop_last()).push(SPACE) + list.last()
    }
}

/// Whether an option of `CYGWIN` stays, as a function of the option.
pub open spec fn stays() -> spec_fn(Seq<u8>) -> bool {
    |option: Seq<u8>| !same_ignoring_case(option, NOGLOB.spec_bytes())
}

/// A setting of `CYGWIN` without `noglob`.
pub open spec fn noglob_removed(value: Seq<u8>) -> Seq<u8> {
    sentence(words(lossy(value)).filter(stays()))
}

/// Whether two byte strings are the same but for the case of ASCII letters.
fn equal_ignoring_case(a: &[u8], b: &[u8]) -> (r: bool)
    ensures
        r == same_ignoring_case(a@, b@),
{
    if a.len() != b.len() {
        return false;
    }
    let mut i: usize = 0;
    while i < a.len()
        invariant
            a@.len() == b@.len(),
            i <= a@.len(),
            forall|j: int| 0 <= j < i ==> ascii_lower(#[trigger] a@[j]) == ascii_lower(b@[j]),
        decreases a@.len() - i,
    {
        let x: u8 = a[i];
        let y: u8 = b[i];
        let lower_x: u8 = if 0x41 <= x && x <= 0x5a {
            x + 0x20
        } else {
            x
        };
        let lower_y: u8 = if 0x41 <= y && y <= 0x5a {
            y + 0x20
        } else {
            y
        };
        if lower_x != lower_y {
            assert(ascii_lower(a@[i as int]) != ascii_lower(b@[i as int]));
            return false;
        }
        i += 1;
    }
    true
}

/// The options of a setting that stay.
fn kept_words(text: &[u8]) -> (r: Vec<Vec<u8>>)
    ensures
        views(r@) == words(text@).filter(stays()),
{
    let mut r: Vec<Vec<u8>> = Vec::new();
    let ghost mut done = Seq::<Seq<u8>>::empty();
    let mut i: usize = 0;
    assert(text@.skip(0) =~= text@);
    assert(done + words(text@) =~= words(text@));
    assert(views(r@) =~= done.filter(stays())) by {
        reveal(Seq::filter);
    }
    while i < text.len()
        invariant
            i <= text@.len(),
            words(text@) == done + words(text@.skip(i as int)),
            views(r@) == done.filter(stays()),
        decreases text@.len() - i,
    {
        let ghost rest = text@.skip(i as int);
        let b: u8 = text[i];
        assert(rest[0] == b);
        if b == SPACE || b == 0x09 || b == 0x0a || b == 0x0c || b == 0x0d {
            assert(rest.skip(1) =~= text@.skip(i + 1));
            i += 1;
        } else {
            let mut end: usize = i + 1;
            while end < text.len() && !(text[end] == SPACE || text[end] == 0x09 || text[end] == 0x0a
                || text[end] == 0x0c || text[end] == 0x0d)
                invariant
                    i < end <= text@.len(),
                    forall|j: int| i <= j < end ==> !is_space(#[trigger] text@[j]),
                decreases text@.len() - end,
            {
                end += 1;
            }
            let ghost n = end - i;
            let word: &[u8] = vstd::slice::slice_subrange(text, i, end);
            proof {
                assert forall|j: int| 0 <= j < n implies !is_space(#[trigger] rest[j]) by {
                    assert(rest[j] == text@[i + j]);
                }
                if n < rest.len() {
                    assert(rest[n] == text@[end as int]);
                }
                lemma_word_len_is(rest, n);
                assert(rest.take(n) =~= word@);
                assert(rest.skip(n) =~= text@.skip(end as int));
                assert(done + (seq![word@] + words(text@.skip(end as int))) =~= done.push(word@)
                    + words(text@.skip(end as int)));
                reveal(Seq::filter);
                assert(done.push(word@).drop_last() =~= done);
                assert(done.push(word@).last() == word@);
            }
            let ghost before = views(r@);
            if !equal_ignoring_case(word, NOGLOB.as_bytes()) {
                r.push(vstd::slice::slice_to_vec(word));
                assert(views(r@) =~= before.push(word@));
            }
            proof {
                done = done.push(word@);
            }
            i = end;
        }
    }
    assert(text@.skip(i as int) =~= Seq::<u8>::empty());
    assert(done + Seq::<Seq<u8>>::empty() =~= done);
    r
}

/// Removes the option `noglob`, in whatever case, and keeps the caller's other
/// options.
pub fn without_noglob(value: &[u8]) -> (r: Vec<u8>)
    ensures
        r@ == noglob_removed(value@),
{
    let text: Vec<u8> = to_lossy(value);
    let kept: Vec<Vec<u8>> = kept_words(text.as_slice());
    let ghost all = views(kept@);
    let mut r: Vec<u8> = Vec::new();
    let mut i: usize = 0;
    assert(r@ =~= sentence(all.take(0)));
    while i < kept.len()
        invariant
            i <= kept@.len(),
            all == views(kept@),
            r@ == sentence(all.take(i as int)),
        decreases kept@.len() - i,
    {
        let ghost before = r@;
        proof {
            assert(all.take(i + 1).drop_last() =~= all.take(i as int));
            assert(all.take(i + 1).last() == kept@[i as int]@);
        }
        if i > 0 {
            r.push(SPACE);
            append(&mut r, kept[i].as_slice());
        } else {
            append(&mut r, kept[i].as_slice());
            assert(r@ =~= kept@[0]@);
            assert(all.take(1)[0] == kept@[0]@);
        }
        i += 1;
    }
    assert(all.take(i as int) =~= all);
    r
}

/// Whether a text begins with `prefix`, but for the case of ASCII letters.
pub open spec fn begins_ignoring_case(text: Seq<u8>, prefix: Seq<u8>) -> bool {
    prefix.len() <= text.len() && same_ignoring_case(text.take(prefix.len() as int), prefix)
}

/// Whether a text of the operating system begins with `prefix`, but for the
/// case of ASCII letters.
pub fn starts_with_ignore_ascii_case(value: &[u8], prefix: &str) -> (r: bool)
    ensures
        r == begins_ignoring_case(lossy(value@), prefix.spec_bytes()),
{
    let text: Vec<u8> = to_lossy(value);
    let wanted: &[u8] = prefix.as_bytes();
    if wanted.len() > text.len() {
        return false;
    }
    let start: &[u8] = vstd::slice::slice_subrange(text.as_slice(), 0, wanted.len());
    assert(start@ =~= text@.take(wanted@.len() as int));
    equal_ignoring_case(start, wanted)
}

/// A change to the environment of a process.
pub enum EnvChange {
    Remove(Vec<u8>),
    Assign(Vec<u8>, Vec<u8>),
}

/// A change to the environment of a process, as values.
#[verifier::ext_equal]
pub enum EnvStep {
    Remove(Seq<u8>),
    Assign(Seq<u8>, Seq<u8>),
}

impl View for EnvChange {
    type V = EnvStep;

    open spec fn view(&self) -> EnvStep {
        match self {
            EnvChange::Remove(name) => EnvStep::Remove(name@),
            EnvChange::Assign(name, value) => EnvStep::Assign(name@, value@),
        }
    }
}

/// The values of a list of changes.
pub open spec fn change_views(changes: Seq<EnvChange>) -> Seq<EnvStep> {
    changes.map_values(|change: EnvChange| change@)
}

/// Whether the name of a variable is one of the bridge's own, as a function of
/// the name.
pub open spec fn reserved() -> spec_fn(Seq<u8>) -> bool {
    |name: Seq<u8>| begins_ignoring_case(lossy(name), ENV_PREFIX.spec_bytes())
}

/// The removal of some variables.
pub open spec fn removals(names: Seq<Seq<u8>>) -> Seq<EnvStep> {
    names.filter(reserved()).map_values(|name: Seq<u8>| EnvStep::Remove(name))
}

/// What is done about `CYGWIN`: without `noglob` for the fixed command, and kept
/// as it is for the script to restore.
pub open spec fn cygwin_changes(cygwin: Option<Seq<u8>>) -> Seq<EnvStep> {
    match cygwin {
        Some(value) => seq![
            EnvStep::Assign(CYGWIN.spec_bytes(), noglob_removed(value)),
            EnvStep::Assign(ORIGINAL_CYGWIN.spec_bytes(), value),
        ],
        None => seq![EnvStep::Remove(CYGWIN.spec_bytes())],
    }
}

/// The script that runs a tool: the part that all shims share, and then that of
/// the tool.
pub open spec fn whole_script(tool_script: Seq<u8>) -> Seq<u8> {
    PRELUDE.spec_bytes() + "\n".spec_bytes() + tool_script
}

/// The name of the variable that holds an argument.
pub open spec fn arg_name(index: int) -> Seq<u8> {
    ARG.spec_bytes() + decimal(index as nat)
}

/// The variables that hold the arguments.
pub open spec fn arg_changes(args: Seq<Seq<u8>>) -> Seq<EnvStep> {
    Seq::new(args.len(), |i: int| EnvStep::Assign(arg_name(i), args[i]))
}

/// All changes to the environment, in order.
pub open spec fn all_changes(
    tool_script: Seq<u8>,
    args: Seq<Seq<u8>>,
    names: Seq<Seq<u8>>,
    cygwin: Option<Seq<u8>>,
) -> Seq<EnvStep> {
    removals(names) + cygwin_changes(cygwin) + seq![
        EnvStep::Assign(SCRIPT.spec_bytes(), whole_script(tool_script)),
    ] + arg_changes(args)
}

/// Which of the standard streams is a terminal.
#[derive(Clone, Copy, PartialEq, Eq, Structural, Debug)]
pub struct Terminals {
    pub stdin: bool,
    pub stdout: bool,
    pub stderr: bool,
}

/// A Bash process that is to be started.
pub struct BashCommand {
    pub program: Vec<u8>,
    pub arguments: Vec<Vec<u8>>,
    /// The changes to the inherited environment, to be made in order.
    pub changes: Vec<EnvChange>,
    /// Whether no console window is to be created for it.
    pub no_window: bool,
}

/// The changes that remove the bridge's own variables.
fn make_removals(names: &[Vec<u8>]) -> (r: Vec<EnvChange>)
    ensures
        change_views(r@) == removals(views(names@)),
{
    let mut r: Vec<EnvChange> = Vec::new();
    let ghost all = views(names@);
    let mut i: usize = 0;
    assert(change_views(r@) =~= removals(all.take(0))) by {
        reveal(Seq::filter);
    }
    while i < names.len()
        invariant
            i <= names@.len(),
            all == views(names@),
            change_views(r@) == removals(all.take(i as int)),
        decreases names@.len() - i,
    {
        let ghost before = change_views(r@);
        let ghost name = names@[i as int]@;
        proof {
            reveal(Seq::filter);
            assert(all.take(i + 1).drop_last() =~= all.take(i as int));
            assert(all.take(i + 1).last() == name);
        }
        if starts_with_ignore_ascii_case(names[i].as_slice(), ENV_PREFIX) {
            r.push(EnvChange::Remove(copy(&names[i])));
            assert(change_views(r@) =~= before.push(EnvStep::Remove(name)));
            assert(removals(all.take(i + 1)) =~= before.push(EnvStep::Remove(name)));
        } else {
            assert(removals(all.take(i + 1)) =~= before);
        }
        i += 1;
    }
    assert(all.take(i as int) =~= all);
    r
}

/// A change that sets a variable.
fn assign(name: &str, value: Vec<u8>) -> (r: EnvChange)
    ensures
        r@ == EnvStep::Assign(name.spec_bytes(), value@),
{
    EnvChange::Assign(name.as_bytes_vec(), value)
}

/// Adds a change to a list.
fn push_change(changes: &mut Vec<EnvChange>, change: EnvChange)
    ensures
        change_views(final(changes)@) == change_views(old(changes)@).push(change@),
{
    changes.push(change);
    assert(change_views(changes@) =~= change_views(old(changes)@).push(change@));
}

/// Sets up the Bash process for a tool: the changes to the environment that it
/// inherits, given the names of the variables in it and its setting of
/// `CYGWIN`, and whether it gets no console window, since none of the standard
/// streams is a terminal.
pub fn make_command(
    bash: Vec<u8>,
    tool_script: &str,
    args: &[Vec<u8>],
    names: &[Vec<u8>],
    cygwin: Option<Vec<u8>>,
    terminals: Terminals,
) -> (r: BashCommand)
    ensures
        r.program == bash,
        views(r.arguments@) == seq!["-c".spec_bytes(), BOOTSTRAP.spec_bytes()],
        change_views(r.changes@) == all_changes(
            tool_script.spec_bytes(),
            views(args@),
            views(names@),
            optional_view(cygwin),
        ),
        r.no_window == (!terminals.stdin && !terminals.stdout && !terminals.stderr),
{
    let arguments: Vec<Vec<u8>> = vec!["-c".as_bytes_vec(), BOOTSTRAP.as_bytes_vec()];
    assert(views(arguments@) =~= seq!["-c".spec_bytes(), BOOTSTRAP.spec_bytes()]);
    let mut changes: Vec<EnvChange> = make_removals(names);
    let ghost first = removals(views(names@));
    let ghost second = cygwin_changes(optional_view(cygwin));
    match cygwin {
        Some(value) => {
            push_change(&mut changes, assign(CYGWIN, without_noglob(value.as_slice())));
            push_change(&mut changes, assign(ORIGINAL_CYGWIN, value));
        },
        None => {
            push_change(&mut changes, EnvChange::Remove(CYGWIN.as_bytes_vec()));
        },
    }
    assert(change_views(changes@) =~= first + second);
    let mut script: Vec<u8> = PRELUDE.as_bytes_vec();
    append(&mut script, "\n".as_bytes());
    append(&mut script, tool_script.as_bytes());
    push_change(&mut changes, assign(SCRIPT, script));
    let ghost third = seq![
        EnvStep::Assign(SCRIPT.spec_bytes(), whole_script(tool_script.spec_bytes())),
    ];
    let ghost last = arg_changes(views(args@));
    let mut i: usize = 0;
    assert(change_views(changes@) =~= first + second + third + last.take(0));
    while i < args.len()
        invariant
            i <= args@.len(),
            last == arg_changes(views(args@)),
            change_views(changes@) == first + second + third + last.take(i as int),
        decreases args@.len() - i,
    {
        let mut name: Vec<u8> = ARG.as_bytes_vec();
        push_decimal(&mut name, i as u64);
        let ghost before = change_views(changes@);
        let ghost step = EnvStep::Assign(name@, args@[i as int]@);
        push_change(&mut changes, EnvChange::Assign(name, copy(&args[i])));
        assert(last[i as int] == step);
        assert(before.push(step) =~= first + second + third + last.take(i + 1));
        i += 1;
    }
    assert(last.take(i as int) =~= last);
    let no_window: bool = !terminals.stdin && !terminals.stdout && !terminals.stderr;
    BashCommand { program: bash, arguments, changes, no_window }
}

/// The exit status of a shim, given that of the program that it ran, if it has
/// one. There is room for eight bits: a status that fits is forwarded as it is,
/// and of a larger or negative one the lowest eight bits are. A failure stays a
/// failure: it is 1 where those bits are all zero, and for a program that was
/// stopped.
pub open spec fn forwarded_status(code: Option<i32>) -> int {
    match code {
        Some(status) => if status != 0 && status as int % 256 == 0 {
            1
        } else {
            status as int % 256
        },
        None => 1,
    }
}

/// The exit status of a shim, given that of the program that it ran, if it has
/// one. A status that fits is forwarded as it is, and a failure is never
/// forwarded as a success.
pub fn exit_status(code: Option<i32>) -> (r: u8)
    ensures
        r == forwarded_status(code),
        code matches Some(status) ==> (0 <= status <= 255 ==> r == status),
        code matches Some(status) ==> (status != 0 ==> r != 0),
        code is None ==> r == 1,
{
    match code {
        Some(status) => {
            let low: u8 = status as u8;
            assert(low as int == status as int % 256) by (bit_vector)
                requires
                    low == status as u8,
            ;
            if low == 0 && status != 0 {
                1
            } else {
                low
            }
        },
        None => 1,
    }
}

/// The name of a variable with its case left out: names that differ in nothing
/// else are one name to Windows.
pub open spec fn folded(name: Seq<u8>) -> Seq<u8> {
    name.map_values(|b: u8| ascii_lower(b))
}

/// An environment, a map from folded names to values, after some changes.
pub open spec fn applied(
    env: Map<Seq<u8>, Seq<u8>>,
    changes: Seq<EnvStep>,
) -> Map<Seq<u8>, Seq<u8>>
    decreases changes.len(),
{
    if changes.len() == 0 {
        env
    } else {
        let before = applied(env, changes.drop_last());
        match changes.last() {
            EnvStep::Remove(name) => before.remove(folded(name)),
            EnvStep::Assign(name, value) => before.insert(folded(name), value),
        }
    }
}

/// Whether a list names all variables of an environment.
pub open spec fn lists(names: Seq<Seq<u8>>, env: Map<Seq<u8>, Seq<u8>>) -> bool {
    forall|key: Seq<u8>| #[trigger]
        env.contains_key(key) ==> exists|i: int|
            0 <= i < names.len() && folded(#[trigger] names[i]) == key
}

/// Whether a folded name is one of the bridge's own.
pub open spec fn reserved_key(key: Seq<u8>) -> bool {
    folded(ENV_PREFIX.spec_bytes()).is_prefix_of(key)
}

proof fn lemma_applied_add(
    env: Map<Seq<u8>, Seq<u8>>,
    first: Seq<EnvStep>,
    second: Seq<EnvStep>,
)
    ensures
        applied(env, first + second) == applied(applied(env, first), second),
    decreases second.len(),
{
    if second.len() == 0 {
        assert(first + second =~= first);
    } else {
        assert((first + second).drop_last() =~= first + second.drop_last());
        assert((first + second).last() == second.last());
        lemma_applied_add(env, first, second.drop_last());
    }
}

proof fn lemma_applied_removals(env: Map<Seq<u8>, Seq<u8>>, names: Seq<Seq<u8>>)
    ensures
        ({
            let after = applied(env, removals(names));
            &&& forall|key: Seq<u8>| #[trigger]
                after.contains_key(key) ==> env.contains_key(key) && after[key] == env[key]
            &&& forall|i: int|
                0 <= i < names.len() && reserved()(#[trigger] names[i]) ==> !after.contains_key(
                    folded(names[i]),
                )
            &&& forall|key: Seq<u8>| #[trigger]
                env.contains_key(key) && (forall|i: int|
                    0 <= i < names.len() && reserved()(#[trigger] names[i]) ==> folded(names[i])
                        != key) ==> after.contains_key(key)
        }),
    decreases names.len(),
{
    reveal(Seq::filter);
    if names.len() == 0 {
        assert(removals(names) =~= Seq::<EnvStep>::empty());
    } else {
        let fewer = names.drop_last();
        let name = names.last();
        lemma_applied_removals(env, fewer);
        let before = applied(env, removals(fewer));
        let after = applied(env, removals(names));
        if reserved()(name) {
            assert(removals(names) =~= removals(fewer).push(EnvStep::Remove(name)));
            assert(removals(names).drop_last() =~= removals(fewer));
            assert(after == before.remove(folded(name)));
        } else {
            assert(removals(names) =~= removals(fewer));
        }
        assert forall|i: int| 0 <= i < names.len() && reserved()(#[trigger] names[i]) implies
            !after.contains_key(folded(names[i])) by {
            if i < fewer.len() {
                assert(fewer[i] == names[i]);
            }
        }
        assert forall|key: Seq<u8>| #[trigger]
            env.contains_key(key) && (forall|i: int|
                0 <= i < names.len() && reserved()(#[trigger] names[i]) ==> folded(names[i])
                    != key) implies after.contains_key(key) by {
            assert forall|i: int| 0 <= i < fewer.len() && reserved()(
                #[trigger] fewer[i],
            ) implies folded(fewer[i]) != key by {
                assert(fewer[i] == names[i]);
            }
            assert(before.contains_key(key));
            if reserved()(name) {
                assert(names[names.len() - 1] == name);
            }
        }
    }
}

proof fn lemma_lossy_keeps_ascii(name: Seq<u8>, n: int)
    requires
        0 <= n <= name.len(),
        forall|i: int| 0 <= i < n ==> #[trigger] name[i] < 0x80,
    ensures
        lossy(name).len() >= n,
        lossy(name).take(n) == name.take(n),
    decreases n,
{
    if n > 0 {
        assert(name[0] < 0x80);
        let rest = name.skip(1);
        assert forall|i: int| 0 <= i < n - 1 implies #[trigger] rest[i] < 0x80 by {
            assert(rest[i] == name[i + 1]);
        }
        lemma_lossy_keeps_ascii(rest, n - 1);
        assert(lossy(name) == seq![name[0]] + lossy(rest));
        assert forall|i: int| 0 <= i < n implies lossy(name).take(n)[i] == name.take(n)[i] by {
            if i > 0 {
                assert(lossy(rest).take(n - 1)[i - 1] == rest.take(n - 1)[i - 1]);
            }
        }
        assert(lossy(name).take(n) =~= name.take(n));
    } else {
        assert(lossy(name).take(n) =~= name.take(n));
    }
}

/// A variable whose folded name is one of the bridge's own is removed.
proof fn lemma_reserved_names(name: Seq<u8>)
    requires
        reserved_key(folded(name)),
    ensures
        reserved()(name),
{
    let prefix = ENV_PREFIX.spec_bytes();
    reveal_strlit("CYGSHIM_");
    assert(ENV_PREFIX.is_ascii());
    is_ascii_spec_bytes(ENV_PREFIX);
    let n = prefix.len() as int;
    assert(folded(prefix).len() == n);
    assert forall|i: int| 0 <= i < n implies ascii_lower(#[trigger] name[i]) == ascii_lower(
        prefix[i],
    ) && name[i] < 0x80 by {
        assert(folded(name)[i] == folded(prefix)[i]);
        assert(prefix[i] == ENV_PREFIX@[i] as u8);
        assert(prefix[i] < 0x80);
    }
    lemma_lossy_keeps_ascii(name, n);
    let start = lossy(name).take(n);
    assert forall|i: int| 0 <= i < start.len() implies ascii_lower(#[trigger] start[i])
        == ascii_lower(prefix[i]) by {
        assert(start[i] == name.take(n)[i]);
        assert(name.take(n)[i] == name[i]);
    }
}

proof fn lemma_lossy_ascii_is_kept(name: Seq<u8>, n: int)
    requires
        0 <= n <= lossy(name).len(),
        forall|i: int| 0 <= i < n ==> #[trigger] lossy(name)[i] < 0x80,
    ensures
        name.len() >= n,
        lossy(name).take(n) == name.take(n),
    decreases n,
{
    if n > 0 {
        let rest = name.skip(1);
        assert(lossy(name)[0] < 0x80);
        assert(!starts_with_surrogate(name)) by {
            if starts_with_surrogate(name) {
                assert(lossy(name)[0] == replacement_character()[0]);
            }
        }
        assert(lossy(name) == seq![name[0]] + lossy(rest));
        assert forall|i: int| 0 <= i < n - 1 implies #[trigger] lossy(rest)[i] < 0x80 by {
            assert(lossy(rest)[i] == lossy(name)[i + 1]);
        }
        lemma_lossy_ascii_is_kept(rest, n - 1);
        assert forall|i: int| 0 <= i < n implies lossy(name).take(n)[i] == name.take(n)[i] by {
            if i > 0 {
                assert(lossy(rest).take(n - 1)[i - 1] == rest.take(n - 1)[i - 1]);
            }
        }
        assert(lossy(name).take(n) =~= name.take(n));
    } else {
        assert(lossy(name).take(n) =~= name.take(n));
    }
}

/// A variable that is removed has one of the bridge's own names.
proof fn lemma_reserved_keys(name: Seq<u8>)
    requires
        reserved()(name),
    ensures
        reserved_key(folded(name)),
{
    let prefix = ENV_PREFIX.spec_bytes();
    reveal_strlit("CYGSHIM_");
    assert(ENV_PREFIX.is_ascii());
    is_ascii_spec_bytes(ENV_PREFIX);
    let n = prefix.len() as int;
    let start = lossy(name).take(n);
    assert forall|i: int| 0 <= i < n implies #[trigger] lossy(name)[i] < 0x80 && ascii_lower(
        lossy(name)[i],
    ) == ascii_lower(prefix[i]) by {
        assert(start[i] == lossy(name)[i]);
        assert(prefix[i] == ENV_PREFIX@[i] as u8);
        assert(prefix[i] < 0x80);
    }
    lemma_lossy_ascii_is_kept(name, n);
    assert(folded(prefix) =~= folded(name).subrange(0, n)) by {
        assert forall|i: int| 0 <= i < n implies folded(prefix)[i] == folded(name)[i] by {
            assert(start[i] == name.take(n)[i]);
            assert(ascii_lower(lossy(name)[i]) == ascii_lower(prefix[i]));
        }
    }
}

proof fn lemma_folded_add(a: Seq<u8>, b: Seq<u8>)
    ensures
        folded(a + b) == folded(a) + folded(b),
{
    assert(folded(a + b) =~= folded(a) + folded(b));
}

proof fn lemma_arg_keys(i: int, j: int)
    requires
        0 <= i,
        0 <= j,
    ensures
        folded(arg_name(i)) == folded(ARG.spec_bytes()) + decimal(i as nat),
        i != j ==> folded(arg_name(i)) != folded(arg_name(j)),
{
    lemma_decimal_digits(i as nat);
    lemma_decimal_digits(j as nat);
    let head = folded(ARG.spec_bytes());
    lemma_folded_add(ARG.spec_bytes(), decimal(i as nat));
    lemma_folded_add(ARG.spec_bytes(), decimal(j as nat));
    assert(folded(decimal(i as nat)) =~= decimal(i as nat));
    assert(folded(decimal(j as nat)) =~= decimal(j as nat));
    if folded(arg_name(i)) == folded(arg_name(j)) {
        assert((head + decimal(i as nat)).skip(head.len() as int) =~= decimal(i as nat));
        assert((head + decimal(j as nat)).skip(head.len() as int) =~= decimal(j as nat));
        law_decimal_is_unique(i as nat, j as nat);
    }
}

proof fn lemma_applied_args(env: Map<Seq<u8>, Seq<u8>>, args: Seq<Seq<u8>>, n: int)
    requires
        0 <= n <= args.len(),
    ensures
        ({
            let after = applied(env, arg_changes(args).take(n));
            &&& forall|i: int|
                0 <= i < n ==> after.contains_key(#[trigger] folded(arg_name(i)))
                    && after[folded(arg_name(i))] == args[i]
            &&& forall|key: Seq<u8>|
                (forall|i: int| 0 <= i < n ==> #[trigger] folded(arg_name(i)) != key) ==> (
                #[trigger] after.contains_key(key) == env.contains_key(key)) && after[key]
                    == env[key]
        }),
    decreases n,
{
    let changes = arg_changes(args);
    if n > 0 {
        lemma_applied_args(env, args, n - 1);
        assert(changes.take(n).drop_last() =~= changes.take(n - 1));
        assert(changes.take(n).last() == EnvStep::Assign(arg_name(n - 1), args[n - 1]));
        let before = applied(env, changes.take(n - 1));
        let after = applied(env, changes.take(n));
        assert(after == before.insert(folded(arg_name(n - 1)), args[n - 1]));
        assert forall|i: int| 0 <= i < n implies after.contains_key(
            #[trigger] folded(arg_name(i)),
        ) && after[folded(arg_name(i))] == args[i] by {
            lemma_arg_keys(i, n - 1);
            if i < n - 1 {
                assert(before.contains_key(folded(arg_name(i))));
            }
        }
        assert forall|key: Seq<u8>|
            (forall|i: int| 0 <= i < n ==> #[trigger] folded(arg_name(i)) != key) implies (
        #[trigger] after.contains_key(key) == env.contains_key(key)) && after[key] == env[key] by {
            assert(folded(arg_name(n - 1)) != key);
            assert(before.contains_key(key) == env.contains_key(key));
        }
    } else {
        assert(changes.take(0) =~= Seq::<EnvStep>::empty());
    }
}

/// The environment before the arguments are put into it.
spec fn without_args(
    env: Map<Seq<u8>, Seq<u8>>,
    tool_script: Seq<u8>,
    names: Seq<Seq<u8>>,
    cygwin: Option<Seq<u8>>,
) -> Map<Seq<u8>, Seq<u8>> {
    let cleared = applied(env, removals(names));
    let settled = match cygwin {
        Some(value) => cleared.insert(
            folded(CYGWIN.spec_bytes()),
            noglob_removed(value),
        ).insert(folded(ORIGINAL_CYGWIN.spec_bytes()), value),
        None => cleared.remove(folded(CYGWIN.spec_bytes())),
    };
    settled.insert(folded(SCRIPT.spec_bytes()), whole_script(tool_script))
}

proof fn lemma_all_changes(
    env: Map<Seq<u8>, Seq<u8>>,
    tool_script: Seq<u8>,
    args: Seq<Seq<u8>>,
    names: Seq<Seq<u8>>,
    cygwin: Option<Seq<u8>>,
)
    ensures
        applied(env, all_changes(tool_script, args, names, cygwin)) == applied(
            without_args(env, tool_script, names, cygwin),
            arg_changes(args).take(args.len() as int),
        ),
{
    let first = removals(names);
    let second = cygwin_changes(cygwin);
    let third = seq![EnvStep::Assign(SCRIPT.spec_bytes(), whole_script(tool_script))];
    let last = arg_changes(args);
    lemma_applied_add(env, first + second + third, last);
    lemma_applied_add(env, first + second, third);
    lemma_applied_add(env, first, second);
    assert(last.take(args.len() as int) =~= last);
    let cleared = applied(env, first);
    reveal_with_fuel(applied, 3);
    match cygwin {
        Some(value) => {
            assert(second.drop_last() =~= seq![
                EnvStep::Assign(CYGWIN.spec_bytes(), noglob_removed(value)),
            ]);
            assert(second.drop_last().drop_last() =~= Seq::<EnvStep>::empty());
        },
        None => {
            assert(second.drop_last() =~= Seq::<EnvStep>::empty());
        },
    }
    assert(third.drop_last() =~= Seq::<EnvStep>::empty());
    assert(applied(applied(cleared, second), third) =~= without_args(
        env,
        tool_script,
        names,
        cygwin,
    ));
}

/// The names of the bridge's own variables are different, and `CYGWIN` is none
/// of them.
proof fn lemma_names_differ(i: int)
    requires
        0 <= i,
    ensures
        folded(arg_name(i)) != folded(SCRIPT.spec_bytes()),
        folded(arg_name(i)) != folded(ORIGINAL_CYGWIN.spec_bytes()),
        folded(arg_name(i)) != folded(CYGWIN.spec_bytes()),
        folded(SCRIPT.spec_bytes()) != folded(ORIGINAL_CYGWIN.spec_bytes()),
        folded(SCRIPT.spec_bytes()) != folded(CYGWIN.spec_bytes()),
        folded(ORIGINAL_CYGWIN.spec_bytes()) != folded(CYGWIN.spec_bytes()),
        reserved_key(folded(arg_name(i))),
        reserved_key(folded(SCRIPT.spec_bytes())),
        reserved_key(folded(ORIGINAL_CYGWIN.spec_bytes())),
        !reserved_key(folded(CYGWIN.spec_bytes())),
{
    reveal_strlit("CYGSHIM_");
    reveal_strlit("CYGSHIM_ARG_");
    reveal_strlit("CYGSHIM_SCRIPT");
    reveal_strlit("CYGSHIM_ORIGINAL_CYGWIN");
    reveal_strlit("CYGWIN");
    assert(ENV_PREFIX.is_ascii());
    assert(ARG.is_ascii());
    assert(SCRIPT.is_ascii());
    assert(ORIGINAL_CYGWIN.is_ascii());
    assert(CYGWIN.is_ascii());
    is_ascii_spec_bytes(ENV_PREFIX);
    is_ascii_spec_bytes(ARG);
    is_ascii_spec_bytes(SCRIPT);
    is_ascii_spec_bytes(ORIGINAL_CYGWIN);
    is_ascii_spec_bytes(CYGWIN);
    lemma_arg_keys(i, i);
    let prefix = folded(ENV_PREFIX.spec_bytes());
    let arg = folded(arg_name(i));
    let script = folded(SCRIPT.spec_bytes());
    let original = folded(ORIGINAL_CYGWIN.spec_bytes());
    let cygwin = folded(CYGWIN.spec_bytes());
    lemma_decimal_digits(i as nat);
    assert(arg[8] == 0x61);
    assert(script[8] == 0x73);
    assert(original[8] == 0x6f);
    assert(prefix =~= arg.subrange(0, 8));
    assert(prefix =~= script.subrange(0, 8));
    assert(prefix =~= original.subrange(0, 8));
    assert(cygwin.len() == 6);
}

/// No variable of the bridge's own is inherited, whatever its case.
proof fn lemma_nothing_stale(env: Map<Seq<u8>, Seq<u8>>, names: Seq<Seq<u8>>, key: Seq<u8>)
    requires
        lists(names, env),
        reserved_key(key),
    ensures
        !applied(env, removals(names)).contains_key(key),
{
    lemma_applied_removals(env, names);
    if env.contains_key(key) {
        let i = choose|i: int| 0 <= i < names.len() && folded(#[trigger] names[i]) == key;
        lemma_reserved_names(names[i]);
        assert(reserved()(names[i]));
    }
}

/// The variables from number 0 on, up to the first that is not set, are the
/// arguments: a script that reads them in turn gets all of them, each as it is,
/// and no others, whatever the inherited environment holds.
pub proof fn law_arguments_are_transported(
    env: Map<Seq<u8>, Seq<u8>>,
    tool_script: Seq<u8>,
    args: Seq<Seq<u8>>,
    names: Seq<Seq<u8>>,
    cygwin: Option<Seq<u8>>,
)
    requires
        lists(names, env),
    ensures
        ({
            let child = applied(env, all_changes(tool_script, args, names, cygwin));
            &&& forall|i: int|
                0 <= i < args.len() ==> child.contains_key(#[trigger] folded(arg_name(i)))
                    && child[folded(arg_name(i))] == args[i]
            &&& !child.contains_key(folded(arg_name(args.len() as int)))
        }),
{
    let base = without_args(env, tool_script, names, cygwin);
    lemma_all_changes(env, tool_script, args, names, cygwin);
    lemma_applied_args(base, args, args.len() as int);
    let end = folded(arg_name(args.len() as int));
    lemma_names_differ(args.len() as int);
    lemma_nothing_stale(env, names, end);
    assert forall|i: int| 0 <= i < args.len() implies #[trigger] folded(arg_name(i)) != end by {
        lemma_arg_keys(i, args.len() as int);
    }
    assert(!base.contains_key(end));
}

/// The variables of the bridge's own that the script finds are the arguments,
/// the script and the caller's `CYGWIN`; anything else of such a name that was
/// inherited is gone.
pub proof fn law_nothing_stale_is_left(
    env: Map<Seq<u8>, Seq<u8>>,
    tool_script: Seq<u8>,
    args: Seq<Seq<u8>>,
    names: Seq<Seq<u8>>,
    cygwin: Option<Seq<u8>>,
    key: Seq<u8>,
)
    requires
        lists(names, env),
        reserved_key(key),
        applied(env, all_changes(tool_script, args, names, cygwin)).contains_key(key),
    ensures
        key == folded(SCRIPT.spec_bytes()) || (cygwin is Some && key == folded(
            ORIGINAL_CYGWIN.spec_bytes(),
        )) || exists|i: int| 0 <= i < args.len() && key == #[trigger] folded(arg_name(i)),
{
    let base = without_args(env, tool_script, names, cygwin);
    lemma_all_changes(env, tool_script, args, names, cygwin);
    lemma_applied_args(base, args, args.len() as int);
    lemma_nothing_stale(env, names, key);
    lemma_names_differ(0);
    if forall|i: int| 0 <= i < args.len() ==> #[trigger] folded(arg_name(i)) != key {
        assert(base.contains_key(key));
    }
}

/// The script finds the caller's setting of `CYGWIN` exactly as it was, and none
/// where there was none; while the fixed command is parsed, `CYGWIN` is that
/// setting without `noglob`.
pub proof fn law_cygwin_can_be_restored(
    env: Map<Seq<u8>, Seq<u8>>,
    tool_script: Seq<u8>,
    args: Seq<Seq<u8>>,
    names: Seq<Seq<u8>>,
    cygwin: Option<Seq<u8>>,
)
    requires
        lists(names, env),
    ensures
        ({
            let child = applied(env, all_changes(tool_script, args, names, cygwin));
            let kept = folded(ORIGINAL_CYGWIN.spec_bytes());
            let used = folded(CYGWIN.spec_bytes());
            match cygwin {
                Some(value) => child.contains_key(kept) && child[kept] == value
                    && child.contains_key(used) && child[used] == noglob_removed(value),
                None => !child.contains_key(kept) && !child.contains_key(used),
            }
        }),
{
    let base = without_args(env, tool_script, names, cygwin);
    lemma_all_changes(env, tool_script, args, names, cygwin);
    lemma_applied_args(base, args, args.len() as int);
    let kept = folded(ORIGINAL_CYGWIN.spec_bytes());
    let used = folded(CYGWIN.spec_bytes());
    lemma_names_differ(0);
    lemma_nothing_stale(env, names, kept);
    assert forall|i: int| 0 <= i < args.len() implies #[trigger] folded(arg_name(i)) != kept
        && folded(arg_name(i)) != used by {
        lemma_names_differ(i);
    }
    let child = applied(env, all_changes(tool_script, args, names, cygwin));
    assert(base.contains_key(kept) == (cygwin is Some));
    assert(base.contains_key(used) == (cygwin is Some));
    if let Some(value) = cygwin {
        assert(base[kept] == value);
        assert(base[used] == noglob_removed(value));
    }
    assert(child.contains_key(kept) == base.contains_key(kept) && child[kept] == base[kept]);
    assert(child.contains_key(used) == base.contains_key(used) && child[used] == base[used]);
}

/// Every other variable is inherited as it is.
pub proof fn law_other_variables_are_inherited(
    env: Map<Seq<u8>, Seq<u8>>,
    tool_script: Seq<u8>,
    args: Seq<Seq<u8>>,
    names: Seq<Seq<u8>>,
    cygwin: Option<Seq<u8>>,
    key: Seq<u8>,
)
    requires
        !reserved_key(key),
        key != folded(CYGWIN.spec_bytes()),
    ensures
        ({
            let child = applied(env, all_changes(tool_script, args, names, cygwin));
            &&& child.contains_key(key) == env.contains_key(key)
            &&& env.contains_key(key) ==> child[key] == env[key]
        }),
{
    let base = without_args(env, tool_script, names, cygwin);
    lemma_all_changes(env, tool_script, args, names, cygwin);
    lemma_applied_args(base, args, args.len() as int);
    lemma_applied_removals(env, names);
    assert forall|i: int| 0 <= i < names.len() && reserved()(#[trigger] names[i]) implies folded(
        names[i],
    ) != key by {
        lemma_reserved_keys(names[i]);
    }
    let cleared = applied(env, removals(names));
    lemma_names_differ(0);
    assert forall|i: int| 0 <= i < args.len() implies #[trigger] folded(arg_name(i)) != key by {
        lemma_names_differ(i);
    }
    assert(cleared.contains_key(key) == env.contains_key(key));
    assert(base.contains_key(key) == cleared.contains_key(key));
    assert(applied(env, all_changes(tool_script, args, names, cygwin)).contains_key(key)
        == base.contains_key(key));
}

/// Whether every text of a list is a word: not empty, and without whitespace.
pub open spec fn are_words(list: Seq<Seq<u8>>) -> bool {
    forall|i: int|
        0 <= i < list.len() ==> (#[trigger] list[i]).len() > 0 && forall|j: int|
            0 <= j < list[i].len() ==> !is_space(#[trigger] list[i][j])
}

proof fn lemma_words_are_words(text: Seq<u8>)
    ensures
        are_words(words(text)),
    decreases text.len(),
{
    if text.len() > 0 {
        if is_space(text[0]) {
            lemma_words_are_words(text.skip(1));
        } else {
            let n = word_len(text);
            lemma_word_len(text);
            lemma_words_are_words(text.skip(n));
            let later = words(text.skip(n));
            let all = words(text);
            assert(all == seq![text.take(n)] + later);
            assert forall|i: int| 0 <= i < all.len() implies (#[trigger] all[i]).len() > 0
                && forall|j: int| 0 <= j < all[i].len() ==> !is_space(#[trigger] all[i][j]) by {
                if i > 0 {
                    assert(all[i] == later[i - 1]);
                } else {
                    assert forall|j: int| 0 <= j < all[0].len() implies !is_space(
                        #[trigger] all[0][j],
                    ) by {
                        assert(all[0][j] == text[j]);
                    }
                }
            }
        }
    }
}

/// A space and a word after a text add that word to its words.
proof fn lemma_words_push(text: Seq<u8>, word: Seq<u8>)
    requires
        are_words(seq![word]),
    ensures
        words(text.push(SPACE) + word) == words(text).push(word),
    decreases text.len(),
{
    let all = text.push(SPACE) + word;
    assert(seq![word][0] == word);
    if text.len() == 0 {
        assert(is_space(all[0]));
        assert(all.skip(1) =~= word);
        lemma_word_len_is(word, word.len() as int);
        assert(word.take(word.len() as int) =~= word);
        assert(words(word.skip(word.len() as int)) =~= Seq::<Seq<u8>>::empty());
        assert(words(word) =~= seq![word]);
        assert(words(text).push(word) =~= seq![word]);
    } else if is_space(text[0]) {
        assert(all[0] == text[0]);
        assert(all.skip(1) =~= text.skip(1).push(SPACE) + word);
        lemma_words_push(text.skip(1), word);
    } else {
        let n = word_len(text);
        lemma_word_len(text);
        assert forall|i: int| 0 <= i < n implies !is_space(#[trigger] all[i]) by {
            assert(all[i] == text[i]);
        }
        if n < text.len() {
            assert(all[n] == text[n]);
        } else {
            assert(all[n] == SPACE);
        }
        lemma_word_len_is(all, n);
        assert(all.take(n) =~= text.take(n));
        assert(all.skip(n) =~= text.skip(n).push(SPACE) + word);
        lemma_words_push(text.skip(n), word);
        assert(words(all) =~= seq![text.take(n)] + words(text.skip(n)).push(word));
        assert(words(text) == seq![text.take(n)] + words(text.skip(n)));
        assert(words(all) =~= words(text).push(word));
    }
}

proof fn lemma_words_of_a_sentence(list: Seq<Seq<u8>>)
    requires
        are_words(list),
    ensures
        words(sentence(list)) == list,
    decreases list.len(),
{
    if list.len() == 0 {
        assert(words(sentence(list)) =~= list);
    } else if list.len() == 1 {
        let word = list[0];
        assert(seq![word][0] == word);
        lemma_word_len_is(word, word.len() as int);
        assert(word.take(word.len() as int) =~= word);
        assert(words(word.skip(word.len() as int)) =~= Seq::<Seq<u8>>::empty());
        assert(words(word) =~= list);
    } else {
        let fewer = list.drop_last();
        assert forall|i: int| 0 <= i < fewer.len() implies (#[trigger] fewer[i]).len() > 0
            && forall|j: int| 0 <= j < fewer[i].len() ==> !is_space(#[trigger] fewer[i][j]) by {
            assert(fewer[i] == list[i]);
        }
        lemma_words_of_a_sentence(fewer);
        let word = list.last();
        assert(list[list.len() - 1] == word);
        assert(seq![word][0] == word);
        lemma_words_push(sentence(fewer), word);
        assert(fewer.push(word) =~= list);
    }
}

proof fn lemma_filtered_words(list: Seq<Seq<u8>>)
    requires
        are_words(list),
    ensures
        are_words(list.filter(stays())),
    decreases list.len(),
{
    reveal(Seq::filter);
    if list.len() > 0 {
        let fewer = list.drop_last();
        assert forall|i: int| 0 <= i < fewer.len() implies (#[trigger] fewer[i]).len() > 0
            && forall|j: int| 0 <= j < fewer[i].len() ==> !is_space(#[trigger] fewer[i][j]) by {
            assert(fewer[i] == list[i]);
        }
        lemma_filtered_words(fewer);
        let kept = list.filter(stays());
        let before = fewer.filter(stays());
        assert(list[list.len() - 1] == list.last());
        assert forall|i: int| 0 <= i < kept.len() implies (#[trigger] kept[i]).len() > 0
            && forall|j: int| 0 <= j < kept[i].len() ==> !is_space(#[trigger] kept[i][j]) by {
            if i < before.len() {
                assert(kept[i] == before[i]);
            } else {
                assert(kept[i] == list.last());
            }
        }
    }
}

/// The options of `CYGWIN` that the fixed command is parsed with are those of
/// the caller, in their order, but for `noglob`.
pub proof fn law_only_noglob_is_removed(value: Seq<u8>)
    ensures
        words(noglob_removed(value)) == words(lossy(value)).filter(stays()),
{
    lemma_words_are_words(lossy(value));
    lemma_filtered_words(words(lossy(value)));
    lemma_words_of_a_sentence(words(lossy(value)).filter(stays()));
}

/// The script that the child finds in its variable is the shared part, a line feed
/// and the script of the tool, whatever else the environment holds, whatever the
/// arguments are and whether `CYGWIN` is set or not.
pub proof fn law_the_script_is_the_prelude_and_the_tools(
    env: Map<Seq<u8>, Seq<u8>>,
    tool_script: Seq<u8>,
    args: Seq<Seq<u8>>,
    names: Seq<Seq<u8>>,
    cygwin: Option<Seq<u8>>,
)
    ensures
        ({
            let child = applied(env, all_changes(tool_script, args, names, cygwin));
            let script = folded("CYGSHIM_SCRIPT".spec_bytes());
            &&& child.contains_key(script)
            &&& child[script] == PRELUDE.spec_bytes() + seq![0x0au8] + tool_script
        }),
{
    let base = without_args(env, tool_script, names, cygwin);
    let script = folded(SCRIPT.spec_bytes());
    lemma_all_changes(env, tool_script, args, names, cygwin);
    lemma_applied_args(base, args, args.len() as int);
    assert forall|i: int| 0 <= i < args.len() implies #[trigger] folded(arg_name(i)) != script by {
        lemma_names_differ(i);
    }
    let child = applied(env, all_changes(tool_script, args, names, cygwin));
    let after = applied(base, arg_changes(args).take(args.len() as int));
    assert(child == after);
    assert(base.contains_key(script) && base[script] == whole_script(tool_script));
    assert(after.contains_key(script) == base.contains_key(script));
    assert(after[script] == base[script]);
    reveal_strlit("\n");
    assert("\n".is_ascii());
    is_ascii_spec_bytes("\n");
    assert("\n".spec_bytes() =~= seq![0x0au8]);
}

/// The fixed command evaluates the variable that the script is in.
pub proof fn law_the_command_evaluates_the_script()
    ensures
        BOOTSTRAP@ == "eval \"$"@ + "CYGSHIM_SCRIPT"@ + "\""@,
        SCRIPT@ == "CYGSHIM_SCRIPT"@,
{
    reveal_strlit("eval \"$CYGSHIM_SCRIPT\"");
    reveal_strlit("eval \"$");
    reveal_strlit("CYGSHIM_SCRIPT");
    reveal_strlit("\"");
    assert(BOOTSTRAP@ =~= "eval \"$"@ + "CYGSHIM_SCRIPT"@ + "\""@);
}

/// Each argument is in the variable whose name ends in its number, counted from
/// zero and written in decimal, and there is no variable for one number more. The
/// caller's `CYGWIN` is in a variable of its own, as it was.
pub proof fn law_variables_have_the_names_that_the_script_reads(
    env: Map<Seq<u8>, Seq<u8>>,
    tool_script: Seq<u8>,
    args: Seq<Seq<u8>>,
    names: Seq<Seq<u8>>,
    cygwin: Option<Seq<u8>>,
)
    requires
        lists(names, env),
    ensures
        ({
            let child = applied(env, all_changes(tool_script, args, names, cygwin));
            let number = |i: int| folded("CYGSHIM_ARG_".spec_bytes() + decimal(i as nat));
            let original = folded("CYGSHIM_ORIGINAL_CYGWIN".spec_bytes());
            let setting = folded("CYGWIN".spec_bytes());
            &&& forall|i: int|
                0 <= i < args.len() ==> child.contains_key(#[trigger] number(i))
                    && child[number(i)] == args[i]
            &&& !child.contains_key(number(args.len() as int))
            &&& child.contains_key(original) <==> cygwin is Some
            &&& child.contains_key(setting) <==> cygwin is Some
            &&& cygwin matches Some(value) ==> child[original] == value
        }),
{
    law_arguments_are_transported(env, tool_script, args, names, cygwin);
    law_cygwin_can_be_restored(env, tool_script, args, names, cygwin);
    let child = applied(env, all_changes(tool_script, args, names, cygwin));
    assert forall|i: int| 0 <= i < args.len() implies child.contains_key(
        #[trigger] folded("CYGSHIM_ARG_".spec_bytes() + decimal(i as nat)),
    ) && child[folded("CYGSHIM_ARG_".spec_bytes() + decimal(i as nat))] == args[i] by {
        assert(child.contains_key(folded(arg_name(i))));
    }
}

/// A byte that separates the options of a setting: a space, a tab, a line feed, a
/// form feed or a carriage return.
pub open spec fn separates(b: u8) -> bool {
    b == 0x20 || b == 0x09 || b == 0x0a || b == 0x0c || b == 0x0d
}

/// The words of a text are what stands between its separators: a separator at the
/// beginning adds none, and a word with a separator after it comes before the words
/// of the rest.
pub proof fn law_words_stand_between_separators(word: Seq<u8>, b: u8, rest: Seq<u8>)
    requires
        separates(b),
        word.len() > 0,
        forall|i: int| 0 <= i < word.len() ==> !separates(#[trigger] word[i]),
    ensures
        words(Seq::empty()) == Seq::<Seq<u8>>::empty(),
        words(seq![b] + rest) == words(rest),
        words(word) == seq![word],
        words(word + (seq![b] + rest)) == seq![word] + words(rest),
{
    let tail = seq![b] + rest;
    assert(tail[0] == b);
    assert(tail.skip(1) =~= rest);
    assert(words(tail) == words(rest));
    let all = word + tail;
    assert forall|i: int| 0 <= i < word.len() implies !is_space(#[trigger] all[i]) by {
        assert(all[i] == word[i]);
        assert(!separates(word[i]));
    }
    assert(all[word.len() as int] == b);
    lemma_word_len_is(all, word.len() as int);
    assert(all.take(word.len() as int) =~= word);
    assert(all.skip(word.len() as int) =~= tail);
    assert forall|i: int| 0 <= i < word.len() implies !is_space(#[trigger] word[i]) by {
        assert(!separates(word[i]));
    }
    lemma_word_len_is(word, word.len() as int);
    assert(word.take(word.len() as int) =~= word);
    assert(words(word.skip(word.len() as int)) =~= Seq::<Seq<u8>>::empty());
    assert(words(word) =~= seq![word]);
}

/// Whether a word is `noglob`, in capitals or small letters.
pub open spec fn is_noglob(word: Seq<u8>) -> bool {
    word.map_values(
        |b: u8|
            if 0x41 <= b <= 0x5a {
                (b + 0x20) as u8
            } else {
                b
            },
    ) == seq![0x6eu8, 0x6fu8, 0x67u8, 0x6cu8, 0x6fu8, 0x62u8]
}

proof fn lemma_stays(word: Seq<u8>)
    ensures
        stays()(word) == !is_noglob(word),
{
    let option = NOGLOB.spec_bytes();
    let small = seq![0x6eu8, 0x6fu8, 0x67u8, 0x6cu8, 0x6fu8, 0x62u8];
    let lowered = word.map_values(
        |b: u8|
            if 0x41 <= b <= 0x5a {
                (b + 0x20) as u8
            } else {
                b
            },
    );
    reveal_strlit("noglob");
    assert(NOGLOB.is_ascii());
    is_ascii_spec_bytes(NOGLOB);
    assert(option =~= small);
    if same_ignoring_case(word, option) {
        assert forall|i: int| 0 <= i < word.len() implies lowered[i] == small[i] by {
            assert(ascii_lower(word[i]) == ascii_lower(option[i]));
        }
        assert(lowered =~= small);
    }
    if lowered == small {
        assert(lowered.len() == 6);
        assert forall|i: int| 0 <= i < word.len() implies ascii_lower(#[trigger] word[i])
            == ascii_lower(option[i]) by {
            assert(lowered[i] == small[i]);
        }
    }
}

/// `noglob` is taken out of a setting, wherever it stands and however it is
/// written, and no other option is: a word is left just where it is another one, as
/// often as before and in the same order.
pub proof fn law_noglob_goes_and_nothing_else(value: Seq<u8>, word: Seq<u8>, options: Seq<Seq<u8>>)
    requires
        are_words(options),
        lossy(sentence(options)) == sentence(options),
    ensures
        words(noglob_removed(value)).contains(word) <==> words(lossy(value)).contains(word)
            && !is_noglob(word),
        noglob_removed(sentence(options)) == sentence(
            options.filter(|option: Seq<u8>| !is_noglob(option)),
        ),
        is_noglob("noglob".spec_bytes()),
{
    law_only_noglob_is_removed(value);
    let all = words(lossy(value));
    lemma_stays(word);
    lemma_filter_contains(all, word);
    lemma_words_of_a_sentence(options);
    let other = |option: Seq<u8>| !is_noglob(option);
    assert forall|option: Seq<u8>| stays()(option) == #[trigger] other(option) by {
        lemma_stays(option);
    }
    assert(stays() =~= other);
    reveal_strlit("noglob");
    assert("noglob".is_ascii());
    is_ascii_spec_bytes("noglob");
    lemma_stays("noglob".spec_bytes());
}

proof fn lemma_filter_contains(list: Seq<Seq<u8>>, item: Seq<u8>)
    ensures
        list.filter(stays()).contains(item) <==> list.contains(item) && stays()(item),
    decreases list.len(),
{
    reveal(Seq::filter);
    if list.len() > 0 {
        let fewer = list.drop_last();
        let last = list.last();
        lemma_filter_contains(fewer, item);
        let before = fewer.filter(stays());
        let after = list.filter(stays());
        assert(list =~= fewer.push(last));
        if fewer.contains(item) {
            let k = choose|k: int| 0 <= k < fewer.len() && fewer[k] == item;
            assert(list[k] == item);
        }
        assert(list[list.len() - 1] == last);
        if before.contains(item) {
            let k = choose|k: int| 0 <= k < before.len() && before[k] == item;
            assert(after[k] == item);
        }
        if stays()(last) {
            assert(after == before.push(last));
            assert(after[before.len() as int] == last);
            if after.contains(item) && item != last {
                let k = choose|k: int| 0 <= k < after.len() && after[k] == item;
                assert(before[k] == item);
            }
        }
        if list.contains(item) && item != last {
            let k = choose|k: int| 0 <= k < list.len() && list[k] == item;
            assert(fewer[k] == item);
        }
    }
}

/// The status that is forwarded is the program's in its lowest eight bits, and a
/// failure is forwarded as one: the two differ by a multiple of 256, but for a
/// failure whose lowest bits are all zero, which is forwarded as 1.
pub proof fn law_the_status_is_forwarded(status: i32)
    ensures
        0 <= forwarded_status(Some(status)) <= 255,
        (forwarded_status(Some(status)) - status) % 256 == 0 || (forwarded_status(Some(status))
            == 1 && status % 256 == 0 && status != 0),
        forwarded_status(Some(status)) == 0 <==> status == 0,
        0 <= status <= 255 ==> forwarded_status(Some(status)) == status,
        forwarded_status(None) == 1,
{
}

/// The names that are the bridge's own begin with `CYGSHIM_`, in capitals or small
/// letters.
pub proof fn law_reserved_names(name: Seq<u8>)
    ensures
        reserved()(name) <==> folded("CYGSHIM_".spec_bytes()).is_prefix_of(folded(name)),
{
    if reserved()(name) {
        lemma_reserved_keys(name);
    }
    if folded("CYGSHIM_".spec_bytes()).is_prefix_of(folded(name)) {
        lemma_reserved_names(name);
    }
}

/// The shared script reads the variables that are set for it: it takes the arguments
/// in turn, each quoted, as long as there is one of the next number; it restores
/// `CYGWIN` to what it was, or removes it where it was not set; and it leaves none of
/// the bridge's own variables to the tool. Paths become POSIX paths by `cygpath -u`.
pub proof fn law_the_prelude_restores_what_was_sent()
    ensures
        says(PRELUDE@, "while [[ -v CYGSHIM_ARG_$cygshim_i ]]; do"@),
        says(PRELUDE@, "cygshim_name=CYGSHIM_ARG_$cygshim_i"@),
        says(PRELUDE@, r#"cygshim_args+=("${!cygshim_name}")"#@),
        says(PRELUDE@, r#"unset "$cygshim_name""#@),
        says(PRELUDE@, "((cygshim_i++))"@),
        says(PRELUDE@, "if [[ -v CYGSHIM_ORIGINAL_CYGWIN ]]; then"@),
        says(PRELUDE@, "export CYGWIN=$CYGSHIM_ORIGINAL_CYGWIN"@),
        says(PRELUDE@, "unset CYGWIN"@),
        says(PRELUDE@, "unset CYGSHIM_ORIGINAL_CYGWIN CYGSHIM_SCRIPT"@),
        says(PRELUDE@, r#"cygpath -u -- "$path""#@),
{
    reveal_strlit(
        r#"
cygshim_args=()
cygshim_i=0
while [[ -v CYGSHIM_ARG_$cygshim_i ]]; do
  cygshim_name=CYGSHIM_ARG_$cygshim_i
  cygshim_args+=("${!cygshim_name}")
  unset "$cygshim_name"
  ((cygshim_i++))
done

if [[ -v CYGSHIM_ORIGINAL_CYGWIN ]]; then
  export CYGWIN=$CYGSHIM_ORIGINAL_CYGWIN
else
  unset CYGWIN
fi

unset CYGSHIM_ORIGINAL_CYGWIN CYGSHIM_SCRIPT cygshim_i cygshim_name

cygshim_is_windows_absolute_path() {
  local path=$1

  if [[ ${path:0:8} == '\\?\UNC\' ]]; then
    return 0
  fi
  if [[ ${path:0:4} == '\\?\' ]]; then
    path=${path:4}
  fi

  [[ ${#path} -ge 3 && ${path:1:1} == : && ( ${path:2:1} == / || ${path:2:1} == '\' ) ]] ||
    [[ ${path:0:2} == '\\' || ${path:0:2} == // ]]
}

cygshim_to_posix_path() {
  local path=$1

  if [[ ${path:0:8} == '\\?\UNC\' ]]; then
    path="\\\\${path:8}"
  elif [[ ${path:0:4} == '\\?\' ]]; then
    path=${path:4}
  fi

  cygpath -u -- "$path"
}

cygshim_to_posix_if_windows_absolute() {
  if cygshim_is_windows_absolute_path "$1"; then
    cygshim_to_posix_path "$1"
  else
    printf '%s\n' "$1"
  fi
}
"#,
    );
    reveal_strlit("while [[ -v CYGSHIM_ARG_$cygshim_i ]]; do");
    reveal_strlit("cygshim_name=CYGSHIM_ARG_$cygshim_i");
    reveal_strlit(r#"cygshim_args+=("${!cygshim_name}")"#);
    reveal_strlit(r#"unset "$cygshim_name""#);
    reveal_strlit("((cygshim_i++))");
    reveal_strlit("if [[ -v CYGSHIM_ORIGINAL_CYGWIN ]]; then");
    reveal_strlit("export CYGWIN=$CYGSHIM_ORIGINAL_CYGWIN");
    reveal_strlit("unset CYGWIN");
    reveal_strlit("unset CYGSHIM_ORIGINAL_CYGWIN CYGSHIM_SCRIPT");
    reveal_strlit(r#"cygpath -u -- "$path""#);
    assert(PRELUDE@.skip(29).take(41) =~= "while [[ -v CYGSHIM_ARG_$cygshim_i ]]; do"@);
    assert(PRELUDE@.skip(73).take(35) =~= "cygshim_name=CYGSHIM_ARG_$cygshim_i"@);
    assert(PRELUDE@.skip(111).take(34) =~= r#"cygshim_args+=("${!cygshim_name}")"#@);
    assert(PRELUDE@.skip(148).take(21) =~= r#"unset "$cygshim_name""#@);
    assert(PRELUDE@.skip(172).take(15) =~= "((cygshim_i++))"@);
    assert(PRELUDE@.skip(194).take(41) =~= "if [[ -v CYGSHIM_ORIGINAL_CYGWIN ]]; then"@);
    assert(PRELUDE@.skip(238).take(38) =~= "export CYGWIN=$CYGSHIM_ORIGINAL_CYGWIN"@);
    assert(PRELUDE@.skip(284).take(12) =~= "unset CYGWIN"@);
    assert(PRELUDE@.skip(301).take(44) =~= "unset CYGSHIM_ORIGINAL_CYGWIN CYGSHIM_SCRIPT"@);
    assert(PRELUDE@.skip(874).take(21) =~= r#"cygpath -u -- "$path""#@);
}

/// Options are put together with one space between each two, and nothing else.
pub proof fn law_options_are_put_together_with_spaces(options: Seq<Seq<u8>>, option: Seq<u8>)
    ensures
        sentence(Seq::empty()) == Seq::<u8>::empty(),
        sentence(seq![option]) == option,
        options.len() > 0 ==> sentence(options.push(option)) == sentence(options) + seq![0x20u8]
            + option,
{
    let all = options.push(option);
    assert(all.drop_last() =~= options);
    assert(all.last() == option);
    assert(sentence(options).push(SPACE) + option =~= sentence(options) + seq![0x20u8] + option);
}

} // verus!
