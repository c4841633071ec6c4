//! The shims for TeX programs: how a run is set up, and how it ends.
use vstd::prelude::*;
use vstd::string::*;
use vstd::utf8::*;
use crate::bridge::{
    all_changes, change_views, exit_status, forwarded_status, make_command, BashCommand, Terminals,
    BOOTSTRAP,
};
use crate::bytes::{append, views};
use crate::cygpath::{bulk_cygpath, conversion, run_view, CygpathRun, TO_POSIX};
use crate::invocation::{absolute_paths, optional_view, TexInvocation};
use crate::mapper::text_views;
use crate::native_path::{renamed, with_file_name};
use crate::os_text::{lossy, to_lossy};
use crate::text::{says, string_views};

verus! {

/// Minimal Cygwin-side launcher; output and files are processed here.
pub const TOOL_SCRIPT: &'static str = r#"
cygshim_tex_args=("${cygshim_args[@]}")

# Non-option absolute paths may name source files. Options are left alone except
# for the directory-valued forms recognized by both supported tools.
for ((cygshim_i = 0; cygshim_i < ${#cygshim_tex_args[@]}; cygshim_i++)); do
  cygshim_arg=${cygshim_tex_args[cygshim_i]}
  case $cygshim_arg in
    -outdir=*|-output-directory=*|--output-directory=*|-auxdir=*|-aux-directory=*|--aux-directory=*)
      cygshim_prefix=${cygshim_arg%%=*}=
      cygshim_value=${cygshim_arg#*=}
      cygshim_tex_args[cygshim_i]="$cygshim_prefix$(cygshim_to_posix_if_windows_absolute "$cygshim_value")"
      ;;
    -*)
      ;;
    *)
      cygshim_tex_args[cygshim_i]=$(cygshim_to_posix_if_windows_absolute "$cygshim_arg")
      ;;
  esac
done

exec "$cygshim_tex_program" "${cygshim_tex_args[@]}"
"#;

/// The script that runs a TeX program.
pub open spec fn tex_script(program: Seq<char>) -> Seq<char> {
    "cygshim_tex_program="@ + program + "\n"@ + TOOL_SCRIPT@
}

/// A run of a TeX program that is to be started.
pub struct TexRun {
    pub command: BashCommand,
    /// The `cygpath.exe` of the installation that Bash belongs to.
    pub cygpath: Vec<u8>,
    /// The native paths on the command line, normalized.
    pub windows_paths: Vec<String>,
    /// The process that converts those; none where there are none.
    pub conversion: Option<CygpathRun>,
    /// Whether diagnostics on the standard output are to be rewritten, since it
    /// is no terminal.
    pub filter_stdout: bool,
    /// The same of the standard error.
    pub filter_stderr: bool,
}

/// Sets up a run of a TeX program.
pub fn run_inner(
    program: &str,
    invocation: &TexInvocation,
    bash: Vec<u8>,
    args: &[Vec<u8>],
    names: &[Vec<u8>],
    cygwin: Option<Vec<u8>>,
    terminals: Terminals,
) -> (r: TexRun)
    ensures
        r.command.program == bash,
        views(r.command.arguments@) == seq!["-c".spec_bytes(), BOOTSTRAP.spec_bytes()],
        change_views(r.command.changes@) == all_changes(
            encode_utf8(tex_script(program@)),
            views(args@),
            views(names@),
            optional_view(cygwin),
        ),
        r.command.no_window == (!terminals.stdin && !terminals.stdout && !terminals.stderr),
        r.cygpath@ == renamed(bash@, "cygpath.exe".spec_bytes()),
        string_views(r.windows_paths@) == absolute_paths(string_views(invocation.args@)),
        run_view(r.conversion) == conversion(TO_POSIX@, text_views(r.windows_paths@)),
        r.filter_stdout == !terminals.stdout,
        r.filter_stderr == !terminals.stderr,
{
    let mut script: String = "cygshim_tex_program=".to_owned();
    script.append(program);
    script.append("\n");
    script.append(TOOL_SCRIPT);
    assert(script@ =~= tex_script(program@));
    let cygpath: Vec<u8> = with_file_name(bash.as_slice(), "cygpath.exe".as_bytes());
    let command: BashCommand = make_command(
        bash,
        script.as_str(),
        args,
        names,
        cygwin,
        terminals,
    );
    let windows_paths: Vec<String> = invocation.absolute_windows_paths();
    let mut inputs: Vec<Vec<u8>> = Vec::new();
    let mut i: usize = 0;
    while i < windows_paths.len()
        invariant
            i <= windows_paths@.len(),
            views(inputs@) == text_views(windows_paths@).take(i as int),
        decreases windows_paths@.len() - i,
    {
        let ghost before = views(inputs@);
        let input: Vec<u8> = windows_paths[i].as_str().as_bytes_vec();
        inputs.push(input);
        assert(views(inputs@) =~= before.push(input@));
        assert(text_views(windows_paths@).take(i + 1) =~= before.push(input@));
        i += 1;
    }
    assert(text_views(windows_paths@).take(i as int) =~= text_views(windows_paths@));
    let conversion: Option<CygpathRun> = bulk_cygpath(TO_POSIX, inputs.as_slice());
    TexRun {
        command,
        cygpath,
        windows_paths,
        conversion,
        filter_stdout: !terminals.stdout,
        filter_stderr: !terminals.stderr,
    }
}

/// What is said where there is no `cygpath.exe` beside Bash, in UTF-8.
pub fn missing_cygpath(bash: &[u8]) -> (r: Vec<u8>)
    ensures
        r@ == "could not find cygpath.exe next to ".spec_bytes() + lossy(bash@),
{
    let mut r: Vec<u8> = "could not find cygpath.exe next to ".as_bytes_vec();
    append(&mut r, to_lossy(bash).as_slice());
    r
}

/// How the rewriting of a stream ended.
pub enum ForwardingEnd {
    Finished,
    /// Nobody reads the stream any more.
    BrokenPipe,
    /// It failed, with the text of the error.
    Failed(String),
    Panicked,
}

/// What is said of the end of a stream.
pub open spec fn forwarding_report(stream: Seq<char>, end: Option<ForwardingEnd>) -> Option<
    Seq<char>,
> {
    match end {
        Some(ForwardingEnd::Failed(error)) => Some(
            "cygshim: could not filter TeX "@ + stream + ": "@ + error@,
        ),
        Some(ForwardingEnd::Panicked) => Some("cygshim: TeX "@ + stream + " filter panicked"@),
        _ => None,
    }
}

/// A text that may be missing.
pub open spec fn optional_text(text: Option<String>) -> Option<Seq<char>> {
    match text {
        Some(t) => Some(t@),
        None => None,
    }
}

/// What is said of the end of a stream; nothing where it was not rewritten, where
/// all of it was, or where nobody reads it any more.
pub fn report_forwarding_result(stream: &str, end: Option<ForwardingEnd>) -> (r: Option<String>)
    ensures
        optional_text(r) == forwarding_report(stream@, end),
{
    match end {
        Some(ForwardingEnd::Failed(error)) => {
            let mut text: String = "cygshim: could not filter TeX ".to_owned();
            text.append(stream);
            text.append(": ");
            text.append(error.as_str());
            Some(text)
        },
        Some(ForwardingEnd::Panicked) => {
            let mut text: String = "cygshim: TeX ".to_owned();
            text.append(stream);
            text.append(" filter panicked");
            Some(text)
        },
        _ => None,
    }
}

/// The exit status of a run, which forwards that of the TeX program, and what is
/// said of post-processing that failed. Post-processing is advisory, so that its
/// failure does not change the status.
pub fn finish_run(code: Option<i32>, failure: Option<String>) -> (r: (u8, Option<String>))
    ensures
        r.0 == forwarded_status(code),
        code matches Some(status) ==> (0 <= status <= 255 ==> r.0 == status),
        code matches Some(status) ==> (status != 0 ==> r.0 != 0),
        code is None ==> r.0 == 1,
        optional_text(r.1) == match failure {
            Some(error) => Some("cygshim: TeX post-processing failed: "@ + error@),
            None => None,
        },
{
    let status: u8 = exit_status(code);
    match failure {
        Some(error) => {
            let mut text: String = "cygshim: TeX post-processing failed: ".to_owned();
            text.append(error.as_str());
            (status, Some(text))
        },
        None => (status, None),
    }
}

/// The script of a TeX run first sets the program, on a line of its own, and then is
/// the same for all of them.
pub proof fn law_the_script_sets_the_program(program: Seq<char>)
    ensures
        tex_script(program) == "cygshim_tex_program="@ + program + seq!['\n'] + TOOL_SCRIPT@,
{
    reveal_strlit("\n");
    assert("\n"@ =~= seq!['\n']);
}

/// What is said of a stream names it: of an error with its text, and of a panic. A
/// stream that was not rewritten, was rewritten to its end or that nobody reads any
/// more is not spoken of.
pub proof fn law_only_failures_are_reported(stream: Seq<char>, error: String)
    ensures
        forwarding_report(stream, None) is None,
        forwarding_report(stream, Some(ForwardingEnd::Finished)) is None,
        forwarding_report(stream, Some(ForwardingEnd::BrokenPipe)) is None,
        forwarding_report(stream, Some(ForwardingEnd::Failed(error))) == Some(
            "cygshim: could not filter TeX "@ + stream + ": "@ + error@,
        ),
        forwarding_report(stream, Some(ForwardingEnd::Panicked)) == Some(
            "cygshim: TeX "@ + stream + " filter panicked"@,
        ),
{
}

/// The script converts the values of the six options that take a path, and runs the
/// program with the arguments that came of it.
pub proof fn law_the_script_knows_the_six_options()
    ensures
        says(TOOL_SCRIPT@, "-outdir=*"@),
        says(TOOL_SCRIPT@, "|-output-directory=*"@),
        says(TOOL_SCRIPT@, "|--output-directory=*"@),
        says(TOOL_SCRIPT@, "|-auxdir=*"@),
        says(TOOL_SCRIPT@, "|-aux-directory=*"@),
        says(TOOL_SCRIPT@, "|--aux-directory=*)"@),
        says(TOOL_SCRIPT@, "cygshim_value=${cygshim_arg#*=}"@),
        says(TOOL_SCRIPT@, r#"exec "$cygshim_tex_program""#@),
        says(TOOL_SCRIPT@, r#""${cygshim_tex_args[@]}""#@),
{
    reveal_strlit(
        r#"
cygshim_tex_args=("${cygshim_args[@]}")

# Non-option absolute paths may name source files. Options are left alone except
# for the directory-valued forms recognized by both supported tools.
for ((cygshim_i = 0; cygshim_i < ${#cygshim_tex_args[@]}; cygshim_i++)); do
  cygshim_arg=${cygshim_tex_args[cygshim_i]}
  case $cygshim_arg in
    -outdir=*|-output-directory=*|--output-directory=*|-auxdir=*|-aux-directory=*|--aux-directory=*)
      cygshim_prefix=${cygshim_arg%%=*}=
      cygshim_value=${cygshim_arg#*=}
      cygshim_tex_args[cygshim_i]="$cygshim_prefix$(cygshim_to_posix_if_windows_absolute "$cygshim_value")"
      ;;
    -*)
      ;;
    *)
      cygshim_tex_args[cygshim_i]=$(cygshim_to_posix_if_windows_absolute "$cygshim_arg")
      ;;
  esac
done

exec "$cygshim_tex_program" "${cygshim_tex_args[@]}"
"#,
    );
    reveal_strlit("-outdir=*");
    reveal_strlit("|-output-directory=*");
    reveal_strlit("|--output-directory=*");
    reveal_strlit("|-auxdir=*");
    reveal_strlit("|-aux-directory=*");
    reveal_strlit("|--aux-directory=*)");
    reveal_strlit("cygshim_value=${cygshim_arg#*=}");
    reveal_strlit(r#"exec "$cygshim_tex_program""#);
    reveal_strlit(r#""${cygshim_tex_args[@]}""#);
    assert(TOOL_SCRIPT@.skip(340).take(9) =~= "-outdir=*"@);
    assert(TOOL_SCRIPT@.skip(349).take(20) =~= "|-output-directory=*"@);
    assert(TOOL_SCRIPT@.skip(369).take(21) =~= "|--output-directory=*"@);
    assert(TOOL_SCRIPT@.skip(390).take(10) =~= "|-auxdir=*"@);
    assert(TOOL_SCRIPT@.skip(400).take(17) =~= "|-aux-directory=*"@);
    assert(TOOL_SCRIPT@.skip(417).take(19) =~= "|--aux-directory=*)"@);
    assert(TOOL_SCRIPT@.skip(484).take(31) =~= "cygshim_value=${cygshim_arg#*=}"@);
    assert(TOOL_SCRIPT@.skip(768).take(27) =~= r#"exec "$cygshim_tex_program""#@);
    assert(TOOL_SCRIPT@.skip(796).take(24) =~= r#""${cygshim_tex_args[@]}""#@);
}

} // verus!
