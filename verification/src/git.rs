//! The shim for Git.
use vstd::prelude::*;
use vstd::string::*;
use crate::bridge::{all_changes, change_views, make_command, BashCommand, Terminals, BOOTSTRAP};
use crate::bytes::views;
use crate::invocation::optional_view;
use crate::text::says;

verus! {

/// Converts native path arguments and narrowly translates path-producing
/// output.
pub const TOOL_SCRIPT: &'static str = r#"
cygshim_git_args=("${cygshim_args[@]}")

# Git accepts filesystem paths both as standalone arguments and as values of
# these global options.
for ((cygshim_i = 0; cygshim_i < ${#cygshim_git_args[@]}; cygshim_i++)); do
  cygshim_arg=${cygshim_git_args[cygshim_i]}
  case $cygshim_arg in
    --git-dir=*|--work-tree=*)
      cygshim_prefix=${cygshim_arg%%=*}=
      cygshim_value=${cygshim_arg#*=}
      cygshim_git_args[cygshim_i]="$cygshim_prefix$(cygshim_to_posix_if_windows_absolute "$cygshim_value")"
      ;;
    *)
      cygshim_git_args[cygshim_i]=$(cygshim_to_posix_if_windows_absolute "$cygshim_arg")
      ;;
  esac
done

# Filter only rev-parse forms whose output is documented as one path per line.
# Applying path conversion to arbitrary Git output would corrupt diffs, file
# contents, object data, and NUL-delimited records.
cygshim_git_path_output=0
cygshim_git_rev_parse=0
cygshim_git_absolute_paths=0
for cygshim_arg in "${cygshim_git_args[@]}"; do
  if [[ $cygshim_arg == rev-parse ]]; then
    cygshim_git_rev_parse=1
  elif [[ $cygshim_git_rev_parse == 1 ]]; then
    case $cygshim_arg in
      --show-toplevel|--show-superproject-working-tree|--absolute-git-dir)
        cygshim_git_path_output=1
        ;;
      --path-format=absolute)
        cygshim_git_absolute_paths=1
        ;;
      --git-dir|--git-common-dir)
        if [[ $cygshim_git_absolute_paths == 1 ]]; then
          cygshim_git_path_output=1
        fi
        ;;
    esac
  fi
done

# Most commands can replace the shell and retain byte-for-byte stream behavior.
if [[ $cygshim_git_path_output == 0 ]]; then
  exec /usr/bin/git "${cygshim_git_args[@]}"
fi

# Preserve Git's status rather than returning the path filter's status.
set -o pipefail
/usr/bin/git "${cygshim_git_args[@]}" | while IFS= read -r cygshim_line || [[ -n $cygshim_line ]]; do
  if [[ $cygshim_line == /* ]]; then
    cygpath -m -- "$cygshim_line"
  else
    printf '%s\n' "$cygshim_line"
  fi
done
cygshim_status=${PIPESTATUS[0]}
exit "$cygshim_status"
"#;

/// Sets up the Bash process that runs Git with the arguments of the shim.
pub fn command(
    bash: Vec<u8>,
    args: &[Vec<u8>],
    names: &[Vec<u8>],
    cygwin: Option<Vec<u8>>,
    terminals: Terminals,
) -> (r: BashCommand)
    ensures
        r.program == bash,
        views(r.arguments@) == seq!["-c".spec_bytes(), BOOTSTRAP.spec_bytes()],
        change_views(r.changes@) == all_changes(
            TOOL_SCRIPT.spec_bytes(),
            views(args@),
            views(names@),
            optional_view(cygwin),
        ),
        r.no_window == (!terminals.stdin && !terminals.stdout && !terminals.stderr),
{
    make_command(bash, TOOL_SCRIPT, args, names, cygwin, terminals)
}

/// The script runs Git with the converted arguments, in place of the shell where the
/// output is no path, and otherwise keeps the status of Git; the output is converted
/// only for the forms of `rev-parse` that print paths.
pub proof fn law_the_script_runs_git()
    ensures
        says(TOOL_SCRIPT@, "--git-dir=*|--work-tree=*)"@),
        says(TOOL_SCRIPT@, r#"exec /usr/bin/git "${cygshim_git_args[@]}""#@),
        says(TOOL_SCRIPT@, "$cygshim_arg == rev-parse"@),
        says(TOOL_SCRIPT@, "--show-toplevel|"@),
        says(TOOL_SCRIPT@, "--show-superproject-working-tree|"@),
        says(TOOL_SCRIPT@, "--absolute-git-dir)"@),
        says(TOOL_SCRIPT@, "--path-format=absolute)"@),
        says(TOOL_SCRIPT@, "--git-dir|--git-common-dir)"@),
        says(TOOL_SCRIPT@, r#"cygpath -m -- "$cygshim_line""#@),
        says(TOOL_SCRIPT@, "cygshim_status=${PIPESTATUS[0]}"@),
        says(TOOL_SCRIPT@, r#"exit "$cygshim_status""#@),
{
    reveal_strlit(
        r#"
cygshim_git_args=("${cygshim_args[@]}")

# Git accepts filesystem paths both as standalone arguments and as values of
# these global options.
for ((cygshim_i = 0; cygshim_i < ${#cygshim_git_args[@]}; cygshim_i++)); do
  cygshim_arg=${cygshim_git_args[cygshim_i]}
  case $cygshim_arg in
    --git-dir=*|--work-tree=*)
      cygshim_prefix=${cygshim_arg%%=*}=
      cygshim_value=${cygshim_arg#*=}
      cygshim_git_args[cygshim_i]="$cygshim_prefix$(cygshim_to_posix_if_windows_absolute "$cygshim_value")"
      ;;
    *)
      cygshim_git_args[cygshim_i]=$(cygshim_to_posix_if_windows_absolute "$cygshim_arg")
      ;;
  esac
done

# Filter only rev-parse forms whose output is documented as one path per line.
# Applying path conversion to arbitrary Git output would corrupt diffs, file
# contents, object data, and NUL-delimited records.
cygshim_git_path_output=0
cygshim_git_rev_parse=0
cygshim_git_absolute_paths=0
for cygshim_arg in "${cygshim_git_args[@]}"; do
  if [[ $cygshim_arg == rev-parse ]]; then
    cygshim_git_rev_parse=1
  elif [[ $cygshim_git_rev_parse == 1 ]]; then
    case $cygshim_arg in
      --show-toplevel|--show-superproject-working-tree|--absolute-git-dir)
        cygshim_git_path_output=1
        ;;
      --path-format=absolute)
        cygshim_git_absolute_paths=1
        ;;
      --git-dir|--git-common-dir)
        if [[ $cygshim_git_absolute_paths == 1 ]]; then
          cygshim_git_path_output=1
        fi
        ;;
    esac
  fi
done

# Most commands can replace the shell and retain byte-for-byte stream behavior.
if [[ $cygshim_git_path_output == 0 ]]; then
  exec /usr/bin/git "${cygshim_git_args[@]}"
fi

# Preserve Git's status rather than returning the path filter's status.
set -o pipefail
/usr/bin/git "${cygshim_git_args[@]}" | while IFS= read -r cygshim_line || [[ -n $cygshim_line ]]; do
  if [[ $cygshim_line == /* ]]; then
    cygpath -m -- "$cygshim_line"
  else
    printf '%s\n' "$cygshim_line"
  fi
done
cygshim_status=${PIPESTATUS[0]}
exit "$cygshim_status"
"#,
    );
    reveal_strlit("--git-dir=*|--work-tree=*)");
    reveal_strlit(r#"exec /usr/bin/git "${cygshim_git_args[@]}""#);
    reveal_strlit("$cygshim_arg == rev-parse");
    reveal_strlit("--show-toplevel|");
    reveal_strlit("--show-superproject-working-tree|");
    reveal_strlit("--absolute-git-dir)");
    reveal_strlit("--path-format=absolute)");
    reveal_strlit("--git-dir|--git-common-dir)");
    reveal_strlit(r#"cygpath -m -- "$cygshim_line""#);
    reveal_strlit("cygshim_status=${PIPESTATUS[0]}");
    reveal_strlit(r#"exit "$cygshim_status""#);
    assert(TOOL_SCRIPT@.skip(291).take(26) =~= "--git-dir=*|--work-tree=*)"@);
    assert(TOOL_SCRIPT@.skip(1603).take(42) =~= r#"exec /usr/bin/git "${cygshim_git_args[@]}""#@);
    assert(TOOL_SCRIPT@.skip(975).take(25) =~= "$cygshim_arg == rev-parse"@);
    assert(TOOL_SCRIPT@.skip(1116).take(16) =~= "--show-toplevel|"@);
    assert(TOOL_SCRIPT@.skip(1132).take(33) =~= "--show-superproject-working-tree|"@);
    assert(TOOL_SCRIPT@.skip(1165).take(19) =~= "--absolute-git-dir)"@);
    assert(TOOL_SCRIPT@.skip(1236).take(23) =~= "--path-format=absolute)"@);
    assert(TOOL_SCRIPT@.skip(1314).take(27) =~= "--git-dir|--git-common-dir)"@);
    assert(TOOL_SCRIPT@.skip(1881).take(29) =~= r#"cygpath -m -- "$cygshim_line""#@);
    assert(TOOL_SCRIPT@.skip(1962).take(31) =~= "cygshim_status=${PIPESTATUS[0]}"@);
    assert(TOOL_SCRIPT@.skip(1994).take(22) =~= r#"exit "$cygshim_status""#@);
}

} // verus!
