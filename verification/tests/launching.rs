use cygshim::bash_search::{
    cygwin_root_from_cygpath, find_bash, is_cygwin_bash, root_arguments, validate_bash, BashError,
    Question,
};
use cygshim::bridge::{
    exit_status, make_command, starts_with_ignore_ascii_case, without_noglob, BashCommand,
    EnvChange, Terminals, BOOTSTRAP, PRELUDE,
};
use cygshim::git;
use cygshim::invocation::TexInvocation;
use cygshim::tex::{
    finish_run, missing_cygpath, report_forwarding_result, run_inner, ForwardingEnd, TOOL_SCRIPT,
};

const NO_TERMINALS: Terminals = Terminals { stdin: false, stdout: false, stderr: false };

fn text(bytes: Vec<u8>) -> String {
    String::from_utf8(bytes).unwrap()
}

#[test]
fn removes_only_noglob_from_cygwin_options() {
    assert_eq!(without_noglob(b"winsymlinks:native noglob"), b"winsymlinks:native");
    assert_eq!(without_noglob(b"noglob"), b"");
    assert_eq!(without_noglob(b"glob:ignorecase"), b"glob:ignorecase");
}

#[test]
fn noglob_goes_in_any_case_and_place() {
    assert_eq!(without_noglob(b" NoGlob\ta  b\r\nNOGLOB c "), b"a b c");
    assert_eq!(without_noglob(b"noglobx xnoglob"), b"noglobx xnoglob");
    assert_eq!(without_noglob(b""), b"");
}

#[test]
fn prefixes_are_compared_without_case() {
    assert!(starts_with_ignore_ascii_case(b"cygshim_arg_0", "CYGSHIM_"));
    assert!(starts_with_ignore_ascii_case(b"CYGSHIM_", "CYGSHIM_"));
    assert!(!starts_with_ignore_ascii_case(b"CYGSHIM", "CYGSHIM_"));
    assert!(!starts_with_ignore_ascii_case(b"XCYGSHIM_", "CYGSHIM_"));
    assert!(!starts_with_ignore_ascii_case(b"CYGSHIM\xed\xa0\x80", "CYGSHIM_"));
}

fn child(command: &BashCommand, inherited: &[(&str, &str)]) -> Vec<(String, String)> {
    let mut env: Vec<(String, String)> = inherited
        .iter()
        .map(|(name, value)| (name.to_string(), value.to_string()))
        .collect();
    for change in &command.changes {
        match change {
            EnvChange::Remove(name) => {
                let name = text(name.clone());
                env.retain(|(other, _)| !other.eq_ignore_ascii_case(&name));
            }
            EnvChange::Assign(name, value) => {
                let name = text(name.clone());
                env.retain(|(other, _)| !other.eq_ignore_ascii_case(&name));
                env.push((name, text(value.clone())));
            }
        }
    }
    env
}

fn value(env: &[(String, String)], name: &str) -> Option<String> {
    env.iter()
        .find(|(other, _)| other.eq_ignore_ascii_case(name))
        .map(|(_, value)| value.clone())
}

#[test]
fn arguments_cross_in_numbered_variables() {
    let arguments = [
        "",
        "plain",
        "with spaces",
        "[brackets]",
        "{braces}",
        "*.glob",
        "literal \"quote\"",
        "backslash\\\"quote",
        "line one\nline two",
        "9",
        "10",
    ];
    let args: Vec<Vec<u8>> = arguments.iter().map(|text| text.as_bytes().to_vec()).collect();
    let inherited = [
        ("PATH", r"C:\x"),
        ("cygshim_arg_11", "stale"),
        ("CYGSHIM_BASH", "stale"),
        ("CYGSHIM_ORIGINAL_CYGWIN", "stale"),
    ];
    let names: Vec<Vec<u8>> = inherited.iter().map(|(name, _)| name.as_bytes().to_vec()).collect();
    let command = make_command(
        br"C:\cygwin64\bin\bash.exe".to_vec(),
        "exec x",
        &args,
        &names,
        None,
        NO_TERMINALS,
    );
    assert_eq!(command.program, br"C:\cygwin64\bin\bash.exe");
    assert_eq!(command.arguments, [b"-c".to_vec(), BOOTSTRAP.as_bytes().to_vec()]);
    assert_eq!(BOOTSTRAP, "eval \"$CYGSHIM_SCRIPT\"");
    assert!(command.no_window);

    let env = child(&command, &inherited);
    let mut read = Vec::new();
    while let Some(argument) = value(&env, &format!("CYGSHIM_ARG_{}", read.len())) {
        read.push(argument);
    }
    assert_eq!(read, arguments);
    assert_eq!(value(&env, "PATH").as_deref(), Some(r"C:\x"));
    assert_eq!(value(&env, "CYGSHIM_SCRIPT"), Some(format!("{PRELUDE}\nexec x")));
    assert_eq!(value(&env, "CYGSHIM_BASH"), None);
    assert_eq!(value(&env, "CYGSHIM_ORIGINAL_CYGWIN"), None);
    assert_eq!(env.len(), 2 + arguments.len());
}

#[test]
fn the_setting_of_cygwin_is_kept_to_be_restored() {
    let names = [b"CYGWIN".to_vec()];
    let command = make_command(
        b"bash.exe".to_vec(),
        "",
        &[],
        &names,
        Some(b"noglob  winsymlinks:native".to_vec()),
        NO_TERMINALS,
    );
    let env = child(&command, &[("CYGWIN", "noglob  winsymlinks:native")]);
    assert_eq!(value(&env, "CYGWIN").as_deref(), Some("winsymlinks:native"));
    assert_eq!(
        value(&env, "CYGSHIM_ORIGINAL_CYGWIN").as_deref(),
        Some("noglob  winsymlinks:native")
    );
    let command = make_command(b"bash.exe".to_vec(), "", &[], &names, None, NO_TERMINALS);
    assert_eq!(value(&child(&command, &[]), "CYGWIN"), None);
}

#[test]
fn a_terminal_keeps_the_console_window() {
    for terminals in [
        Terminals { stdin: true, ..NO_TERMINALS },
        Terminals { stdout: true, ..NO_TERMINALS },
        Terminals { stderr: true, ..NO_TERMINALS },
    ] {
        let command = make_command(b"bash.exe".to_vec(), "", &[], &[], None, terminals);
        assert!(!command.no_window);
    }
}

#[test]
fn a_failure_is_never_forwarded_as_a_success() {
    for status in 0..=255 {
        assert_eq!(i32::from(exit_status(Some(status))), status);
    }
    for status in [256, 512, -256, 0x0100_0000, i32::MIN] {
        assert_eq!(exit_status(Some(status)), 1);
        assert_eq!(finish_run(Some(status), None), (1, None));
    }
    assert_eq!(exit_status(Some(259)), 3);
    assert_eq!(exit_status(Some(-1)), 255);
    assert_eq!(exit_status(Some(i32::MAX)), 255);
    assert_eq!(exit_status(None), 1);
}

#[test]
fn cygpath_is_asked_for_the_root_in_a_known_encoding() {
    assert_eq!(root_arguments(), ["-C", "UTF8", "-w", "/"]);
}

#[test]
fn bash_needs_the_library_of_cygwin_beside_it() {
    assert!(is_cygwin_bash(br"C:\bin\bash.exe", true, true));
    assert!(!is_cygwin_bash(br"C:\bin\bash.exe", true, false));
    assert!(!is_cygwin_bash(br"C:\bin\bash.exe", false, true));
    assert!(!is_cygwin_bash(br"C:\", true, true));
    assert_eq!(
        validate_bash(b"x".to_vec(), "CYGSHIM_BASH", true).ok(),
        Some(b"x".to_vec())
    );
    let error = validate_bash(b"C:\\x\xed\xa0\x80".to_vec(), "CYGSHIM_BASH", false).err().unwrap();
    assert_eq!(
        text(error.message()),
        "CYGSHIM_BASH does not identify Cygwin bash.exe: C:\\x\u{fffd}"
    );
}

#[test]
fn a_root_is_one_line_of_text() {
    assert_eq!(
        cygwin_root_from_cygpath(true, b"C:\\cygwin64\r\n"),
        Some(br"C:\cygwin64".to_vec())
    );
    assert_eq!(cygwin_root_from_cygpath(false, b"C:\\cygwin64\n"), None);
    assert_eq!(cygwin_root_from_cygpath(true, b"\r\n\n"), None);
    assert_eq!(cygwin_root_from_cygpath(true, b""), None);
    assert_eq!(cygwin_root_from_cygpath(true, b"C:\\\xff\n"), None);
}

fn search(
    variable: Option<&str>,
    directories: &[&str],
    files: &[&str],
    roots: &[(&str, &str)],
) -> Result<String, String> {
    let mut search = find_bash(
        variable.map(|path| path.as_bytes().to_vec()),
        directories.iter().map(|path| path.as_bytes().to_vec()).collect(),
    );
    loop {
        match search.question() {
            Question::IsFile(path) => {
                let path = text(path);
                search = search.answer_file(files.contains(&path.as_str()));
            }
            Question::Root(path) => {
                let path = text(path);
                let root = roots.iter().find(|(cygpath, _)| *cygpath == path);
                search = match root {
                    Some((_, root)) => search.answer_root(true, format!("{root}\r\n").as_bytes()),
                    None => search.answer_root(false, b""),
                };
            }
            Question::Found(path) => return Ok(text(path)),
            Question::Failed(error) => {
                if let BashError::Invalid(variable, _) = &error {
                    assert_eq!(variable, "CYGSHIM_BASH");
                }
                return Err(text(error.message()));
            }
        }
    }
}

#[test]
fn the_variable_names_the_only_candidate() {
    let files = [r"D:\b\bash.exe", r"D:\b\cygwin1.dll", r"C:\p\bash.exe", r"C:\p\cygwin1.dll"];
    assert_eq!(
        search(Some(r"D:\b\bash.exe"), &[r"C:\p"], &files, &[]),
        Ok(r"D:\b\bash.exe".to_string())
    );
    assert_eq!(
        search(Some(r"E:\bash.exe"), &[r"C:\p"], &files, &[]),
        Err(r"CYGSHIM_BASH does not identify Cygwin bash.exe: E:\bash.exe".to_string())
    );
}

#[test]
fn a_cygpath_leads_to_bash_before_bash_itself() {
    let files = [
        r"C:\git\bash.exe",
        r"C:\msys\cygpath.exe",
        r"D:\msys\bin\bash.exe",
        r"C:\late\cygpath.exe",
        r"D:\cygwin\bin\bash.exe",
        r"D:\cygwin\bin\cygwin1.dll",
        r"C:\p\bash.exe",
        r"C:\p\cygwin1.dll",
    ];
    let directories = [r"C:\git", r"C:\p", r"C:\msys", r"C:\late"];
    let roots = [(r"C:\msys\cygpath.exe", r"D:\msys"), (r"C:\late\cygpath.exe", r"D:\cygwin")];
    assert_eq!(
        search(None, &directories, &files, &roots),
        Ok(r"D:\cygwin\bin\bash.exe".to_string())
    );
    assert_eq!(
        search(None, &directories, &files, &roots[..1]),
        Ok(r"C:\p\bash.exe".to_string())
    );
}

#[test]
fn conventional_places_come_last() {
    let files = [
        r"C:\cygwin64\bin\bash.exe",
        r"C:\cygwin\bin\bash.exe",
        r"C:\cygwin\bin\cygwin1.dll",
        r"C:\git\bash.exe",
    ];
    assert_eq!(
        search(None, &[r"C:\git"], &files, &[]),
        Ok(r"C:\cygwin\bin\bash.exe".to_string())
    );
    assert_eq!(
        search(None, &[], &[], &[]),
        Err("could not find Cygwin bash.exe; put Cygwin's bin directory on PATH or set \
             CYGSHIM_BASH"
            .to_string())
    );
}

#[test]
fn git_runs_its_script() {
    let command = git::command(b"bash.exe".to_vec(), &[b"x".to_vec()], &[], None, NO_TERMINALS);
    let env = child(&command, &[]);
    assert_eq!(
        value(&env, "CYGSHIM_SCRIPT"),
        Some(format!("{PRELUDE}\n{}", git::TOOL_SCRIPT))
    );
    assert_eq!(value(&env, "CYGSHIM_ARG_0").as_deref(), Some("x"));
}

#[test]
fn a_tex_run_is_set_up() {
    let args = [r"C:\w\a.tex".to_string(), "-outdir=C:/out".to_string()];
    let invocation = TexInvocation::parse(&args, br"C:\w");
    let raw: Vec<Vec<u8>> = args.iter().map(|text| text.as_bytes().to_vec()).collect();
    let run = run_inner(
        "/usr/bin/pdflatex",
        &invocation,
        br"C:\cygwin64\bin\bash.exe".to_vec(),
        &raw,
        &[],
        None,
        Terminals { stdout: true, ..NO_TERMINALS },
    );
    assert_eq!(run.cygpath, br"C:\cygwin64\bin\cygpath.exe");
    assert_eq!(run.windows_paths, ["C:/w/a.tex", "C:/out"]);
    let conversion = run.conversion.unwrap();
    assert_eq!(conversion.arguments, ["-u", "-f", "-"]);
    assert_eq!(conversion.input, b"C:/w/a.tex\nC:/out\n");
    assert_eq!(conversion.expected, 2);
    assert!(!run.filter_stdout);
    assert!(run.filter_stderr);
    assert!(!run.command.no_window);
    assert_eq!(
        value(&child(&run.command, &[]), "CYGSHIM_SCRIPT"),
        Some(format!("{PRELUDE}\ncygshim_tex_program=/usr/bin/pdflatex\n{TOOL_SCRIPT}"))
    );
    let relative = TexInvocation::parse(&["a.tex".to_string()], br"C:\w");
    let run = run_inner("x", &relative, b"bash".to_vec(), &[], &[], None, NO_TERMINALS);
    assert!(run.conversion.is_none());
    assert_eq!(
        text(missing_cygpath(br"C:\bash.exe")),
        r"could not find cygpath.exe next to C:\bash.exe"
    );
}

#[test]
fn broken_pipes_are_not_reported() {
    assert_eq!(report_forwarding_result("stdout", None), None);
    assert_eq!(report_forwarding_result("stdout", Some(ForwardingEnd::Finished)), None);
    assert_eq!(report_forwarding_result("stdout", Some(ForwardingEnd::BrokenPipe)), None);
    assert_eq!(
        report_forwarding_result("stdout", Some(ForwardingEnd::Failed("no".to_string()))),
        Some("cygshim: could not filter TeX stdout: no".to_string())
    );
    assert_eq!(
        report_forwarding_result("stderr", Some(ForwardingEnd::Panicked)),
        Some("cygshim: TeX stderr filter panicked".to_string())
    );
}

#[test]
fn failed_postprocessing_does_not_change_the_status() {
    assert_eq!(finish_run(Some(0), None), (0, None));
    assert_eq!(
        finish_run(Some(0), Some("x".to_string())),
        (0, Some("cygshim: TeX post-processing failed: x".to_string()))
    );
    assert_eq!(finish_run(None, Some("x".to_string())).0, 1);
    assert_eq!(finish_run(Some(12), None).0, 12);
}
