use cygshim::invocation::{
    normalize_windows_path, option_path_value, option_value, push_unique, resolve_directory,
    resolve_path, TexInvocation,
};
use cygshim::os_text::to_lossy;
use cygshim::short_names::{
    expand_tex_path_argument, long_path_capacity, long_path_name, LongPathReply,
};

fn strings(list: &[&str]) -> Vec<String> {
    list.iter().map(|text| text.to_string()).collect()
}

fn texts(list: &[Vec<u8>]) -> Vec<String> {
    list.iter()
        .map(|bytes| String::from_utf8(bytes.clone()).unwrap())
        .collect()
}

fn parse(args: &[&str]) -> TexInvocation {
    TexInvocation::parse(&strings(args), br"C:\work")
}

#[test]
fn the_last_option_wins() {
    let args = strings(&["-outdir=a", "x.tex", "--output-directory=b", "-auxdir=c"]);
    assert_eq!(
        option_value(&args, &["-outdir=", "-output-directory=", "--output-directory="]),
        Some("b")
    );
    assert_eq!(option_value(&args, &["-auxdir="]), Some("c"));
    assert_eq!(option_value(&args, &["-jobname="]), None);
    assert_eq!(option_value(&[], &["-jobname="]), None);
    assert_eq!(option_value(&args, &[]), None);
}

#[test]
fn six_options_take_a_path() {
    for name in [
        "-outdir=",
        "-output-directory=",
        "--output-directory=",
        "-auxdir=",
        "-aux-directory=",
        "--aux-directory=",
    ] {
        assert_eq!(option_path_value(&format!("{name}Ünïcode dir")), Some("Ünïcode dir"));
        assert_eq!(option_path_value(name), Some(""));
    }
    assert_eq!(option_path_value("-jobname=x"), None);
    assert_eq!(option_path_value("-outdir"), None);
    assert_eq!(option_path_value("x-outdir=y"), None);
}

#[test]
fn extended_prefixes_and_backslashes_go() {
    assert_eq!(normalize_windows_path(r"C:\a b\c.tex"), "C:/a b/c.tex");
    assert_eq!(normalize_windows_path(r"\\?\C:\Users\é"), "C:/Users/é");
    assert_eq!(normalize_windows_path(r"\\?\UNC\server\share\x"), "//server/share/x");
    assert_eq!(normalize_windows_path(r"\\server\share"), "//server/share");
    assert_eq!(normalize_windows_path(""), "");
    let once = normalize_windows_path(r"\\?\C:\a");
    assert_eq!(normalize_windows_path(&once), once);
}

#[test]
fn directories_are_resolved_from_the_current_one() {
    assert_eq!(resolve_directory(br"C:\work", "out"), br"C:\work\out");
    assert_eq!(resolve_directory(br"C:\work", r"D:\out"), br"D:\out");
    assert_eq!(resolve_directory(br"C:\work", r"\out"), br"C:\out");
    assert_eq!(resolve_path(br"C:\work", b"D:out"), b"D:out");
}

#[test]
fn a_directory_is_listed_once() {
    let mut paths = Vec::new();
    push_unique(&mut paths, br"C:\work".to_vec());
    push_unique(&mut paths, b"c:/work/.".to_vec());
    push_unique(&mut paths, br"C:\other".to_vec());
    assert_eq!(paths, [br"C:\work".to_vec(), br"C:\other".to_vec()]);
}

#[test]
fn reads_a_usual_command_line() {
    let invocation = parse(&["-synctex=1", r"-outdir=build", r"sub\My Paper.TEX"]);
    assert_eq!(invocation.args.len(), 3);
    assert_eq!(invocation.base, Some(b"My Paper".to_vec()));
    assert_eq!(
        texts(&invocation.directories),
        [r"C:\work\build", r"C:\work", r"C:\work\sub"]
    );
}

#[test]
fn the_job_name_replaces_that_of_the_source() {
    assert_eq!(parse(&["-jobname=other", "a.tex"]).base, Some(b"other".to_vec()));
    assert_eq!(parse(&["-jobname=", "a.tex"]).base, Some(b"".to_vec()));
    assert_eq!(parse(&["a.tex", "b.tex", "-x.tex"]).base, Some(b"b".to_vec()));
    assert_eq!(parse(&["a.pdf"]).base, None);
    assert_eq!(parse(&[".tex"]).base, Some(b".tex".to_vec()));
}

#[test]
fn directories_come_in_the_order_of_their_likelihood() {
    let invocation = parse(&["-cd", r"-auxdir=aux", r"--output-directory=D:\out", r"E:\src\a.tex"]);
    assert_eq!(
        texts(&invocation.directories),
        [r"C:\work\aux", r"D:\out", r"E:\src", r"C:\work"]
    );
    let stays = parse(&["-cd", "-cd-", r"E:\src\a.tex"]);
    assert_eq!(texts(&stays.directories), [r"C:\work", r"E:\src"]);
    let here = parse(&["-cd", "a.tex"]);
    assert_eq!(texts(&here.directories), [r"C:\work\"]);
}

#[test]
fn absolute_paths_are_taken_from_the_command_line() {
    let invocation = parse(&[
        r"C:\a\b.tex",
        r"-outdir=\\?\C:\out",
        "c.tex",
        "C:/a/b.tex",
        r"-jobname=C:\x",
    ]);
    assert_eq!(invocation.absolute_windows_paths(), ["C:/a/b.tex", "C:/out"]);
}

#[test]
fn short_names_are_asked_for() {
    let query = expand_tex_path_argument(br"C:\RUNNER~1\a.tex").unwrap();
    assert!(query.prefix.is_empty());
    assert_eq!(query.path, br"C:\RUNNER~1\a.tex");
    assert_eq!(
        query.expand(br"C:\RUNNER~1\a.tex".to_vec(), Some(br"C:\runneradmin\a.tex".to_vec())),
        br"C:\runneradmin\a.tex"
    );
    let query = expand_tex_path_argument(br"-outdir=C:\PROGRA~1").unwrap();
    assert_eq!(query.prefix, b"-outdir=");
    assert_eq!(query.path, br"C:\PROGRA~1");
    assert_eq!(
        query.expand(br"-outdir=C:\PROGRA~1".to_vec(), Some(br"C:\Program Files".to_vec())),
        br"-outdir=C:\Program Files"
    );
}

#[test]
fn arguments_without_an_absolute_path_stay() {
    for argument in ["", "a.tex", "-outdir=out", "-jobname=C:\\x", "-interaction=nonstopmode"] {
        assert!(expand_tex_path_argument(argument.as_bytes()).is_none(), "{argument}");
    }
    let query = expand_tex_path_argument(br"C:\none").unwrap();
    assert_eq!(query.expand(br"C:\none".to_vec(), None), br"C:\none");
}

#[test]
fn lone_surrogates_become_replacement_characters() {
    assert_eq!(to_lossy("a é \u{d7ff}".as_bytes()), "a é \u{d7ff}".as_bytes());
    assert_eq!(to_lossy(b"x\xed\xa0\x80y\xed\xbf\xbf"), "x\u{fffd}y\u{fffd}".as_bytes());
    let query = expand_tex_path_argument(b"-outdir=C:\\\xed\xa0\x80").unwrap();
    assert_eq!(query.path, "C:\\\u{fffd}".as_bytes());
    let query = expand_tex_path_argument(b"C:\\\xed\xa0\x80").unwrap();
    assert_eq!(query.path, b"C:\\\xed\xa0\x80");
}

#[test]
fn the_buffer_for_a_long_name_grows() {
    assert_eq!(long_path_capacity(260), Some(260));
    assert_eq!(long_path_name(10, 0), LongPathReply::Missing);
    assert_eq!(long_path_name(10, 9), LongPathReply::Complete(9));
    assert_eq!(long_path_name(10, 10), LongPathReply::Grow(10));
    assert_eq!(long_path_name(10, 31), LongPathReply::Grow(31));
}
