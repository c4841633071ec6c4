use cygshim::cygpath::{bulk_cygpath, bulk_cygpath_output, CygpathError, TO_NATIVE, TO_POSIX};
use cygshim::diagnostics::{forward_diagnostics, DiagnosticStream};
use cygshim::known_paths::replace_known_paths;
use cygshim::mapper::{Diagnostic, PathMapper};
use cygshim::path_map::PathMap;

fn mapper() -> PathMapper {
    PathMapper::new(
        vec!["C:/w".to_string(), "C:/w/a.tex".to_string()],
        vec![b"/cygdrive/c/w".to_vec(), b"/cygdrive/c/w/a.tex".to_vec()],
    )
}

fn rewritten(diagnostic: Diagnostic) -> Vec<u8> {
    match diagnostic {
        Diagnostic::Rewritten(line) => line,
        Diagnostic::Unknown(_) => panic!("the path is not known"),
    }
}

#[test]
fn a_map_keeps_the_last_form_of_a_path() {
    let mut map = PathMap::new();
    assert!(!map.contains_key(b"/a"));
    map.insert(b"/a".to_vec(), b"A:/".to_vec());
    map.insert(b"/b".to_vec(), b"B:/".to_vec());
    map.insert(b"/a".to_vec(), b"X:/".to_vec());
    assert_eq!(map.get(b"/a"), Some(&b"X:/".to_vec()));
    assert_eq!(map.get(b"/b"), Some(&b"B:/".to_vec()));
    assert_eq!(map.get(b"/c"), None);
    assert_eq!(map.entries().len(), 2);
}

#[test]
fn the_longest_paths_come_first() {
    let mapper = mapper();
    let ordered = mapper.ordered_paths();
    assert_eq!(ordered.len(), 2);
    assert_eq!(ordered[0].0, b"/cygdrive/c/w/a.tex");
    assert_eq!(ordered[1], (b"/cygdrive/c/w".to_vec(), b"C:/w".to_vec()));
    assert_eq!(
        replace_known_paths(b"(/cygdrive/c/w/a.tex /cygdrive/c/w/b", ordered),
        b"(C:/w/a.tex C:/w/b"
    );
}

#[test]
fn known_diagnostics_are_rewritten_at_once() {
    let mapper = mapper();
    assert_eq!(
        rewritten(mapper.rewrite_diagnostic(b"/cygdrive/c/w/a.tex:3: oops\n")),
        b"C:/w/a.tex:3: oops\n"
    );
    assert_eq!(rewritten(mapper.rewrite_diagnostic(b"(/usr/x.sty)\n")), b"(/usr/x.sty)\n");
}

#[test]
fn an_unknown_diagnostic_is_learned() {
    let mut mapper = mapper();
    let pending = match mapper.rewrite_diagnostic(b"(/usr/x.sty:3: see /cygdrive/c/w\n") {
        Diagnostic::Unknown(pending) => pending,
        Diagnostic::Rewritten(_) => panic!("the path is known"),
    };
    assert_eq!(pending.path(), b"/usr/x.sty");
    assert_eq!(
        mapper.finish_diagnostic(pending, Some(vec![b"C:/cygwin64/usr/x.sty".to_vec()])),
        b"(C:/cygwin64/usr/x.sty:3: see C:/w\n"
    );
    assert_eq!(
        rewritten(mapper.rewrite_diagnostic(b"/usr/x.sty:4: again\n")),
        b"C:/cygwin64/usr/x.sty:4: again\n"
    );
}

#[test]
fn a_failed_conversion_leaves_the_diagnostic() {
    let mut mapper = mapper();
    let pending = match mapper.rewrite_diagnostic(b"/usr/x.sty:3: oops\n") {
        Diagnostic::Unknown(pending) => pending,
        Diagnostic::Rewritten(_) => panic!("the path is known"),
    };
    assert_eq!(mapper.finish_diagnostic(pending, None), b"/usr/x.sty:3: oops\n");
    assert!(!mapper.paths().contains_key(b"/usr/x.sty"));
}

#[test]
fn paths_are_converted_once() {
    let mut mapper = mapper();
    let found = [
        b"/usr/x.sty".to_vec(),
        b"relative".to_vec(),
        b"/cygdrive/c/w".to_vec(),
        b"/usr/y.sty".to_vec(),
        b"/usr/x.sty".to_vec(),
    ];
    assert_eq!(
        mapper.unseen_posix_paths(&found),
        [b"/usr/x.sty".to_vec(), b"/usr/y.sty".to_vec()]
    );
    let run = mapper.conversion(&found).unwrap();
    assert_eq!(run.arguments, ["-m", "-f", "-"]);
    assert_eq!(run.input, b"/usr/x.sty\n/usr/y.sty\n");
    assert_eq!(run.expected, 2);
    mapper.add_posix_paths(&found, vec![b"C:/x.sty".to_vec(), b"C:/y.sty".to_vec()]);
    assert!(mapper.conversion(&found).is_none());
    assert!(mapper.conversion(&[b"relative".to_vec()]).is_none());
    assert!(mapper.unseen_posix_paths(&found).is_empty());
    assert_eq!(mapper.paths().get(b"/usr/y.sty"), Some(&b"C:/y.sty".to_vec()));
    assert_eq!(mapper.paths().get(b"/cygdrive/c/w"), Some(&b"C:/w".to_vec()));
    assert_eq!(mapper.paths().get(b"relative"), None);
    assert_eq!(mapper.ordered_paths().len(), 4);
}

fn write_stream(mapper: &mut PathMapper, reads: &[&[u8]], native: Option<&[u8]>) -> Vec<u8> {
    let mut stream = DiagnosticStream::new();
    let mut written = Vec::new();
    for read in reads.iter().chain([&b"".as_slice()]) {
        forward_diagnostics(&mut stream, read);
        while let Some(diagnostic) = mapper.forward_line(&mut stream) {
            match diagnostic {
                Diagnostic::Rewritten(line) => written.extend(line),
                Diagnostic::Unknown(pending) => {
                    let paths = native.map(|path| vec![path.to_vec()]);
                    written.extend(mapper.finish_diagnostic(pending, paths));
                }
            }
        }
    }
    written
}

#[test]
fn known_paths_are_replaced_once_in_a_stream() {
    let mut mapper = PathMapper::new(
        vec!["C:/root/a.tex".to_string(), "C:/cygwin64/usr/x.sty".to_string()],
        vec![b"/root/a.tex".to_vec(), b"/usr/x.sty".to_vec()],
    );
    assert_eq!(write_stream(&mut mapper, &[b"(/root/a.tex)\n"], None), b"(C:/root/a.tex)\n");
    let text: &[u8] = b"(/usr/x.sty\n/usr/x.sty:3: see /root/a.tex\n/usr/y.sty:4: oops /usr/x.sty";
    let expected: &[u8] = b"(C:/cygwin64/usr/x.sty\nC:/cygwin64/usr/x.sty:3: see C:/root/a.tex\n\
        /usr/y.sty:4: oops C:/cygwin64/usr/x.sty";
    assert_eq!(write_stream(&mut mapper, &[text], None), expected);
    for at in 1..text.len() {
        let reads = [&text[..at], &text[at..]];
        assert_eq!(write_stream(&mut mapper, &reads, None), expected, "{at}");
    }
}

#[test]
fn learned_paths_are_replaced_however_a_stream_is_read() {
    let text: &[u8] = b"(/usr/a.cls)\n/usr/a.cls:1: x\n(/usr/a.cls)\nsee /usr/a\n.cls and /usr/a.cls";
    let native: &[u8] = b"C:/cygwin64/usr/a.cls";
    let expected: &[u8] = b"(/usr/a.cls)\nC:/cygwin64/usr/a.cls:1: x\n(C:/cygwin64/usr/a.cls)\n\
        see C:/cygwin64/usr/a.cls and C:/cygwin64/usr/a.cls";
    assert_eq!(write_stream(&mut mapper(), &[text], Some(native)), expected);
    for at in 1..text.len() {
        let reads = [&text[..at], &text[at..]];
        assert_eq!(write_stream(&mut mapper(), &reads, Some(native)), expected, "{at}");
    }
}

#[test]
fn a_path_learned_elsewhere_is_replaced_in_a_line_held_back() {
    let mut mapper = mapper();
    let mut held = DiagnosticStream::new();
    forward_diagnostics(&mut held, b"(/usr/a.cls and /root");
    assert!(mapper.forward_line(&mut held).is_none());
    let mut other = DiagnosticStream::new();
    forward_diagnostics(&mut other, b"/usr/a.cls:1: x\n");
    let pending = match mapper.forward_line(&mut other) {
        Some(Diagnostic::Unknown(pending)) => pending,
        _ => panic!("the path is known"),
    };
    let run = mapper.conversion(&[pending.path()]).unwrap();
    assert_eq!(run.input, b"/usr/a.cls\n");
    mapper.finish_diagnostic(pending, Some(vec![b"C:/cygwin64/usr/a.cls".to_vec()]));
    forward_diagnostics(&mut held, b"/b)\n");
    assert_eq!(
        rewritten(mapper.forward_line(&mut held).unwrap()),
        b"(C:/cygwin64/usr/a.cls and /root/b)\n"
    );
}

#[test]
fn nothing_changes_where_no_path_is_new() {
    let mut mapper = PathMapper::new(
        vec!["A:/1".to_string(), "A:/2".to_string()],
        vec![b"/a/1".to_vec(), b"/a/2".to_vec()],
    );
    let before = mapper.ordered_paths().to_vec();
    mapper.add_posix_paths(&[b"/a/2".to_vec(), b"relative".to_vec()], vec![b"X:/".to_vec()]);
    assert_eq!(mapper.ordered_paths(), before);
}

#[test]
fn rebuilding_changes_nothing_of_what_is_known() {
    let mut mapper = mapper();
    mapper.rebuild_ordered_paths();
    assert_eq!(mapper.ordered_paths().len(), 2);
    assert_eq!(mapper.ordered_paths()[0].1, b"C:/w/a.tex");
}

#[test]
fn paths_go_to_cygpath_one_to_a_line() {
    let run = bulk_cygpath(TO_POSIX, &[b"/a b".to_vec(), b"/c".to_vec()]).unwrap();
    assert_eq!(run.arguments, ["-u", "-f", "-"]);
    assert_eq!(run.input, b"/a b\n/c\n");
    assert_eq!(run.expected, 2);
    assert!(bulk_cygpath(TO_NATIVE, &[]).is_none());
}

#[test]
fn lines_come_back_from_cygpath() {
    let paths = bulk_cygpath_output(true, b"C:/a b\r\nC:/c\n", 2);
    assert_eq!(paths.ok(), Some(vec![b"C:/a b".to_vec(), b"C:/c".to_vec()]));
    let sent = [b"/x".to_vec(), b"/y z".to_vec()];
    let run = bulk_cygpath(TO_NATIVE, &sent).unwrap();
    assert_eq!(bulk_cygpath_output(true, &run.input, run.expected).ok(), Some(sent.to_vec()));
}

#[test]
fn cygpath_can_fail_in_two_ways() {
    assert!(matches!(bulk_cygpath_output(false, b"C:/a\n", 1), Err(CygpathError::Failed)));
    assert!(matches!(
        bulk_cygpath_output(true, b"C:/a\n\n", 2),
        Err(CygpathError::Count { returned: 1, expected: 2 })
    ));
}

#[test]
fn errors_of_cygpath_have_texts() {
    assert_eq!(CygpathError::Failed.message("no such mount"), b"cygpath failed: no such mount");
    assert_eq!(
        CygpathError::Count { returned: 1, expected: 20 }.message("ignored"),
        b"cygpath returned 1 paths for 20 inputs"
    );
}
