use cygshim::diagnostics::{
    file_line_path_span, forward_complete_lines, forward_diagnostics, DiagnosticStream,
};
use cygshim::known_paths::{drain_known_paths, match_known_path, replace_known_paths, PathMatch};

fn known() -> Vec<(Vec<u8>, Vec<u8>)> {
    vec![
        (b"/cygdrive/c/w/a.tex".to_vec(), b"C:/w/a.tex".to_vec()),
        (b"/cygdrive/c/w".to_vec(), b"C:/w".to_vec()),
    ]
}

fn forward(reads: &[&[u8]]) -> Vec<u8> {
    let mut stream = DiagnosticStream::new();
    let mut output = Vec::new();
    for read in reads.iter().chain([&b"".as_slice()]) {
        forward_diagnostics(&mut stream, read);
        while let Some(line) = forward_complete_lines(&mut stream, &known()) {
            output.extend(line);
        }
    }
    assert!(stream.path_buffer.is_empty());
    assert!(stream.line_buffer.is_empty());
    output
}

#[test]
fn matches_whole_paths_partial_paths_and_nothing() {
    assert!(matches!(match_known_path(b"/a/b)", b"/a/b"), PathMatch::Full(4)));
    assert!(matches!(match_known_path(b"/a\r\n/b)", b"/a/b"), PathMatch::Full(6)));
    assert!(matches!(match_known_path(b"/a\n", b"/a/b"), PathMatch::Partial));
    assert!(matches!(match_known_path(b"/a", b"/a"), PathMatch::Full(2)));
    assert!(matches!(match_known_path(b"\n/a", b"/a"), PathMatch::Mismatch));
    assert!(matches!(match_known_path(b"/ax", b"/a/b"), PathMatch::Mismatch));
    assert!(matches!(match_known_path(b"", b"/a"), PathMatch::Mismatch));
    assert!(matches!(match_known_path(b"", b""), PathMatch::Mismatch));
    assert!(matches!(match_known_path(b"/a", b""), PathMatch::Mismatch));
}

#[test]
fn the_end_of_input_releases_a_partial_path() {
    let mut buffer = b"x /cygdrive/c/w/a.t".to_vec();
    assert_eq!(drain_known_paths(&mut buffer, &known(), false), b"x ");
    assert_eq!(buffer, b"/cygdrive/c/w/a.t");
    assert_eq!(drain_known_paths(&mut buffer, &known(), true), b"C:/w/a.t");
    assert!(buffer.is_empty());
}

#[test]
fn text_without_known_paths_stays_as_it_is() {
    assert_eq!(replace_known_paths(b"(/usr/share/x.sty\r\n)", &known()), b"(/usr/share/x.sty\r\n)");
    assert_eq!(replace_known_paths(b"/cygdrive/c/w", &[]), b"/cygdrive/c/w");
}

#[test]
fn the_order_of_paths_of_one_length_does_not_matter() {
    let one = (b"/a/1".to_vec(), b"A:/1".to_vec());
    let two = (b"/a/2".to_vec(), b"A:/2".to_vec());
    let text = b"/a/1 /a/2 /a/3";
    assert_eq!(
        replace_known_paths(text, &[one.clone(), two.clone()]),
        replace_known_paths(text, &[two, one]),
    );
}

#[test]
fn reads_may_split_a_stream_anywhere() {
    let text: &[u8] = b"(/cygdrive/c/w/a.tex\n/cygdrive/c/w/b.tex:3: oops\nthe end /cygdrive/c/w/a.t";
    let expected = b"(C:/w/a.tex\nC:/w/b.tex:3: oops\nthe end C:/w/a.t".to_vec();
    assert_eq!(forward(&[text]), expected);
    for at in 1..text.len() {
        assert_eq!(forward(&[&text[..at], &text[at..]]), expected, "{at}");
    }
}

#[test]
fn lines_are_handed_out_whole() {
    let mut stream = DiagnosticStream::new();
    forward_diagnostics(&mut stream, b"one\r\ntwo\nthr");
    assert_eq!(forward_complete_lines(&mut stream, &[]), Some(b"one\r\n".to_vec()));
    assert_eq!(forward_complete_lines(&mut stream, &[]), Some(b"two\n".to_vec()));
    assert_eq!(forward_complete_lines(&mut stream, &[]), None);
    assert_eq!(stream.path_buffer, b"thr");
    forward_diagnostics(&mut stream, b"ee\n");
    assert_eq!(forward_complete_lines(&mut stream, &[]), Some(b"three\n".to_vec()));
    assert_eq!(forward_complete_lines(&mut stream, &[]), None);
    assert!(stream.path_buffer.is_empty());
    assert_eq!(forward(&[b"a\n\nb\r\nc"]), b"a\n\nb\r\nc");
}

#[test]
fn a_line_feed_in_a_native_path_ends_a_line() {
    let mappings = [(b"/a".to_vec(), b"A:\nB".to_vec())];
    let mut stream = DiagnosticStream::new();
    forward_diagnostics(&mut stream, b"x/a y\n");
    assert_eq!(forward_complete_lines(&mut stream, &mappings), Some(b"xA:\n".to_vec()));
    assert_eq!(stream.line_buffer, b"B");
    assert_eq!(forward_complete_lines(&mut stream, &mappings), Some(b"B y\n".to_vec()));
    assert_eq!(forward_complete_lines(&mut stream, &mappings), None);
}

#[test]
fn a_stream_without_mappings_passes_through() {
    let mut stream = DiagnosticStream::new();
    forward_diagnostics(&mut stream, b"/cygdrive/c/w\nrest");
    assert_eq!(forward_complete_lines(&mut stream, &[]), Some(b"/cygdrive/c/w\n".to_vec()));
    assert_eq!(forward_complete_lines(&mut stream, &[]), None);
    forward_diagnostics(&mut stream, b"");
    assert_eq!(forward_complete_lines(&mut stream, &[]), Some(b"rest".to_vec()));
    assert_eq!(forward_complete_lines(&mut stream, &[]), None);
}

#[test]
fn file_line_paths_need_digits_between_colons() {
    assert_eq!(file_line_path_span(b"/a:12:x"), Some((0, 2)));
    assert_eq!(file_line_path_span(b"/a:b:12:"), Some((0, 4)));
    assert_eq!(file_line_path_span(b"(/a:1:"), Some((1, 3)));
    assert_eq!(file_line_path_span(b"/a:12\n"), None);
    assert_eq!(file_line_path_span(b"/a::x"), None);
    assert_eq!(file_line_path_span(b"a:1:"), None);
    assert_eq!(file_line_path_span(b"((/a:1:"), None);
    assert_eq!(file_line_path_span(b"/a:1\n:"), None);
    assert_eq!(file_line_path_span(b"\n"), None);
    assert_eq!(file_line_path_span(b""), None);
}
