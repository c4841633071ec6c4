use cygshim::diagnostics::file_line_path_span;
use cygshim::known_paths::{drain_known_paths, replace_known_paths};
use cygshim::path_map::PathMap;
use cygshim::records::{paths_from_fls, rewrite_synctex};

#[test]
fn finds_unambiguous_file_line_paths() {
    assert_eq!(
        file_line_path_span(b"/cygdrive/c/a file (draft).tex:42: error\n"),
        Some((0, 30))
    );
    assert_eq!(
        file_line_path_span(b"(/usr/share/texmf/a.cls:7: error\n"),
        Some((1, 23))
    );
    assert_eq!(file_line_path_span(b"(ambiguous file.tex)\n"), None);
}

#[test]
fn reads_paths_with_spaces_and_parentheses_from_fls() {
    let paths = paths_from_fls(
        b"PWD /cygdrive/c/work\nINPUT /cygdrive/c/a file (draft).tex\nOUTPUT relative.pdf\n",
    );
    assert_eq!(paths, [b"/cygdrive/c/a file (draft).tex".to_vec()]);
}

#[test]
fn rewrites_only_synctex_input_path_fields() {
    let input = b"SyncTeX Version:1\nInput:1:/cygdrive/c/a file.tex\nOutput:pdf\n";
    let mut mappings = PathMap::new();
    mappings.insert(
        b"/cygdrive/c/a file.tex".to_vec(),
        b"C:/a file.tex".to_vec(),
    );
    assert_eq!(
        rewrite_synctex(input, &mappings),
        b"SyncTeX Version:1\nInput:1:C:/a file.tex\nOutput:pdf\n"
    );
}

#[test]
fn longest_known_path_wins() {
    let mappings = [
        (b"/root/a.tex".to_vec(), b"C:/root/a.tex".to_vec()),
        (b"/root".to_vec(), b"C:/root".to_vec()),
    ];
    assert_eq!(
        replace_known_paths(b"(/root/a.tex)", &mappings),
        b"(C:/root/a.tex)"
    );
}

#[test]
fn rewrites_known_paths_across_tex_line_wrapping() {
    let mappings = [(
        b"/cygdrive/c/a file (draft).tex".to_vec(),
        b"C:/a file (draft).tex".to_vec(),
    )];
    assert_eq!(
        replace_known_paths(
            b"(/cygdrive/c/a file\r\n (draft).tex:42: error\n",
            &mappings,
        ),
        b"(C:/a file (draft).tex:42: error\n"
    );
}

#[test]
fn buffers_a_known_path_split_across_reads() {
    let mappings = [(b"/cygdrive/c/a.tex".to_vec(), b"C:/a.tex".to_vec())];
    let mut buffer = b"before (/cygdrive/c/a".to_vec();
    assert_eq!(
        drain_known_paths(&mut buffer, &mappings, false),
        b"before ("
    );
    assert_eq!(buffer, b"/cygdrive/c/a");
    buffer.extend_from_slice(b".tex) after\n");
    assert_eq!(
        drain_known_paths(&mut buffer, &mappings, false),
        b"C:/a.tex) after\n"
    );
    assert!(buffer.is_empty());
}
