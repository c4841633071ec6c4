use cygshim::native_path::{
    file_name, file_stem, is_absolute, join, parent, same_path, with_file_name,
};

fn text(bytes: Vec<u8>) -> String {
    String::from_utf8(bytes).unwrap()
}

fn joined(base: &str, path: &str) -> String {
    text(join(base.as_bytes(), path.as_bytes()))
}

fn parent_text(path: &str) -> Option<String> {
    parent(path.as_bytes()).map(text)
}

#[test]
fn tells_absolute_paths_from_others() {
    for path in [
        r"C:\a",
        "c:/a",
        r"\\server\share",
        r"\\server\share\a",
        "//server/share/a",
        r"\\?\C:\a",
        r"\\?\UNC\server\share\a",
        r"\\.\COM1",
    ] {
        assert!(is_absolute(path.as_bytes()), "{path}");
    }
    for path in ["", "a", r"a\b", r"\a", "/a", "C:", "C:a", ".", "..", "-outdir=x", r"\\server"] {
        assert!(!is_absolute(path.as_bytes()), "{path}");
    }
}

#[test]
fn parents_lose_the_last_name() {
    assert_eq!(parent_text(r"C:\a\b.tex").as_deref(), Some(r"C:\a"));
    assert_eq!(parent_text("C:/a/b.tex").as_deref(), Some("C:/a"));
    assert_eq!(parent_text(r"a\\b").as_deref(), Some("a"));
    assert_eq!(parent_text(r"a\b\").as_deref(), Some("a"));
    assert_eq!(parent_text(r"C:\a").as_deref(), Some(r"C:\"));
    assert_eq!(parent_text("C:a").as_deref(), Some("C:"));
    assert_eq!(parent_text("a").as_deref(), Some(""));
    assert_eq!(parent_text("./a").as_deref(), Some("."));
    assert_eq!(parent_text(".").as_deref(), Some(""));
    assert_eq!(parent_text(r"\\server\share\a").as_deref(), Some(r"\\server\share\"));
    assert_eq!(parent_text(r"\\?\C:\a\.").as_deref(), Some(r"\\?\C:\a"));
    assert_eq!(parent_text(r"C:\"), None);
    assert_eq!(parent_text("C:"), None);
    assert_eq!(parent_text(""), None);
    assert_eq!(parent_text(r"\\server\share"), None);
}

#[test]
fn finds_file_names_and_stems() {
    assert_eq!(file_name(br"C:\a\b.tex").map(text).as_deref(), Some("b.tex"));
    assert_eq!(file_name(b"a/b/.").map(text).as_deref(), Some("b"));
    assert_eq!(file_name(b"a/.."), None);
    assert_eq!(file_name(br"C:\"), None);
    assert_eq!(file_stem(b"a/b.synctex.gz").map(text).as_deref(), Some("b.synctex"));
    assert_eq!(file_stem(b".tex").map(text).as_deref(), Some(".tex"));
    assert_eq!(file_stem(b"name").map(text).as_deref(), Some("name"));
    assert_eq!(file_stem(b".."), None);
}

#[test]
fn joins_relative_rooted_and_absolute_paths() {
    assert_eq!(joined(r"C:\a", "b"), r"C:\a\b");
    assert_eq!(joined(r"C:\a\", "b"), r"C:\a\b");
    assert_eq!(joined("C:/a/", "b/c"), "C:/a/b/c");
    assert_eq!(joined("C:", "b"), "C:b");
    assert_eq!(joined(r"C:\a", r"\b"), r"C:\b");
    assert_eq!(joined(r"\\server\share\a", r"\b"), r"\\server\share\b");
    assert_eq!(joined(r"C:\a", r"D:\b"), r"D:\b");
    assert_eq!(joined(r"C:\a", "D:b"), "D:b");
    assert_eq!(joined("", "b"), "b");
    assert_eq!(joined(r"C:\a", ""), r"C:\a\");
}

#[test]
fn resolves_what_is_joined_to_a_verbatim_path() {
    assert_eq!(joined(r"\\?\C:\a", r"..\b/./c"), r"\\?\C:\b\c");
    assert_eq!(joined(r"\\?\C:\a\b", r"\c"), r"\\?\C:\c");
    assert_eq!(joined(r"\\?\C:\", "..\\..\\x"), r"\\?\C:\x");
    assert_eq!(joined(r"\\?\UNC\server\share", "x"), r"\\?\UNC\server\share\x");
}

#[test]
fn renames_the_last_part() {
    assert_eq!(
        text(with_file_name(br"C:\cygwin64\bin\bash.exe", b"cygpath.exe")),
        r"C:\cygwin64\bin\cygpath.exe"
    );
    assert_eq!(text(with_file_name(b"bash.exe", b"cygpath.exe")), "cygpath.exe");
    assert_eq!(text(with_file_name(br"C:\", b"x")), r"C:\x");
}

#[test]
fn paths_are_the_same_where_their_parts_are() {
    assert!(same_path(br"C:\a\b", b"c:/a//b/."));
    assert!(same_path(br"C:\a\", br"C:\a"));
    assert!(same_path(br"\\?\c:\a", br"\\?\C:\a"));
    assert!(!same_path(br"C:\a", br"C:\A"));
    assert!(!same_path(br"C:\a\..", br"C:\"));
    assert!(!same_path(br"\\?\C:\a", br"C:\a"));
    assert!(!same_path(br"a", br"a\b"));
    assert!(!same_path(br"./a", br"a"));
}
