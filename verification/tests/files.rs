use cygshim::artifacts::{ArtifactPaths, Artifacts, Fingerprint, Observation, WatchedFile};
use cygshim::invocation::TexInvocation;
use cygshim::mapper::PathMapper;
use cygshim::native_path::parent;
use cygshim::postprocess::{postprocess, rewrite_log, SynctexFile, Task};
use cygshim::records::{paths_from_synctex, synctex_path};
use cygshim::replace_file::{replace_file, temporary_path, Outcome, Stage};
use cygshim::synctex_file::{read_synctex, write_synctex, GzipError};
use flate2::read::GzDecoder;
use flate2::write::GzEncoder;
use flate2::Compression;
use std::io::{Read, Write};

fn seen(length: u64, modified: i128) -> Option<Observation> {
    Some(Observation { is_file: true, length, modified: Some(modified) })
}

fn gzip(data: &[u8]) -> Vec<u8> {
    let mut encoder = GzEncoder::new(Vec::new(), Compression::default());
    encoder.write_all(data).unwrap();
    encoder.finish().unwrap()
}

fn gunzip(data: &[u8]) -> Vec<u8> {
    let mut contents = Vec::new();
    GzDecoder::new(data).read_to_end(&mut contents).unwrap();
    contents
}

fn mapper() -> PathMapper {
    PathMapper::new(vec!["C:/a b.tex".to_string()], vec![b"/cygdrive/c/a b.tex".to_vec()])
}

#[test]
fn files_are_looked_for_in_every_directory() {
    let invocation = TexInvocation::parse(
        &["-outdir=out".to_string(), "a.b.tex".to_string()],
        br"C:\w",
    );
    let paths = ArtifactPaths::new(&invocation);
    assert_eq!(paths.logs, [br"C:\w\out\a.b.log".to_vec(), br"C:\w\a.b.log".to_vec()]);
    assert_eq!(paths.fls, [br"C:\w\out\a.b.fls".to_vec(), br"C:\w\a.b.fls".to_vec()]);
    assert_eq!(
        paths.synctex,
        [
            br"C:\w\out\a.b.synctex.gz".to_vec(),
            br"C:\w\out\a.b.synctex".to_vec(),
            br"C:\w\a.b.synctex.gz".to_vec(),
            br"C:\w\a.b.synctex".to_vec(),
        ]
    );
    let nothing = ArtifactPaths::new(&TexInvocation::parse(&[], br"C:\w"));
    assert!(nothing.logs.is_empty() && nothing.fls.is_empty() && nothing.synctex.is_empty());
}

#[test]
fn a_job_name_may_hold_dots() {
    let mut invocation = TexInvocation::parse(&["-jobname=my.doc".to_string()], b"out");
    let paths = ArtifactPaths::new(&invocation);
    assert_eq!(paths.logs, [br"out\my.doc.log".to_vec()]);
    assert_eq!(paths.fls, [br"out\my.doc.fls".to_vec()]);
    assert_eq!(
        paths.synctex,
        [br"out\my.doc.synctex.gz".to_vec(), br"out\my.doc.synctex".to_vec()]
    );
    invocation.base = Some(b"a".to_vec());
    assert_eq!(ArtifactPaths::new(&invocation).logs, [br"out\a.log".to_vec()]);
}

#[test]
fn only_fresh_files_count_as_changed() {
    let paths = ArtifactPaths {
        logs: vec![b"a".to_vec(), b"b".to_vec(), b"c".to_vec(), b"d".to_vec(), b"e".to_vec()],
        fls: vec![b"f".to_vec(), b"g".to_vec()],
        synctex: vec![],
    };
    let before = [seen(1, 1), seen(1, 1), seen(1, 1), None, seen(1, 1)];
    let artifacts = Artifacts::snapshot(&paths, &before, &[None, None], &[]);
    let after = [seen(1, 1), seen(2, 1), seen(1, 2), seen(0, 0), None];
    let changed: Vec<_> = artifacts
        .changed(&artifacts.logs, &after)
        .iter()
        .map(|file| file.path.clone())
        .collect();
    assert_eq!(changed, [b"b".to_vec(), b"c".to_vec(), b"d".to_vec()]);
    let directory = Some(Observation { is_file: false, length: 0, modified: None });
    let existing = artifacts.existing(&artifacts.fls, &[directory, seen(3, 3)]);
    assert_eq!(existing.len(), 1);
    assert_eq!(existing[0].path, b"g");
}

#[test]
fn a_fingerprint_is_a_length_and_a_time() {
    let file = WatchedFile::new(b"x".to_vec(), seen(5, 7));
    assert_eq!(file.before, Some(Fingerprint { length: 5, modified: Some(7) }));
    assert!(!file.changed(seen(5, 7)));
    assert!(file.changed(Some(Observation { is_file: true, length: 5, modified: None })));
    assert!(!file.changed(None));
    assert!(WatchedFile::new(b"x".to_vec(), None).changed(seen(5, 7)));
    assert!(file.is_present(seen(1, 1)));
    assert!(!file.is_present(None));
    assert_eq!(Fingerprint::read(None), None);
}

#[test]
fn compressed_files_are_read_and_written() {
    let text = b"SyncTeX Version:1\n".to_vec();
    let packed = gzip(&text);
    let (contents, compressed) = match read_synctex(br"C:\w\a.synctex.gz", packed.clone()) {
        Ok(read) => read,
        Err(_) => panic!("could not read"),
    };
    assert_eq!(contents, text);
    assert!(compressed);
    let written = match write_synctex(text.clone(), true) {
        Ok(file) => file,
        Err(_) => panic!("could not write"),
    };
    assert_ne!(written, text);
    assert_eq!(written, packed);
    assert_eq!(gunzip(&written), text);
}

#[test]
fn plain_files_are_read_and_written_as_they_are() {
    let packed = gzip(b"x");
    let (contents, compressed) = match read_synctex(br"C:\w\a.synctex", packed.clone()) {
        Ok(read) => read,
        Err(_) => panic!("could not read"),
    };
    assert_eq!(contents, packed);
    assert!(!compressed);
    assert_eq!(write_synctex(b"y".to_vec(), false).ok(), Some(b"y".to_vec()));
}

#[test]
fn damaged_files_are_refused() {
    let mut packed = gzip(b"some contents that are long enough");
    let last = packed.len() - 1;
    packed[last] ^= 1;
    assert!(matches!(read_synctex(b"a.gz", packed), Err(GzipError::Read(_))));
    assert!(matches!(read_synctex(b"a.gz", b"plain".to_vec()), Err(GzipError::Read(_))));
    assert!(matches!(read_synctex(b"a.gz", Vec::new()), Err(GzipError::Read(_))));
}

fn watched(path: &str) -> WatchedFile {
    WatchedFile::new(path.as_bytes().to_vec(), None)
}

#[test]
fn nothing_is_done_where_nothing_was_written() {
    let file = watched("a");
    assert!(matches!(postprocess(&[], &[&file], &[]).task(&mapper()), Task::Done));
    assert!(matches!(postprocess(&[&file], &[], &[]).task(&mapper()), Task::Convert(_)));
    assert!(matches!(postprocess(&[], &[], &[&file]).task(&mapper()), Task::ReadSynctex(_)));
}

#[test]
fn paths_are_gathered_in_order_and_replaced() {
    let (log, other_log) = (watched("a.log"), watched("b.log"));
    let (fls, other_fls) = (watched("a.fls"), watched("b.fls"));
    let (packed, damaged) = (watched("a.synctex.gz"), watched("b.synctex.gz"));
    let mut mapper = mapper();
    let mut work = postprocess(&[&log, &other_log], &[&fls, &other_fls], &[&packed, &damaged]);

    assert!(matches!(work.task(&mapper), Task::ReadFls(path) if path == b"a.fls"));
    work.fls_read(Some(b"PWD /w\nINPUT /usr/x.sty\r\nOUTPUT a.pdf\nOUTPUT /w/a.log\n"));
    assert!(matches!(work.task(&mapper), Task::ReadFls(path) if path == b"b.fls"));
    work.fls_read(None);

    let synctex = b"SyncTeX Version:1\nInput:1:/cygdrive/c/a b.tex\r\nInput:2:/usr/x.sty\nOutput:pdf\n";
    assert!(matches!(work.task(&mapper), Task::ReadSynctex(path) if path == b"a.synctex.gz"));
    assert!(work.synctex_read(Some(gzip(synctex))).is_none());
    assert!(matches!(work.task(&mapper), Task::ReadSynctex(path) if path == b"b.synctex.gz"));
    assert!(matches!(work.synctex_read(Some(b"?".to_vec())), Some(GzipError::Read(_))));

    let run = match work.task(&mapper) {
        Task::Convert(Some(run)) => run,
        _ => panic!("paths are to be converted"),
    };
    assert_eq!(run.arguments, ["-m", "-f", "-"]);
    assert_eq!(run.input, b"/usr/x.sty\n/w/a.log\n");
    assert_eq!(run.expected, 2);
    work.converted(&mut mapper, Some(vec![b"C:/x.sty".to_vec(), b"W:/a.log".to_vec()]));
    assert_eq!(mapper.paths().get(b"/usr/x.sty"), Some(&b"C:/x.sty".to_vec()));

    assert!(matches!(work.task(&mapper), Task::ReadLog(path) if path == b"a.log"));
    work.log_read(&mapper, Some(b"(/usr/x.sty)\n"));
    match work.task(&mapper) {
        Task::Replace(path, contents) => {
            assert_eq!(path, b"a.log");
            assert_eq!(contents, b"(C:/x.sty)\n");
        }
        _ => panic!("the log is to be replaced"),
    }
    work.file_replaced(&mapper, true);
    assert!(matches!(work.task(&mapper), Task::ReadLog(path) if path == b"b.log"));
    work.log_read(&mapper, Some(b"nothing known\n"));

    match work.task(&mapper) {
        Task::Replace(path, contents) => {
            assert_eq!(path, b"a.synctex.gz");
            let rewritten = gunzip(&contents);
            assert_eq!(
                rewritten,
                b"SyncTeX Version:1\nInput:1:C:/a b.tex\r\nInput:2:C:/x.sty\nOutput:pdf\n"
            );
            assert!(paths_from_synctex(&rewritten).is_empty());
        }
        _ => panic!("the SyncTeX file is to be replaced"),
    }
    work.file_replaced(&mapper, true);
    assert!(matches!(work.task(&mapper), Task::Done));
    assert!(work.into_error().is_none());
}

#[test]
fn a_failure_ends_postprocessing() {
    let (log, packed) = (watched("a.log"), watched("a.synctex"));
    let mut mapper = mapper();

    let mut work = postprocess(&[&log], &[], &[]);
    work.converted(&mut mapper, None);
    assert!(matches!(work.task(&mapper), Task::Failed));
    work.log_read(&mapper, Some(b"/cygdrive/c/a b.tex"));
    assert!(matches!(work.task(&mapper), Task::Failed));

    let mut work = postprocess(&[&log], &[], &[]);
    work.converted(&mut mapper, Some(Vec::new()));
    work.log_read(&mapper, None);
    assert!(matches!(work.task(&mapper), Task::Failed));

    let mut work = postprocess(&[], &[], &[&packed]);
    assert!(work.synctex_read(Some(b"Input:1:/cygdrive/c/a b.tex\n".to_vec())).is_none());
    assert!(matches!(work.task(&mapper), Task::Convert(None)));
    work.converted(&mut mapper, Some(Vec::new()));
    assert!(matches!(
        work.task(&mapper),
        Task::Replace(_, contents) if contents == b"Input:1:C:/a b.tex\n"
    ));
    work.file_replaced(&mapper, false);
    assert!(matches!(work.task(&mapper), Task::Failed));
    assert!(work.into_error().is_none());
}

#[test]
fn files_without_known_paths_are_left_alone() {
    let mapper = mapper();
    assert!(rewrite_log(b"(/usr/x.sty)\n", &mapper).is_none());
    assert_eq!(rewrite_log(b"(/cygdrive/c/a b.tex)\n", &mapper), Some(b"(C:/a b.tex)\n".to_vec()));
    let file = SynctexFile {
        path: b"a.synctex".to_vec(),
        contents: b"Input:1:/usr/x.sty\n/cygdrive/c/a b.tex\n".to_vec(),
        compressed: false,
    };
    assert!(matches!(file.rewrite(&mapper), Ok(None)));
}

#[test]
fn a_failed_conversion_changes_nothing_of_what_is_known() {
    let log = watched("a.log");
    let mut mapper = mapper();
    let before = mapper.ordered_paths().to_vec();
    let mut work = postprocess(&[&log], &[], &[]);
    work.converted(&mut mapper, None);
    assert_eq!(mapper.ordered_paths(), before);
    let mut work = postprocess(&[&log], &[], &[]);
    work.converted(&mut mapper, Some(Vec::new()));
    assert_eq!(mapper.ordered_paths(), before);
}

#[test]
fn a_native_form_may_end_in_a_carriage_return() {
    let mapper = PathMapper::new(vec!["C:/a\r".to_string()], vec![b"/a".to_vec()]);
    let file = SynctexFile {
        path: b"a.synctex".to_vec(),
        contents: b"Input:1:/a\r\nInput:2:/a\nInput:3:/a".to_vec(),
        compressed: false,
    };
    match file.rewrite(&mapper) {
        Ok(Some(rewritten)) => {
            assert_eq!(rewritten, b"Input:1:C:/a\r\r\nInput:2:C:/a\r\nInput:3:C:/a\r");
            assert!(paths_from_synctex(&rewritten).is_empty());
        }
        _ => panic!("the file was not rewritten"),
    }
}

#[test]
fn a_synctex_path_may_hold_colons() {
    assert_eq!(synctex_path(b"Input:12:/a:b.tex\r"), Some(b"/a:b.tex".as_slice()));
    assert_eq!(synctex_path(b"Input:1:"), Some(b"".as_slice()));
    assert_eq!(synctex_path(b"Input:1"), None);
    assert_eq!(synctex_path(b" Input:1:/a"), None);
}

fn failed() -> Outcome {
    Outcome::Failed(std::io::Error::other("failed"))
}

fn taken() -> Outcome {
    Outcome::AlreadyExists(std::io::Error::other("taken"))
}

#[test]
fn temporary_names_have_two_numbers() {
    assert_eq!(temporary_path(br"C:\a.log", 1234, 0), br"C:\a.log.cygshim.1234.0");
    assert_eq!(
        temporary_path(b"a", u32::MAX, 10),
        b"a.cygshim.4294967295.10"
    );
}

#[test]
fn temporary_files_are_beside_what_they_replace() {
    for path in [r"C:\a b\c.log", "c.log", r"\\server\share\x", "./x.y", r"C:x"] {
        let temporary = temporary_path(path.as_bytes(), 7, 0);
        assert_eq!(parent(&temporary), parent(path.as_bytes()), "{path}");
        assert_ne!(temporary, temporary_path(path.as_bytes(), 7, 1));
    }
}

#[test]
fn a_replacement_goes_step_by_step() {
    let mut replacement = replace_file(b"a.log".to_vec(), 7);
    assert_eq!(replacement.stage, Stage::ReadPermissions);
    replacement.advance(Outcome::Succeeded);
    assert_eq!(replacement.stage, Stage::Create);
    assert_eq!(replacement.temporary(), b"a.log.cygshim.7.0");
    replacement.advance(taken());
    assert_eq!(replacement.stage, Stage::Create);
    assert_eq!(replacement.temporary(), b"a.log.cygshim.7.1");
    for stage in [Stage::Write, Stage::SetPermissions, Stage::Move, Stage::Done] {
        assert!(!replacement.exhausted());
        replacement.advance(Outcome::Succeeded);
        assert_eq!(replacement.stage, stage);
    }
    assert!(replacement.error.is_none());
}

#[test]
fn a_failure_removes_the_temporary_file() {
    for steps in 2..5 {
        let mut replacement = replace_file(b"a.log".to_vec(), 7);
        for _ in 0..steps {
            replacement.advance(Outcome::Succeeded);
        }
        replacement.advance(failed());
        assert_eq!(replacement.stage, Stage::Remove);
        replacement.advance(Outcome::Failed(std::io::Error::other("second")));
        assert_eq!(replacement.stage, Stage::Failed);
        assert_eq!(replacement.error.unwrap().to_string(), "failed");
    }
    let mut replacement = replace_file(b"a.log".to_vec(), 7);
    replacement.advance(Outcome::Succeeded);
    replacement.advance(failed());
    assert_eq!(replacement.stage, Stage::Failed);
}

#[test]
fn nothing_is_created_without_the_permissions() {
    for outcome in [failed(), taken()] {
        let mut replacement = replace_file(b"a.log".to_vec(), 7);
        let expected = match &outcome {
            Outcome::AlreadyExists(_) => "taken",
            _ => "failed",
        };
        replacement.advance(outcome);
        assert_eq!(replacement.stage, Stage::Failed);
        replacement.advance(Outcome::Succeeded);
        assert_eq!(replacement.stage, Stage::Failed);
        assert_eq!(replacement.error.unwrap().to_string(), expected);
    }
}

#[test]
fn a_name_is_only_taken_while_a_file_is_created() {
    let mut replacement = replace_file(b"a.log".to_vec(), 7);
    replacement.advance(Outcome::Succeeded);
    replacement.advance(Outcome::Succeeded);
    replacement.advance(taken());
    assert_eq!(replacement.stage, Stage::Remove);
    assert_eq!(replacement.error.unwrap().to_string(), "taken");
}
