//! From the lines of a log to the files in the output directory.
use std::collections::{BTreeMap, HashMap};
use std::path::{Path, PathBuf};

use replayfs::blobs::{blob_path, name_content};
use replayfs::log::{LogEntry, LogRow, LogWriter, Operation};
use replayfs::materialize::{
    BlobWrite, Clearing, EntryPlan, Source, WriteStep, clearing, ensure_dir, materialize_all,
    materialize_entry, write_blob,
};
use replayfs::replay::{
    FileState, Finish, Limits, LogLine, ROOT_MANIFEST, ReplayError, Replayer, Step, Work,
    apply_entry, check_header, log_line, replay,
};
use replayfs::text_map::TextMap;

const OUTPUT: &str = "/out";
const BLOBS: &str = "/data/blobs";

fn no_limits() -> Limits {
    Limits { until_seq: None, until_ms: None, realtime: false }
}

fn header(schema_version: u64) -> LogLine {
    LogLine::Row(LogRow::Header { schema_version, watch_dir: "/tmp/test".to_string() })
}

fn entry(seq: u64, elapsed_ms: u64, op: Operation, path: &str) -> LogEntry {
    LogEntry {
        seq,
        elapsed_ms,
        op,
        path: path.to_string(),
        dest_path: None,
        content_hash: None,
        size: None,
    }
}

fn written(seq: u64, elapsed_ms: u64, op: Operation, path: &str, hash: &str, size: u64) -> LogEntry {
    LogEntry {
        content_hash: Some(hash.to_string()),
        size: Some(size),
        ..entry(seq, elapsed_ms, op, path)
    }
}

fn renamed(seq: u64, elapsed_ms: u64, path: &str, dest: &str) -> LogEntry {
    LogEntry {
        dest_path: Some(dest.to_string()),
        ..entry(seq, elapsed_ms, Operation::Rename, path)
    }
}

fn log(entries: Vec<LogEntry>) -> Vec<LogLine> {
    let mut lines = vec![header(1)];
    lines.extend(entries.into_iter().map(|e| LogLine::Row(LogRow::Event(e))));
    lines
}

/// The blobs by their paths.
type Blobs = HashMap<PathBuf, Vec<u8>>;

/// The files of the output directory, by their paths.
type Files = BTreeMap<PathBuf, Vec<u8>>;

/// Puts a content into the blob store, and names it.
fn keep(blobs: &mut Blobs, content: &[u8]) -> String {
    let hash = name_content(content);
    blobs.insert(blob_path(Path::new(BLOBS), &hash).unwrap(), content.to_vec());
    hash
}

/// Writes one file.
fn write(files: &mut Files, blobs: &Blobs, step: &WriteStep) {
    if let Some(dir) = &step.parent {
        for prefix in ensure_dir(dir) {
            files.remove(prefix);
        }
    }
    let path = match &step.source {
        Source::Blob { path, .. } => path.clone(),
        _ => return,
    };
    let below = |p: &PathBuf| *p != step.out_path && p.starts_with(&step.out_path);
    let is_dir = files.keys().any(below);
    let exists = is_dir || files.contains_key(&step.out_path);
    match write_blob(step, blobs.contains_key(&path), is_dir, exists) {
        BlobWrite::Copy { clearing } => {
            assert_eq!(clearing == Clearing::Nothing, !exists);
            files.retain(|p, _| !p.starts_with(&step.out_path));
            files.insert(step.out_path.clone(), blobs[&path].clone());
        }
        BlobWrite::Missing { .. } | BlobWrite::Nothing => {}
        BlobWrite::Unfileable => panic!("a blob without a name"),
    }
}

/// Replays a log into an output directory.
fn run(lines: &Vec<LogLine>, limits: Limits, blobs: &Blobs) -> Files {
    let replayer = match replay(lines, limits) {
        Ok(replayer) => replayer,
        Err(error) => panic!("{}", error.message()),
    };
    let mut files = Files::new();
    for step in materialize_all(replayer.files(), Path::new(OUTPUT), Path::new(BLOBS)) {
        write(&mut files, blobs, &step);
    }
    files
}

/// Replays a log into an output directory, entry by entry; returns the waits too.
fn run_paced(lines: &[LogLine], blobs: &Blobs) -> (Files, Vec<u64>) {
    let mut replayer = Replayer::new(Limits { until_seq: None, until_ms: None, realtime: true });
    let mut files = Files::new();
    let mut waits = Vec::new();
    for line in &lines[1..] {
        match replayer.step(line) {
            Step::Skip => continue,
            Step::Stop => break,
            Step::Fail(error) => panic!("{}", error.message()),
            Step::Apply { wait_ms } => waits.push(wait_ms),
        }
        let entry = match line {
            LogLine::Row(LogRow::Event(entry)) => entry,
            _ => panic!("nothing was to be applied"),
        };
        match materialize_entry(entry, replayer.files(), Path::new(OUTPUT), Path::new(BLOBS)) {
            EntryPlan::Write(step) => write(&mut files, blobs, &step),
            EntryPlan::Remove { out_path } => files.retain(|p, _| !p.starts_with(&out_path)),
            EntryPlan::Move { from_path, to } => match files.remove(&from_path) {
                Some(content) => {
                    files.insert(to.out_path.clone(), content);
                }
                None => write(&mut files, blobs, &to),
            },
            EntryPlan::Nothing => {}
        }
    }
    (files, waits)
}

fn out(path: &str) -> PathBuf {
    Path::new(OUTPUT).join(path)
}

fn hash_of(files: &TextMap<FileState>, path: &str) -> Option<Option<String>> {
    files.get(path).map(|file| file.content_hash.clone())
}

#[test]
fn end_to_end_replay_creates_files() {
    let mut blobs = Blobs::new();
    let h1 = keep(&mut blobs, b"hello world");
    let h2 = keep(&mut blobs, b"updated content");

    let lines = log(vec![
        written(1, 10, Operation::Create, "a.txt", &h1, 11),
        written(2, 20, Operation::Create, "sub/b.txt", &h2, 15),
    ]);
    let files = run(&lines, no_limits(), &blobs);

    assert_eq!(files[&out("a.txt")], b"hello world");
    assert_eq!(files[&out("sub/b.txt")], b"updated content");
}

#[test]
fn replay_handles_modify_and_delete() {
    let mut blobs = Blobs::new();
    let h1 = keep(&mut blobs, b"version 1");
    let h2 = keep(&mut blobs, b"version 2");

    let lines = log(vec![
        written(1, 10, Operation::Create, "file.txt", &h1, 9),
        written(2, 20, Operation::Modify, "file.txt", &h2, 9),
        LogEntry { size: Some(0), ..entry(3, 30, Operation::Create, "temp.txt") },
        entry(4, 40, Operation::Delete, "temp.txt"),
    ]);
    let files = run(&lines, no_limits(), &blobs);

    // file.txt should have version 2
    assert_eq!(files[&out("file.txt")], b"version 2");
    // temp.txt should not exist (was deleted)
    assert!(!files.contains_key(&out("temp.txt")));
}

#[test]
fn replay_handles_rename() {
    let mut blobs = Blobs::new();
    let h1 = keep(&mut blobs, b"content");

    let lines = log(vec![
        written(1, 10, Operation::Create, "old.txt", &h1, 7),
        renamed(2, 20, "old.txt", "new.txt"),
    ]);
    let files = run(&lines, no_limits(), &blobs);

    assert!(!files.contains_key(&out("old.txt")));
    assert_eq!(files[&out("new.txt")], b"content");
}

#[test]
fn replay_until_seq_stops_early() {
    let mut blobs = Blobs::new();
    let h1 = keep(&mut blobs, b"first");
    let h2 = keep(&mut blobs, b"second");

    let lines = log(vec![
        written(1, 10, Operation::Create, "a.txt", &h1, 5),
        written(2, 20, Operation::Create, "b.txt", &h2, 6),
    ]);
    let limits = Limits { until_seq: Some(1), until_ms: None, realtime: false };
    let files = run(&lines, limits, &blobs);

    assert!(files.contains_key(&out("a.txt")));
    assert!(!files.contains_key(&out("b.txt"))); // seq 2 was not applied
}

#[test]
fn replay_rejects_future_schema_version() {
    let lines = vec![header(99)];
    let error = match replay(&lines, no_limits()) {
        Err(error) => error,
        Ok(_) => panic!("the log was replayed"),
    };
    let said = error.message();
    assert!(said.contains("schema version") || said.contains("unsupported"));
    assert_eq!(
        said,
        "unsupported log schema version 99 (this version of replayfs supports up to version 1)"
    );
}

#[test]
fn replay_until_ms_stops_early() {
    let lines = log(vec![
        entry(1, 10, Operation::Create, "a"),
        entry(2, 20, Operation::Create, "b"),
        entry(3, 21, Operation::Create, "c"),
    ]);
    let limits = Limits { until_seq: None, until_ms: Some(20), realtime: false };
    match replay(&lines, limits) {
        Ok(replayer) => {
            assert_eq!(replayer.count(), 2);
            assert!(replayer.files().get("b").is_some());
            assert!(replayer.files().get("c").is_none());
        }
        Err(_) => panic!("the log was refused"),
    }
}

#[test]
fn an_earlier_schema_is_replayed() {
    let banner = check_header(Some(&header(0)));
    assert_eq!(banner.ok(), Some("replaying log (schema v0, watched: /tmp/test)".to_string()));
    let banner = check_header(Some(&header(1)));
    assert_eq!(banner.ok(), Some("replaying log (schema v1, watched: /tmp/test)".to_string()));
}

#[test]
fn logs_that_cannot_be_replayed() {
    let said = |lines: Vec<LogLine>| match replay(&lines, no_limits()) {
        Err(error) => error.message(),
        Ok(_) => panic!("the log was replayed"),
    };
    assert_eq!(said(vec![]), "log file is empty");
    assert_eq!(said(vec![LogLine::Unreadable]), "failed to read header line");
    assert_eq!(said(vec![LogLine::Malformed]), "failed to parse log header");
    assert_eq!(said(vec![LogLine::Blank]), "failed to parse log header");
    let event = LogLine::Row(LogRow::Event(entry(1, 0, Operation::Create, "a")));
    assert_eq!(said(vec![event]), "expected header as first log line");
    assert_eq!(said(vec![header(1), LogLine::Unreadable]), "failed to read log line");
    assert_eq!(
        said(vec![header(1), LogLine::Blank, LogLine::Malformed]),
        "failed to parse log entry"
    );
}

#[test]
fn nothing_behind_the_end_counts() {
    let mut lines = log(vec![
        entry(1, 10, Operation::Create, "a"),
        entry(2, 20, Operation::Create, "b"),
    ]);
    lines.push(LogLine::Malformed);
    assert!(replay(&lines, no_limits()).is_err());
    let limits = Limits { until_seq: Some(1), until_ms: None, realtime: false };
    assert!(replay(&lines, limits).is_ok());
}

#[test]
fn blank_lines_and_later_headers_are_skipped() {
    let mut lines = log(vec![entry(1, 10, Operation::Create, "a")]);
    lines.push(LogLine::Blank);
    lines.push(header(7));
    lines.push(LogLine::Row(LogRow::Event(entry(1, 5, Operation::Create, "b"))));
    match replay(&lines, no_limits()) {
        Ok(replayer) => assert_eq!(replayer.count(), 2),
        Err(_) => panic!("the log was refused"),
    }
}

#[test]
fn lines_of_a_file() {
    let row = || LogRow::Event(entry(1, 0, Operation::Create, "a"));
    assert!(matches!(log_line(None, None), LogLine::Unreadable));
    assert!(matches!(log_line(Some(" \t\r"), None), LogLine::Blank));
    assert!(matches!(log_line(Some(""), None), LogLine::Blank));
    assert!(matches!(log_line(Some("{"), None), LogLine::Malformed));
    assert!(matches!(log_line(Some("{..}"), Some(row())), LogLine::Row(LogRow::Event(_))));
}

#[test]
fn what_was_recorded_is_replayed() {
    let (mut writer, first) = LogWriter::create(Path::new("/tmp/test"));
    let mut lines = vec![LogLine::Row(first)];
    for name in ["a", "b", "c"] {
        let row = writer.append(5, Operation::Create, name.into(), None, None, None);
        lines.push(LogLine::Row(row));
    }
    for n in 0u64..5 {
        let limits = Limits { until_seq: Some(n), until_ms: None, realtime: false };
        match replay(&lines, limits) {
            Ok(replayer) => assert_eq!(replayer.count(), n.min(3)),
            Err(_) => panic!("the log was refused"),
        }
    }
}

#[test]
fn entries_change_the_tree() {
    let mut files: TextMap<FileState> = TextMap::new();
    apply_entry(&mut files, &written(1, 0, Operation::Create, "a", "h1", 1));
    apply_entry(&mut files, &written(2, 0, Operation::Create, "b", "h2", 1));
    assert_eq!(hash_of(&files, "a"), Some(Some("h1".to_string())));

    // The last write wins.
    apply_entry(&mut files, &written(3, 0, Operation::Modify, "a", "h3", 1));
    assert_eq!(hash_of(&files, "a"), Some(Some("h3".to_string())));
    assert_eq!(hash_of(&files, "b"), Some(Some("h2".to_string())));

    // A rename takes the content along, over whatever was there.
    apply_entry(&mut files, &renamed(4, 0, "a", "b"));
    assert_eq!(hash_of(&files, "a"), None);
    assert_eq!(hash_of(&files, "b"), Some(Some("h3".to_string())));

    // Renaming back undoes it.
    apply_entry(&mut files, &renamed(5, 0, "b", "a"));
    assert_eq!(hash_of(&files, "a"), Some(Some("h3".to_string())));
    assert_eq!(hash_of(&files, "b"), None);

    // A rename with a snapshot of its own has that content.
    let fresh = LogEntry { content_hash: Some("h4".to_string()), ..renamed(6, 0, "a", "c") };
    apply_entry(&mut files, &fresh);
    assert_eq!(hash_of(&files, "c"), Some(Some("h4".to_string())));

    // A rename of something unknown makes a path without content.
    apply_entry(&mut files, &renamed(7, 0, "nowhere", "d"));
    assert_eq!(hash_of(&files, "d"), Some(None));

    // A rename without a destination, and an installation, do nothing.
    apply_entry(&mut files, &entry(8, 0, Operation::Rename, "c"));
    apply_entry(&mut files, &entry(9, 0, Operation::Install, "c"));
    assert_eq!(hash_of(&files, "c"), Some(Some("h4".to_string())));

    // Deleting twice is deleting once.
    apply_entry(&mut files, &entry(10, 0, Operation::Delete, "c"));
    apply_entry(&mut files, &entry(11, 0, Operation::Delete, "c"));
    assert_eq!(hash_of(&files, "c"), None);
    assert_eq!(files.len(), 1);
}

#[test]
fn deleting_undoes_creating() {
    let mut files: TextMap<FileState> = TextMap::new();
    apply_entry(&mut files, &entry(1, 0, Operation::Create, "a"));
    apply_entry(&mut files, &entry(2, 0, Operation::Create, "b"));
    apply_entry(&mut files, &entry(3, 0, Operation::Delete, "b"));
    assert_eq!(files.len(), 1);
    assert_eq!(files.key(0), "a");
}

#[test]
fn installations_are_remembered() {
    let mut replayer = Replayer::new(no_limits());
    assert!(!replayer.needs_install());
    let line = LogLine::Row(LogRow::Event(entry(1, 0, Operation::Install, "package.json")));
    assert!(matches!(replayer.step(&line), Step::Apply { wait_ms: 0 }));
    assert!(replayer.needs_install());
    assert_eq!(replayer.count(), 1);
}

#[test]
fn the_pace_of_the_recording_is_kept() {
    let mut blobs = Blobs::new();
    let h = keep(&mut blobs, b"x");
    let lines = log(vec![
        written(1, 100, Operation::Create, "a", &h, 1),
        written(2, 350, Operation::Create, "b", &h, 1),
        written(3, 350, Operation::Create, "c", &h, 1),
        written(4, 300, Operation::Create, "d", &h, 1),
        written(5, 1000, Operation::Create, "e", &h, 1),
    ]);
    let (_, waits) = run_paced(&lines, &blobs);
    assert_eq!(waits, vec![0, 250, 0, 0, 700]);
}

#[test]
fn both_ways_lead_to_the_same_files() {
    let mut blobs = Blobs::new();
    let h1 = keep(&mut blobs, b"one");
    let h2 = keep(&mut blobs, b"two");
    let lines = log(vec![
        entry(1, 1, Operation::Create, "sub"),
        written(2, 2, Operation::Create, "sub/a", &h1, 3),
        written(3, 3, Operation::Create, "b", &h1, 3),
        written(4, 4, Operation::Modify, "b", &h2, 3),
        renamed(5, 5, "b", "sub/deep/c"),
        written(6, 6, Operation::Create, "gone", &h1, 3),
        entry(7, 7, Operation::Delete, "gone"),
        entry(8, 8, Operation::Install, "package.json"),
    ]);
    let at_once = run(&lines, no_limits(), &blobs);
    let (paced, _) = run_paced(&lines, &blobs);
    assert_eq!(at_once, paced);
    assert_eq!(at_once[&out("sub/a")], b"one");
    assert_eq!(at_once[&out("sub/deep/c")], b"two");
    assert_eq!(at_once.len(), 2);
}

#[test]
fn a_modify_without_a_content_is_where_the_pace_shows() {
    let mut blobs = Blobs::new();
    let h = keep(&mut blobs, b"x");
    let lines = log(vec![
        written(1, 1, Operation::Create, "a", &h, 1),
        entry(2, 2, Operation::Modify, "a"),
    ]);
    assert!(run(&lines, no_limits(), &blobs).is_empty());
    let (paced, _) = run_paced(&lines, &blobs);
    assert_eq!(paced[&out("a")], b"x");
}

#[test]
fn later_paths_may_need_a_directory_where_a_file_was() {
    let mut blobs = Blobs::new();
    let h = keep(&mut blobs, b"x");
    let lines = log(vec![
        written(1, 1, Operation::Create, "a", &h, 1),
        written(2, 2, Operation::Create, "a/b", &h, 1),
    ]);
    let files = run(&lines, no_limits(), &blobs);
    assert!(!files.contains_key(&out("a")));
    assert!(files.contains_key(&out("a/b")));
}

#[test]
fn write_steps_in_text_order() {
    let mut files: TextMap<FileState> = TextMap::new();
    for name in ["b", "sub/x", "a", "B"] {
        apply_entry(&mut files, &entry(1, 0, Operation::Create, name));
    }
    apply_entry(&mut files, &written(2, 0, Operation::Create, "a", "abcd", 1));
    apply_entry(&mut files, &written(3, 0, Operation::Create, "b", "x", 1));
    let steps = materialize_all(&files, Path::new("/out"), Path::new("/blobs"));
    let paths: Vec<&str> = steps.iter().map(|s| s.rel_path.as_str()).collect();
    assert_eq!(paths, vec!["B", "a", "b", "sub/x"]);
    assert!(matches!(&steps[0].source, Source::NoSnapshot));
    match &steps[1].source {
        Source::Blob { hash, path } => {
            assert_eq!(hash, "abcd");
            assert_eq!(path, Path::new("/blobs/ab/abcd"));
        }
        _ => panic!("expected a blob"),
    }
    assert!(matches!(&steps[2].source, Source::Unfileable { .. }));
    assert_eq!(steps[3].out_path, Path::new("/out/sub/x"));
    assert_eq!(steps[3].parent.as_deref(), Some(Path::new("/out/sub")));
}

#[test]
fn plans_for_entries() {
    let mut files: TextMap<FileState> = TextMap::new();
    apply_entry(&mut files, &written(1, 0, Operation::Create, "a", "abcd", 1));
    let plan = |e: &LogEntry| materialize_entry(e, &files, Path::new("/o"), Path::new("/b"));

    match plan(&written(1, 0, Operation::Modify, "a", "abcd", 1)) {
        EntryPlan::Write(step) => assert_eq!(step.out_path, Path::new("/o/a")),
        _ => panic!("expected a write"),
    }
    match plan(&entry(2, 0, Operation::Delete, "x/y")) {
        EntryPlan::Remove { out_path } => assert_eq!(out_path, Path::new("/o/x/y")),
        _ => panic!("expected a removal"),
    }
    match plan(&renamed(3, 0, "old", "a")) {
        EntryPlan::Move { from_path, to } => {
            assert_eq!(from_path, Path::new("/o/old"));
            assert_eq!(to.out_path, Path::new("/o/a"));
            assert!(matches!(to.source, Source::Blob { .. }));
        }
        _ => panic!("expected a move"),
    }
    assert!(matches!(plan(&entry(4, 0, Operation::Rename, "a")), EntryPlan::Nothing));
    assert!(matches!(plan(&entry(5, 0, Operation::Install, "a")), EntryPlan::Nothing));
}

#[test]
fn blobs_that_are_missing_are_skipped() {
    let mut files: TextMap<FileState> = TextMap::new();
    apply_entry(&mut files, &written(1, 0, Operation::Create, "a", "abcd", 1));
    apply_entry(&mut files, &entry(2, 0, Operation::Create, "b"));
    apply_entry(&mut files, &written(3, 0, Operation::Create, "c", "", 1));
    let steps = materialize_all(&files, Path::new("/o"), Path::new("/b"));
    match write_blob(&steps[0], false, true, true) {
        BlobWrite::Missing { warning } => {
            assert_eq!(warning, "warning: blob missing for a (hash abcd), skipping")
        }
        _ => panic!("expected a warning"),
    }
    let cleared = |is_dir, exists| match write_blob(&steps[0], true, is_dir, exists) {
        BlobWrite::Copy { clearing } => clearing,
        _ => panic!("expected a copy"),
    };
    assert_eq!(cleared(false, false), Clearing::Nothing);
    assert_eq!(cleared(false, true), Clearing::File);
    assert_eq!(cleared(true, true), Clearing::Directory);
    assert!(matches!(write_blob(&steps[1], true, true, true), BlobWrite::Nothing));
    assert!(matches!(write_blob(&steps[2], true, true, true), BlobWrite::Unfileable));
}

#[test]
fn what_is_cleared() {
    assert_eq!(clearing(true, true), Clearing::Directory);
    assert_eq!(clearing(false, true), Clearing::File);
    assert_eq!(clearing(false, false), Clearing::Nothing);
}

#[test]
fn directories_from_the_outermost_inwards() {
    let paths = |p: &'static str| ensure_dir(Path::new(p));
    assert_eq!(
        paths("/a/b/c"),
        vec![Path::new("/"), Path::new("/a"), Path::new("/a/b"), Path::new("/a/b/c")]
    );
    assert_eq!(paths("a//b/"), vec![Path::new("a"), Path::new("a/b")]);
    assert_eq!(paths("./a"), vec![Path::new("."), Path::new("./a")]);
    assert_eq!(paths("../a"), vec![Path::new(".."), Path::new("../a")]);
    assert_eq!(paths("/"), vec![Path::new("/")]);
    assert_eq!(paths(""), Vec::<&Path>::new());
}

#[test]
fn directories_at_any_depth() {
    let deep = "d/".repeat(30_000);
    let paths = ensure_dir(Path::new(&deep));
    assert_eq!(paths.len(), 30_000);
    assert_eq!(paths[0], Path::new("d"));
    assert_eq!(paths[1], Path::new("d/d"));
}

#[test]
fn work_at_the_pace_of_the_recording() {
    let replayer = Replayer::new(Limits { until_seq: None, until_ms: None, realtime: true });
    let install = entry(1, 0, Operation::Install, "web/package.json");
    let create = entry(2, 0, Operation::Create, "a");
    assert_eq!(replayer.work_after(&install), Work { materialize: true, install: true });
    assert_eq!(replayer.work_after(&create), Work { materialize: true, install: false });
    assert_eq!(replayer.finish(), Finish { materialize_all: false, install_at_root: false });
}

#[test]
fn work_without_pauses() {
    let mut replayer = Replayer::new(no_limits());
    let install = entry(1, 0, Operation::Install, "web/package.json");
    assert_eq!(replayer.work_after(&install), Work { materialize: false, install: false });
    assert_eq!(replayer.finish(), Finish { materialize_all: true, install_at_root: false });
    assert!(matches!(
        replayer.step(&LogLine::Row(LogRow::Event(install))),
        Step::Apply { wait_ms: 0 }
    ));
    assert_eq!(replayer.finish(), Finish { materialize_all: true, install_at_root: true });
    assert_eq!(ROOT_MANIFEST, "package.json");
}

#[test]
fn errors_of_the_header() {
    assert!(matches!(check_header(None), Err(ReplayError::EmptyLog)));
    assert!(matches!(
        check_header(Some(&LogLine::Unreadable)),
        Err(ReplayError::HeaderUnreadable)
    ));
    assert!(matches!(check_header(Some(&header(2))), Err(ReplayError::Schema(_))));
}
