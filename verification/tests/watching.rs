//! Which paths are recorded, and what an event records.
use std::path::{Path, PathBuf};

use globset::GlobSet;
use replayfs::daemon::watcher::{
    Change, EventKind, FsEvent, IgnoreError, ModifyKind, Received, RenameMode, RunStep, Sighting,
    build_ignore_set, changes_from, handle_event, pattern_forms, record_change, relative_path, run,
    should_ignore,
};
use replayfs::log::{LogRow, LogWriter, Operation};

fn ignore_set(patterns: &[&str]) -> GlobSet {
    let patterns: Vec<String> = patterns.iter().map(|s| s.to_string()).collect();
    match build_ignore_set(&patterns, Path::new("/unused")) {
        Ok(set) => set,
        Err(_) => panic!("patterns refused"),
    }
}

fn is_ignored(set: &GlobSet, path: &str) -> bool {
    let watch_dir = Path::new("/project");
    let data_dir = Path::new("/elsewhere");
    should_ignore(&watch_dir.join(path), watch_dir, data_dir, set)
}

#[test]
fn ignores_directory_and_contents() {
    let set = ignore_set(&[".next"]);

    assert!(is_ignored(&set, ".next"));
    assert!(is_ignored(&set, ".next/cache"));
    assert!(is_ignored(&set, ".next/cache/build/abc.js"));
    assert!(is_ignored(&set, "sub/.next"));
    assert!(is_ignored(&set, "sub/.next/cache"));

    assert!(!is_ignored(&set, "src/main.rs"));
    assert!(!is_ignored(&set, "next.config.js"));
}

#[test]
fn ignores_file_extension_pattern() {
    let set = ignore_set(&["*.swp"]);

    assert!(is_ignored(&set, "file.swp"));
    assert!(is_ignored(&set, "src/file.swp"));
    assert!(is_ignored(&set, "deep/nested/dir/file.swp"));

    assert!(!is_ignored(&set, "file.txt"));
    assert!(!is_ignored(&set, "swp"));
}

#[test]
fn ignores_multiple_patterns() {
    let set = ignore_set(&[".git", "node_modules", "*.tmp"]);

    assert!(is_ignored(&set, ".git/config"));
    assert!(is_ignored(&set, "node_modules/react/index.js"));
    assert!(is_ignored(&set, "src/draft.tmp"));

    assert!(!is_ignored(&set, "src/app.tsx"));
}

#[test]
fn should_ignore_filters_data_dir() {
    let set = ignore_set(&[]);
    let watch_dir = Path::new("/project");
    let data_dir = Path::new("/project/.replayfs");

    assert!(should_ignore(
        Path::new("/project/.replayfs/log.ndjson"),
        watch_dir,
        data_dir,
        &set
    ));
    assert!(!should_ignore(
        Path::new("/project/src/main.rs"),
        watch_dir,
        data_dir,
        &set
    ));
}

#[test]
fn paths_outside_the_watched_directory_are_ignored() {
    let set = ignore_set(&[]);
    let watch_dir = Path::new("/project");
    let data_dir = Path::new("/project/.replayfs");
    assert!(should_ignore(Path::new("/other/a.txt"), watch_dir, data_dir, &set));
    // A name that merely begins like the directory does not lie in it.
    assert!(should_ignore(Path::new("/projects/a.txt"), watch_dir, data_dir, &set));
    assert!(!should_ignore(Path::new("/project/.replayfs2"), watch_dir, data_dir, &set));
    assert!(should_ignore(Path::new("/project/.replayfs"), watch_dir, data_dir, &set));
}

#[test]
fn more_patterns_ignore_more() {
    let few = ignore_set(&["target"]);
    let many = ignore_set(&["target", "*.log"]);
    assert!(is_ignored(&few, "target/debug/x"));
    assert!(is_ignored(&many, "target/debug/x"));
    assert!(!is_ignored(&few, "run.log"));
    assert!(is_ignored(&many, "run.log"));
}

#[test]
fn a_bad_pattern_is_named() {
    let patterns = vec!["ok".to_string(), "[".to_string(), "a".to_string()];
    match build_ignore_set(&patterns, Path::new("/unused")) {
        Err(IgnoreError::InvalidPattern { pattern, .. }) => assert_eq!(pattern, "["),
        _ => panic!("expected the pattern to be refused"),
    }
}

#[test]
fn patterns_take_three_more_forms() {
    let forms = pattern_forms("target");
    assert_eq!(forms.anywhere, "**/target");
    assert_eq!(forms.inside, "target/**");
    assert_eq!(forms.inside_anywhere, "**/target/**");
}

#[test]
fn relative_paths() {
    let watch_dir = Path::new("/project");
    assert_eq!(
        relative_path(Path::new("/project/src/main.rs"), watch_dir).as_deref(),
        Some("src/main.rs")
    );
    assert_eq!(relative_path(Path::new("/project"), watch_dir).as_deref(), Some(""));
    assert_eq!(relative_path(Path::new("/elsewhere/x"), watch_dir), None);
    assert_eq!(relative_path(Path::new("/project2/a"), watch_dir), None);
}

#[test]
fn relative_paths_lead_back() {
    let watch_dir = Path::new("/home/me/project");
    for rel in ["a", "src/main.rs", "\u{e9}/\u{1f600}.txt", ".hidden", "a b/c"] {
        let path = watch_dir.join(rel);
        let text = relative_path(&path, watch_dir);
        assert_eq!(text.as_deref(), Some(rel));
        assert_eq!(watch_dir.join(text.unwrap()), path);
    }
    let odd = Path::new("/home/./me//project/x/./y/");
    let text = relative_path(odd, watch_dir).unwrap();
    assert!(!text.starts_with('/'));
    assert_eq!(watch_dir.join(text), odd);
    assert_eq!(relative_path(watch_dir, watch_dir).as_deref(), Some(""));
}

fn event(kind: EventKind, paths: &[&str]) -> FsEvent {
    FsEvent { kind, paths: paths.iter().map(PathBuf::from).collect() }
}

fn handle(kind: EventKind, paths: &[&str]) -> Vec<Change> {
    let set = ignore_set(&["*.swp"]);
    handle_event(
        &event(kind, paths),
        Path::new("/project"),
        Path::new("/project/.replayfs"),
        &set,
    )
}

#[test]
fn every_recorded_path_is_one_change() {
    let changes = handle(
        EventKind::Create,
        &["/project/a.txt", "/project/x.swp", "/project/.replayfs/log.ndjson", "/project/sub/b"],
    );
    assert_eq!(changes.len(), 2);
    assert_eq!(changes[0].op, Operation::Create);
    assert_eq!(changes[0].path, "a.txt");
    assert_eq!(changes[0].dest_path, None);
    assert_eq!(changes[0].source, 0);
    assert_eq!(changes[1].path, "sub/b");
    assert_eq!(changes[1].source, 3);
}

#[test]
fn kinds_of_events() {
    let path = ["/project/a"];
    let ops = |kind| handle(kind, &path).iter().map(|c| c.op).collect::<Vec<_>>();
    assert_eq!(ops(EventKind::Create), vec![Operation::Create]);
    assert_eq!(ops(EventKind::Remove), vec![Operation::Delete]);
    assert_eq!(ops(EventKind::Modify(ModifyKind::Data)), vec![Operation::Modify]);
    assert_eq!(
        ops(EventKind::Modify(ModifyKind::Name(RenameMode::Both))),
        vec![Operation::Rename]
    );
    assert_eq!(ops(EventKind::Modify(ModifyKind::Metadata)), vec![]);
    assert_eq!(ops(EventKind::Modify(ModifyKind::Any)), vec![]);
    assert_eq!(ops(EventKind::Modify(ModifyKind::Other)), vec![]);
    assert_eq!(ops(EventKind::Modify(ModifyKind::Name(RenameMode::From))), vec![]);
    assert_eq!(ops(EventKind::Modify(ModifyKind::Name(RenameMode::To))), vec![]);
    assert_eq!(ops(EventKind::Modify(ModifyKind::Name(RenameMode::Any))), vec![]);
    assert_eq!(ops(EventKind::Modify(ModifyKind::Name(RenameMode::Other))), vec![]);
    assert_eq!(ops(EventKind::Access), vec![]);
    assert_eq!(ops(EventKind::Any), vec![]);
    assert_eq!(ops(EventKind::Other), vec![]);
}

#[test]
fn renames_between_two_paths() {
    let both = EventKind::Modify(ModifyKind::Name(RenameMode::Both));

    let changes = handle(both, &["/project/old", "/project/new"]);
    assert_eq!(changes.len(), 1);
    assert_eq!(changes[0].op, Operation::Rename);
    assert_eq!(changes[0].path, "old");
    assert_eq!(changes[0].dest_path.as_deref(), Some("new"));

    // One ignored end is not enough to drop the rename, two are.
    let changes = handle(both, &["/project/.old.swp", "/project/new"]);
    assert_eq!(changes.len(), 1);
    assert_eq!(changes[0].path, ".old.swp");
    assert_eq!(handle(both, &["/project/a.swp", "/project/b.swp"]).len(), 0);

    // Neither end may lie outside.
    assert_eq!(handle(both, &["/elsewhere/old", "/project/new"]).len(), 0);
    assert_eq!(handle(both, &["/project/old", "/elsewhere/new"]).len(), 0);
}

#[test]
fn own_files_do_not_feed_back() {
    for kind in [
        EventKind::Create,
        EventKind::Remove,
        EventKind::Modify(ModifyKind::Data),
        EventKind::Modify(ModifyKind::Name(RenameMode::Both)),
    ] {
        let paths = ["/project/.replayfs/blobs/ab/x.tmp", "/project/.replayfs/blobs/ab/x"];
        assert_eq!(handle(kind, &paths).len(), 0);
    }
}

#[test]
fn changes_follow_the_sightings() {
    let seen = |ignored, rel: Option<&str>| Sighting { ignored, rel: rel.map(String::from) };
    let sightings = vec![
        seen(false, Some("a")),
        seen(true, Some("b")),
        seen(false, None),
        seen(false, Some("c")),
    ];
    let changes = changes_from(EventKind::Remove, &sightings);
    let paths: Vec<(&str, usize)> = changes.iter().map(|c| (c.path.as_str(), c.source)).collect();
    assert_eq!(paths, vec![("a", 0), ("c", 3)]);
    assert!(changes.iter().all(|c| c.op == Operation::Delete));
}

#[test]
fn only_creates_and_modifies_are_snapshotted() {
    let change = |op| Change { op, path: "p".to_string(), dest_path: None, source: 0 };
    assert!(change(Operation::Create).wants_snapshot());
    assert!(change(Operation::Modify).wants_snapshot());
    assert!(!change(Operation::Delete).wants_snapshot());
    assert!(!change(Operation::Rename).wants_snapshot());

    let (mut writer, _) = LogWriter::create(Path::new("/project"));
    let row = record_change(
        &mut writer,
        change(Operation::Create),
        7,
        Some(("abcdef".to_string(), 12)),
    );
    match row {
        LogRow::Event(entry) => {
            assert_eq!(entry.seq, 1);
            assert_eq!(entry.elapsed_ms, 7);
            assert_eq!(entry.content_hash.as_deref(), Some("abcdef"));
            assert_eq!(entry.size, Some(12));
        }
        _ => panic!("expected event"),
    }
    let row = record_change(&mut writer, change(Operation::Modify), 8, None);
    match row {
        LogRow::Event(entry) => {
            assert_eq!(entry.seq, 2);
            assert_eq!(entry.content_hash, None);
            assert_eq!(entry.size, None);
        }
        _ => panic!("expected event"),
    }
}

#[test]
fn turns_of_the_watch_loop() {
    assert_eq!(run(false, Received::Event), RunStep::Handle);
    assert_eq!(run(false, Received::WatcherError), RunStep::Report);
    assert_eq!(run(false, Received::Timeout), RunStep::Wait);
    assert_eq!(run(false, Received::Disconnected), RunStep::Leave);
}

#[test]
fn a_shutdown_ends_the_watch_loop() {
    for received in
        [Received::Event, Received::WatcherError, Received::Timeout, Received::Disconnected]
    {
        assert_eq!(run(true, received), RunStep::Leave);
    }
}
