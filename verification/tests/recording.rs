//! Writing a log.
use std::path::Path;

use replayfs::config::{Config, DEFAULT_MAX_SNAPSHOT_SIZE, RawConfig};
use replayfs::log::{CURRENT_SCHEMA_VERSION, LogEntry, LogRow, LogWriter, Operation};
use replayfs::replay::{Limits, LogLine, replay};

#[test]
fn log_writer_creates_valid_ndjson() {
    let watch_dir = Path::new("/tmp/watched");

    let (mut writer, header) = LogWriter::create(watch_dir);
    let mut rows = vec![header];
    rows.push(writer.append(0, Operation::Create, "a.txt".into(), None, Some("hash1".into()), Some(10)));
    rows.push(writer.append(1, Operation::Delete, "b.txt".into(), None, None, None));
    rows.push(writer.append(2, Operation::Rename, "c.txt".into(), Some("d.txt".into()), None, None));

    assert_eq!(rows.len(), 4); // header + 3 events

    // Verify header
    match &rows[0] {
        LogRow::Header { schema_version, .. } => assert_eq!(*schema_version, 1),
        _ => panic!("first line should be header"),
    }

    // Verify events have incrementing seq
    for (i, row) in rows[1..].iter().enumerate() {
        match row {
            LogRow::Event(e) => assert_eq!(e.seq, (i + 1) as u64),
            _ => panic!("expected event"),
        }
    }
}

#[test]
fn the_header_names_the_watched_directory() {
    let (writer, header) = LogWriter::create(Path::new("/tmp/watched"));
    assert_eq!(writer.seq(), 0);
    match header {
        LogRow::Header { schema_version, watch_dir } => {
            assert_eq!(schema_version, CURRENT_SCHEMA_VERSION);
            assert_eq!(watch_dir, "/tmp/watched");
        }
        _ => panic!("expected header"),
    }
}

#[test]
fn entries_hold_what_was_appended() {
    let (mut writer, _) = LogWriter::create(Path::new("/w"));
    let row = writer.append(
        42,
        Operation::Rename,
        "a".into(),
        Some("b".into()),
        Some("hash".into()),
        Some(9),
    );
    assert_eq!(writer.seq(), 1);
    match row {
        LogRow::Event(e) => {
            assert_eq!(e.seq, 1);
            assert_eq!(e.elapsed_ms, 42);
            assert_eq!(e.op, Operation::Rename);
            assert_eq!(e.path, "a");
            assert_eq!(e.dest_path.as_deref(), Some("b"));
            assert_eq!(e.content_hash.as_deref(), Some("hash"));
            assert_eq!(e.size, Some(9));
        }
        _ => panic!("expected event"),
    }
}

/// Appends one entry, and returns its number.
fn append(writer: &mut LogWriter, lines: &mut Vec<LogLine>, path: &str) -> u64 {
    lines.push(LogLine::Row(writer.append(0, Operation::Create, path.into(), None, None, None)));
    writer.seq()
}

#[test]
fn numbers_go_on_after_a_restart() {
    let watch_dir = Path::new("/w");
    let (mut writer, header) = LogWriter::create(watch_dir);
    let mut lines = vec![LogLine::Row(header)];
    assert_eq!(append(&mut writer, &mut lines, "a"), 1);
    assert_eq!(append(&mut writer, &mut lines, "b"), 2);

    let (mut writer, header) = LogWriter::resume(&lines, watch_dir);
    match &header {
        LogRow::Header { schema_version, watch_dir } => {
            assert_eq!(*schema_version, CURRENT_SCHEMA_VERSION);
            assert_eq!(watch_dir, "/w");
        }
        _ => panic!("expected header"),
    }
    lines.push(LogLine::Row(header));
    assert_eq!(writer.seq(), 2);
    assert_eq!(append(&mut writer, &mut lines, "c"), 3);

    let (mut writer, header) = LogWriter::resume(&lines, watch_dir);
    lines.push(LogLine::Row(header));
    assert_eq!(append(&mut writer, &mut lines, "d"), 4);

    // A replay to a number sees that many entries, across the starts.
    for n in 0u64..6 {
        let limits = Limits { until_seq: Some(n), until_ms: None, realtime: false };
        match replay(&lines, limits) {
            Ok(replayer) => assert_eq!(replayer.count(), n.min(4)),
            Err(_) => panic!("the log was refused"),
        }
    }
}

#[test]
fn numbers_go_on_from_the_highest() {
    let entry = |seq| {
        LogLine::Row(LogRow::Event(LogEntry {
            seq,
            elapsed_ms: 0,
            op: Operation::Delete,
            path: "p".to_string(),
            dest_path: None,
            content_hash: None,
            size: None,
        }))
    };
    let last = |lines: Vec<LogLine>| LogWriter::resume(&lines, Path::new("/w")).0.seq();
    assert_eq!(last(vec![]), 0);
    assert_eq!(last(vec![LogLine::Blank, LogLine::Malformed, LogLine::Unreadable]), 0);
    assert_eq!(last(vec![entry(3), entry(7), LogLine::Malformed, entry(1)]), 7);
    assert_eq!(last(vec![entry(u64::MAX)]), u64::MAX);
}

#[test]
fn settings_have_defaults() {
    let raw = RawConfig {
        watch_dir: "project".into(),
        data_dir: None,
        max_snapshot_size: None,
        ignore: Vec::new(),
    };
    let config = Config::load(raw, "/home/me/project".into());
    assert_eq!(config.watch_dir, Path::new("/home/me/project"));
    assert_eq!(config.data_dir, Path::new("/home/me/project/.replayfs"));
    assert_eq!(config.max_snapshot_size, 104857600);
    assert_eq!(config.max_snapshot_size, DEFAULT_MAX_SNAPSHOT_SIZE);
    assert!(config.ignore.is_empty());
}

#[test]
fn settings_that_are_given_count() {
    let raw = RawConfig {
        watch_dir: ".".into(),
        data_dir: Some("data".into()),
        max_snapshot_size: Some(0),
        ignore: vec![".git".to_string(), "*.swp".to_string()],
    };
    let config = Config::load(raw, "/p".into());
    assert_eq!(config.watch_dir, Path::new("/p"));
    assert_eq!(config.data_dir, Path::new("data"));
    assert_eq!(config.max_snapshot_size, 0);
    assert_eq!(config.ignore, vec![".git".to_string(), "*.swp".to_string()]);
}
