//! What is shown while a log is replayed.
use replayfs::log::{LogEntry, Operation};
use replayfs::progress::{
    Countdown, format_duration, op_label, op_symbol, print_status, replay_report,
    sleep_with_countdown, total_events,
};

fn entry(op: Operation, dest: Option<&str>) -> LogEntry {
    LogEntry {
        seq: 3,
        elapsed_ms: 1500,
        op,
        path: "a.txt".to_string(),
        dest_path: dest.map(String::from),
        content_hash: None,
        size: None,
    }
}

#[test]
fn durations() {
    assert_eq!(format_duration(0), "0ms");
    assert_eq!(format_duration(999), "999ms");
    assert_eq!(format_duration(1000), "1.0s");
    assert_eq!(format_duration(1050), "1.1s");
    assert_eq!(format_duration(1250), "1.2s");
    assert_eq!(format_duration(59_949), "59.9s");
    assert_eq!(format_duration(59_999), "60.0s");
    assert_eq!(format_duration(60_000), "1m00s");
    assert_eq!(format_duration(61_999), "1m01s");
    assert_eq!(format_duration(3_599_999), "59m59s");
    assert_eq!(format_duration(3_600_000), "60m00s");
    assert_eq!(format_duration(u64::MAX), "307445734561825m51s");
}

#[test]
fn seconds_are_rounded_as_doubles_are() {
    for ms in 1000u64..60_000 {
        assert_eq!(format_duration(ms), format!("{:.1}s", ms as f64 / 1000.0));
    }
}

#[test]
fn signs_and_names_of_operations() {
    let all = [
        (Operation::Create, "+", "create"),
        (Operation::Modify, "~", "modify"),
        (Operation::Delete, "-", "delete"),
        (Operation::Rename, ">", "rename"),
        (Operation::Install, "*", "install"),
    ];
    for (op, symbol, label) in all {
        assert_eq!(op_symbol(op), symbol);
        assert_eq!(op_label(op), label);
    }
}

#[test]
fn status_lines() {
    assert_eq!(
        print_status(&entry(Operation::Create, None), 12),
        "\r\x1b[K  [3/12] + create a.txt (1.5s)"
    );
    assert_eq!(
        print_status(&entry(Operation::Rename, Some("b.txt")), 12),
        "\r\x1b[K  [3/12] > rename a.txt -> b.txt (1.5s)"
    );
    assert_eq!(
        print_status(&entry(Operation::Rename, None), 0),
        "\r\x1b[K  [3/0] > rename a.txt (1.5s)"
    );
    assert_eq!(
        print_status(&entry(Operation::Delete, Some("b.txt")), 3),
        "\r\x1b[K  [3/3] - delete a.txt (1.5s)"
    );
    assert_eq!(
        print_status(&entry(Operation::Install, None), 3),
        "\r\x1b[K  [3/3] * install installing dependencies... (1.5s)"
    );
}

#[test]
fn the_header_does_not_count_as_an_event() {
    assert_eq!(total_events(0), 0);
    assert_eq!(total_events(1), 0);
    assert_eq!(total_events(5), 4);
}

#[test]
fn reports() {
    assert_eq!(replay_report(17, "/tmp/out"), "replayed 17 events into /tmp/out");
}

#[test]
fn short_waits_are_slept_through() {
    assert_eq!(sleep_with_countdown(0, 0), Countdown::SleepThrough { ms: 0 });
    assert_eq!(sleep_with_countdown(500, 0), Countdown::SleepThrough { ms: 500 });
}

#[test]
fn long_waits_are_counted_down() {
    assert_eq!(
        sleep_with_countdown(501, 0),
        Countdown::Show { remaining_ns: 501_000_000, sleep_ns: 100_000_000 }
    );
    assert_eq!(
        sleep_with_countdown(501, 450_000_000),
        Countdown::Show { remaining_ns: 51_000_000, sleep_ns: 51_000_000 }
    );
    assert_eq!(sleep_with_countdown(501, 501_000_000), Countdown::Over);
    assert_eq!(sleep_with_countdown(501, 900_000_000), Countdown::Over);
    assert_eq!(
        sleep_with_countdown(u64::MAX, 0),
        Countdown::Show {
            remaining_ns: u64::MAX as u128 * 1_000_000,
            sleep_ns: 100_000_000
        }
    );
}
