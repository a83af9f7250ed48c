//! Starting, asking and stopping the daemon.
use std::path::Path;

use replayfs::daemon::{
    Accepted, ListenerStep, StartPlan, StopPlan, blob_dir, handle_socket_command, log_path,
    pid_path, read_pid, sock_path, socket_listener, start, status, status_response, stop,
    stop_response, terminate_report, write_pid,
};
use replayfs::error::DaemonError;

#[test]
fn files_of_the_data_directory() {
    let dir = Path::new("/project/.replayfs");
    assert_eq!(pid_path(dir), dir.join("replayfs.pid"));
    assert_eq!(sock_path(dir), dir.join("replayfs.sock"));
    assert_eq!(log_path(dir), dir.join("log.ndjson"));
    assert_eq!(blob_dir(dir), dir.join("blobs"));
}

#[test]
fn pid_files() {
    assert_eq!(read_pid("1234"), Some(1234));
    assert_eq!(read_pid("  1234\n"), Some(1234));
    assert_eq!(read_pid("+7"), Some(7));
    assert_eq!(read_pid("-7"), Some(-7));
    assert_eq!(read_pid("007"), Some(7));
    assert_eq!(read_pid("2147483647"), Some(i32::MAX));
    assert_eq!(read_pid("2147483648"), None);
    assert_eq!(read_pid("-2147483648"), Some(i32::MIN));
    assert_eq!(read_pid("-2147483649"), None);
    assert_eq!(read_pid(""), None);
    assert_eq!(read_pid("-"), None);
    assert_eq!(read_pid("12a"), None);
    assert_eq!(read_pid("1 2"), None);
}

#[test]
fn pids_come_back() {
    for pid in [1u32, 9, 10, 4711, 2147483647] {
        assert_eq!(read_pid(&write_pid(pid)), Some(pid as i32));
    }
    assert_eq!(write_pid(4711), "4711");
    assert_eq!(write_pid(u32::MAX), "4294967295");
}

#[test]
fn starting() {
    match start(Some(17), true, true) {
        Err(DaemonError::AlreadyRunning(17)) => {}
        _ => panic!("a second daemon was started"),
    }
    let plan = |pid, alive, foreground| start(pid, alive, foreground).ok();
    assert_eq!(
        plan(Some(17), false, true),
        Some(StartPlan { cleanup: true, background: false })
    );
    assert_eq!(
        plan(Some(17), false, false),
        Some(StartPlan { cleanup: true, background: true })
    );
    assert_eq!(plan(None, false, true), Some(StartPlan { cleanup: false, background: false }));
    assert_eq!(plan(None, true, false), Some(StartPlan { cleanup: false, background: true }));
}

#[test]
fn stopping() {
    assert_eq!(stop(true, None, false).ok(), Some(StopPlan::Ask));
    assert_eq!(stop(true, Some(3), true).ok(), Some(StopPlan::Ask));
    assert_eq!(stop(false, Some(3), true).ok(), Some(StopPlan::Terminate(3)));
    assert!(matches!(stop(false, Some(3), false), Err(DaemonError::NotRunning)));
    assert!(matches!(stop(false, None, true), Err(DaemonError::NotRunning)));
    assert_eq!(terminate_report(3), "sent SIGTERM to PID 3");
    assert_eq!(stop_response("ok\n"), "daemon stopped");
    assert_eq!(stop_response(" huh \n"), "unexpected response: huh");
}

#[test]
fn asking() {
    let report = status(Some(12), true);
    assert!(report.running);
    assert_eq!(report.text, "daemon is running (PID 12)");
    let report = status(Some(12), false);
    assert!(!report.running);
    assert_eq!(report.text, "daemon is not running");
    assert!(!status(None, true).running);
    assert_eq!(status_response("running\n"), "status: running");
}

#[test]
fn commands_on_the_socket() {
    let reply = handle_socket_command("stop\n");
    assert_eq!(reply.answer, "ok\n");
    assert!(reply.stop);
    let reply = handle_socket_command("  status ");
    assert_eq!(reply.answer, "running\n");
    assert!(!reply.stop);
    for line in ["", "\n", "STOP\n", "stop now\n", "restart\n"] {
        let reply = handle_socket_command(line);
        assert_eq!(reply.answer, "unknown command\n");
        assert!(!reply.stop);
    }
}

#[test]
fn a_stop_is_acknowledged() {
    assert_eq!(stop_response(handle_socket_command("stop\n").answer), "daemon stopped");
    assert_eq!(
        stop_response(handle_socket_command("status\n").answer),
        "unexpected response: running"
    );
}

#[test]
fn unicode_white_space_is_trimmed() {
    assert!(handle_socket_command("\u{2003}stop\u{a0}\u{3000}").stop);
    assert!(!handle_socket_command("\u{200b}stop").stop);
}

#[test]
fn turns_of_the_listener() {
    assert_eq!(socket_listener(false, Accepted::Connection), ListenerStep::Serve);
    assert_eq!(socket_listener(false, Accepted::WouldBlock), ListenerStep::Sleep(100));
    assert_eq!(socket_listener(false, Accepted::Failed), ListenerStep::Report);
    assert_eq!(socket_listener(true, Accepted::Connection), ListenerStep::Leave);
    assert_eq!(socket_listener(true, Accepted::WouldBlock), ListenerStep::Leave);
    assert_eq!(socket_listener(true, Accepted::Failed), ListenerStep::Leave);
}

#[test]
fn errors_say_what_is_wrong() {
    assert_eq!(
        DaemonError::AlreadyRunning(42).message(),
        "another daemon is already running (PID 42)"
    );
    assert_eq!(
        DaemonError::AlreadyRunning(-1).message(),
        "another daemon is already running (PID -1)"
    );
    assert_eq!(DaemonError::NotRunning.message(), "no daemon is running");
    assert_eq!(
        DaemonError::SocketFailed("Address already in use".to_string()).message(),
        "failed to create Unix socket: Address already in use"
    );
    assert_eq!(
        DaemonError::UnsupportedSchemaVersion(99, 1).message(),
        "unsupported log schema version 99 (this version of replayfs supports up to version 1)"
    );
}
