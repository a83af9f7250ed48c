//! The daemon that records, and those who start, ask and stop it.
pub mod snapshot;
pub mod watcher;

use std::path::{Path, PathBuf};

use vstd::prelude::*;

use crate::error::DaemonError;
use crate::paths::{
    buf_parts, bytes_of, join, joined, lemma_plain_name, parts, path_buf_bytes, path_bytes,
};
use crate::text::{
    decimal, digits, integer_value, law_no_leading_zeros, law_numbers_come_back,
    lemma_digits_value, parse_i32, same_text, signed_decimal, signed_digits, trim, trimmed,
};

verus! {

/// The path of the file that holds the process id of the daemon.
pub open spec fn pid_file(data_dir: Seq<u8>) -> Seq<u8> {
    joined(data_dir, bytes_of("replayfs.pid"@))
}

/// The path of the socket that the daemon is controlled through.
pub open spec fn socket_file(data_dir: Seq<u8>) -> Seq<u8> {
    joined(data_dir, bytes_of("replayfs.sock"@))
}

/// The path of the file that holds the log.
pub open spec fn log_file(data_dir: Seq<u8>) -> Seq<u8> {
    joined(data_dir, bytes_of("log.ndjson"@))
}

/// The path of the directory that holds the blobs.
pub open spec fn blobs_place(data_dir: Seq<u8>) -> Seq<u8> {
    joined(data_dir, bytes_of("blobs"@))
}

/// What the daemon keeps lies in its data directory, each thing under a name of its own.
pub proof fn law_data_has_its_places(data_dir: Seq<u8>)
    ensures
        pid_file(data_dir) == joined(data_dir, bytes_of("replayfs.pid"@)),
        socket_file(data_dir) == joined(data_dir, bytes_of("replayfs.sock"@)),
        log_file(data_dir) == joined(data_dir, bytes_of("log.ndjson"@)),
        blobs_place(data_dir) == joined(data_dir, bytes_of("blobs"@)),
{
}

/// The file that holds the process id of the daemon.
pub fn pid_path(data_dir: &Path) -> (r: PathBuf)
    ensures
        path_buf_bytes(&r) == pid_file(path_bytes(data_dir)),
        path_buf_bytes(&r) == joined(path_bytes(data_dir), bytes_of("replayfs.pid"@)),
        buf_parts(&r) == parts(data_dir).push(bytes_of("replayfs.pid"@)),
{
    proof {
        reveal_strlit("replayfs.pid");
        lemma_plain_name("replayfs.pid"@);
    }
    join(data_dir, "replayfs.pid")
}

/// The socket that the daemon is controlled through.
pub fn sock_path(data_dir: &Path) -> (r: PathBuf)
    ensures
        path_buf_bytes(&r) == socket_file(path_bytes(data_dir)),
        path_buf_bytes(&r) == joined(path_bytes(data_dir), bytes_of("replayfs.sock"@)),
        buf_parts(&r) == parts(data_dir).push(bytes_of("replayfs.sock"@)),
{
    proof {
        reveal_strlit("replayfs.sock");
        lemma_plain_name("replayfs.sock"@);
    }
    join(data_dir, "replayfs.sock")
}

/// The file that holds the log.
pub fn log_path(data_dir: &Path) -> (r: PathBuf)
    ensures
        path_buf_bytes(&r) == log_file(path_bytes(data_dir)),
        path_buf_bytes(&r) == joined(path_bytes(data_dir), bytes_of("log.ndjson"@)),
        buf_parts(&r) == parts(data_dir).push(bytes_of("log.ndjson"@)),
{
    proof {
        reveal_strlit("log.ndjson");
        lemma_plain_name("log.ndjson"@);
    }
    join(data_dir, "log.ndjson")
}

/// The directory that holds the blobs.
pub fn blob_dir(data_dir: &Path) -> (r: PathBuf)
    ensures
        path_buf_bytes(&r) == blobs_place(path_bytes(data_dir)),
        path_buf_bytes(&r) == joined(path_bytes(data_dir), bytes_of("blobs"@)),
        buf_parts(&r) == parts(data_dir).push(bytes_of("blobs"@)),
{
    proof {
        reveal_strlit("blobs");
        lemma_plain_name("blobs"@);
    }
    join(data_dir, "blobs")
}

/// The process id that the text of the pid file stands for, if it does.
pub open spec fn pid_in(text: Seq<char>) -> Option<i32> {
    match integer_value(trimmed(text)) {
        Some(n) => if i32::MIN <= n <= i32::MAX {
            Some(n as i32)
        } else {
            None
        },
        None => None,
    }
}

/// Reads the process id out of the text of the pid file.
pub fn read_pid(text: &str) -> (r: Option<i32>)
    ensures
        r == pid_in(text@),
{
    parse_i32(trim(text))
}

/// The text of the pid file of the process `pid`.
pub open spec fn pid_text(pid: u32) -> Seq<char> {
    digits(pid as nat)
}

/// The text of the pid file of the process `pid`.
pub fn write_pid(pid: u32) -> (r: String)
    ensures
        r@ == pid_text(pid),
        r@ == digits(pid as nat),
{
    decimal(pid as u64)
}

/// The process id that is read out of the pid file is the one that was written.
pub proof fn law_pid_round_trip(pid: u32)
    requires
        pid <= i32::MAX,
    ensures
        pid_in(digits(pid as nat)) == Some(pid as i32),
        pid_in(pid_text(pid)) == Some(pid as i32),
{
    lemma_digits_value(pid as nat);
}

/// How the daemon is to be started.
#[derive(Debug, Clone, Copy, PartialEq, Eq, Structural)]
pub struct StartPlan {
    /// Whether the files of a daemon that is gone are removed first.
    pub cleanup: bool,
    /// Whether the daemon runs in a process of its own.
    pub background: bool,
}

/// How the daemon is to be started.
pub open spec fn start_of(
    pid: Option<i32>,
    alive: bool,
    foreground: bool,
) -> Result<StartPlan, DaemonError> {
    match pid {
        Some(pid) => if alive {
            Err(DaemonError::AlreadyRunning(pid))
        } else {
            Ok(StartPlan { cleanup: true, background: !foreground })
        },
        None => Ok(StartPlan { cleanup: false, background: !foreground }),
    }
}

/// No daemon is started beside one that runs, which is named; otherwise one is, in the
/// background unless asked not to, and what a daemon that is gone has left is cleaned
/// up.
pub proof fn law_one_daemon_at_a_time(pid: Option<i32>, alive: bool, foreground: bool)
    ensures
        start_of(pid, alive, foreground) is Err <==> pid is Some && alive,
        start_of(pid, alive, foreground) matches Err(error) ==> error
            == DaemonError::AlreadyRunning(pid->0),
        start_of(pid, alive, foreground) matches Ok(plan) ==> (plan.background <==> !foreground)
            && (plan.cleanup <==> pid is Some),
{
}

/// Decides how the daemon is to be started.  `pid` is what the pid file says, and
/// `alive` whether that process exists.
pub fn start(pid: Option<i32>, alive: bool, foreground: bool) -> (r: Result<StartPlan, DaemonError>)
    ensures
        r == start_of(pid, alive, foreground),
        match pid {
            Some(pid) => if alive {
                r == Err::<StartPlan, DaemonError>(DaemonError::AlreadyRunning(pid))
            } else {
                r == Ok::<_, DaemonError>(StartPlan { cleanup: true, background: !foreground })
            },
            None => r == Ok::<_, DaemonError>(
                (StartPlan { cleanup: false, background: !foreground }),
            ),
        },
{
    match pid {
        Some(pid) => {
            if alive {
                return Err(DaemonError::AlreadyRunning(pid));
            }
            Ok(StartPlan { cleanup: true, background: !foreground })
        },
        None => Ok(StartPlan { cleanup: false, background: !foreground }),
    }
}

/// What accepting a connection on the control socket gives.
#[derive(Debug, Clone, Copy, PartialEq, Eq, Structural)]
pub enum Accepted {
    /// A connection.
    Connection,
    /// Nobody is waiting.
    WouldBlock,
    /// An error.
    Failed,
}

/// What the listener on the control socket does next.
#[derive(Debug, Clone, Copy, PartialEq, Eq, Structural)]
pub enum ListenerStep {
    /// Answer the connection.
    Serve,
    /// Sleep for this many milliseconds.
    Sleep(u64),
    /// Report the error.
    Report,
    /// Stop listening.
    Leave,
}

/// What the listener on the control socket does next.
pub open spec fn listener_step(shutdown: bool, accepted: Accepted) -> ListenerStep {
    if shutdown {
        ListenerStep::Leave
    } else {
        match accepted {
            Accepted::Connection => ListenerStep::Serve,
            Accepted::WouldBlock => ListenerStep::Sleep(100),
            Accepted::Failed => ListenerStep::Report,
        }
    }
}

/// The listening ends exactly where a shutdown was asked for; until then every connection
/// is served, and every error reported.
pub proof fn law_listening_goes_on(shutdown: bool, accepted: Accepted)
    ensures
        listener_step(shutdown, accepted) is Leave <==> shutdown,
        listener_step(shutdown, accepted) is Serve <==> !shutdown && accepted is Connection,
        listener_step(shutdown, accepted) is Report <==> !shutdown && accepted is Failed,
        listener_step(shutdown, accepted) matches ListenerStep::Sleep(ms) ==> accepted is WouldBlock
            && ms == 100,
{
}

/// One turn of the listener on the control socket.  `shutdown` is whether a shutdown
/// was asked for before the turn, which ends the listening; otherwise `accepted` is
/// what accepting a connection gave.
pub fn socket_listener(shutdown: bool, accepted: Accepted) -> (r: ListenerStep)
    ensures
        r == listener_step(shutdown, accepted),
        shutdown ==> r == ListenerStep::Leave,
        !shutdown ==> r == (match accepted {
            Accepted::Connection => ListenerStep::Serve,
            Accepted::WouldBlock => ListenerStep::Sleep(100),
            Accepted::Failed => ListenerStep::Report,
        }),
{
    if shutdown {
        return ListenerStep::Leave;
    }
    match accepted {
        Accepted::Connection => ListenerStep::Serve,
        Accepted::WouldBlock => ListenerStep::Sleep(100),
        Accepted::Failed => ListenerStep::Report,
    }
}

/// What the daemon answers to a line on the control socket.
pub open spec fn answer_to(line: Seq<char>) -> Seq<char> {
    if trimmed(line) == "stop"@ {
        "ok\n"@
    } else if trimmed(line) == "status"@ {
        "running\n"@
    } else {
        "unknown command\n"@
    }
}

/// Whether a line on the control socket stops the daemon.
pub open spec fn is_stop(line: Seq<char>) -> bool {
    trimmed(line) == "stop"@
}

/// The answer to a line on the control socket.
#[derive(Debug, Clone, Copy)]
pub struct SocketReply {
    /// What is written back.
    pub answer: &'static str,
    /// Whether the daemon stops.
    pub stop: bool,
}

/// Answers a line on the control socket.
pub fn handle_socket_command(line: &str) -> (r: SocketReply)
    ensures
        r.answer@ == answer_to(line@),
        r.stop == is_stop(line@),
{
    let cmd = trim(line);
    if same_text(cmd, "stop") {
        SocketReply { answer: "ok\n", stop: true }
    } else if same_text(cmd, "status") {
        proof {
            reveal_strlit("stop");
            reveal_strlit("status");
        }
        SocketReply { answer: "running\n", stop: false }
    } else {
        SocketReply { answer: "unknown command\n", stop: false }
    }
}

/// How the daemon is to be stopped.
#[derive(Debug, Clone, Copy, PartialEq, Eq, Structural)]
pub enum StopPlan {
    /// Ask it through the control socket.
    Ask,
    /// Send the termination signal to this process.
    Terminate(i32),
}

/// How the daemon is to be stopped.
pub open spec fn stop_of(
    socket: bool,
    pid: Option<i32>,
    alive: bool,
) -> Result<StopPlan, DaemonError> {
    if socket {
        Ok(StopPlan::Ask)
    } else {
        match pid {
            Some(pid) => if alive {
                Ok(StopPlan::Terminate(pid))
            } else {
                Err(DaemonError::NotRunning)
            },
            None => Err(DaemonError::NotRunning),
        }
    }
}

/// A daemon with a control socket is asked to stop; one without, whose process exists, is
/// sent the signal; otherwise there is none to stop.
pub proof fn law_whoever_runs_is_stopped(socket: bool, pid: Option<i32>, alive: bool)
    ensures
        stop_of(socket, pid, alive) matches Ok(StopPlan::Ask) <==> socket,
        stop_of(socket, pid, alive) matches Ok(StopPlan::Terminate(_)) <==> !socket && pid is Some
            && alive,
        stop_of(socket, pid, alive) matches Ok(StopPlan::Terminate(target)) ==> pid == Some(target),
        stop_of(socket, pid, alive) matches Err(error) ==> error is NotRunning,
{
}

/// Decides how the daemon is to be stopped.  `socket` is whether the control
/// socket exists, `pid` what the pid file says, and `alive` whether that process
/// exists.
pub fn stop(socket: bool, pid: Option<i32>, alive: bool) -> (r: Result<StopPlan, DaemonError>)
    ensures
        r == stop_of(socket, pid, alive),
        r == (if socket {
            Ok(StopPlan::Ask)
        } else {
            match pid {
                Some(pid) => if alive {
                    Ok(StopPlan::Terminate(pid))
                } else {
                    Err(DaemonError::NotRunning)
                },
                None => Err(DaemonError::NotRunning),
            }
        }),
{
    if socket {
        return Ok(StopPlan::Ask);
    }
    if let Some(pid) = pid {
        if alive {
            return Ok(StopPlan::Terminate(pid));
        }
    }
    Err(DaemonError::NotRunning)
}

/// What is said of the answer to a stop command.
pub open spec fn stop_report(response: Seq<char>) -> Seq<char> {
    if trimmed(response) == "ok"@ {
        "daemon stopped"@
    } else {
        "unexpected response: "@ + trimmed(response)
    }
}

/// Says what the answer to a stop command means.
pub fn stop_response(response: &str) -> (r: String)
    ensures
        r@ == stop_report(response@),
{
    let answer = trim(response);
    if same_text(answer, "ok") {
        "daemon stopped".to_string()
    } else {
        let mut r = "unexpected response: ".to_string();
        r.append(answer);
        r
    }
}

/// Says that the termination signal was sent.
pub fn terminate_report(pid: i32) -> (r: String)
    ensures
        r@ == terminated_text(pid),
        r@ == "sent SIGTERM to PID "@ + signed_digits(pid as int),
{
    let mut r = "sent SIGTERM to PID ".to_string();
    r.append(signed_decimal(pid).as_str());
    r
}

/// Whether the daemon runs, and what is said of that.
pub struct StatusReport {
    /// Whether the daemon runs; if so, it can be asked for its status.
    pub running: bool,
    /// What is said.
    pub text: String,
}

/// What is said of whether the daemon runs.
pub open spec fn status_of(pid: Option<i32>, alive: bool) -> Seq<char> {
    match pid {
        Some(pid) => if alive {
            "daemon is running (PID "@ + signed_digits(pid as int) + ")"@
        } else {
            "daemon is not running"@
        },
        None => "daemon is not running"@,
    }
}

/// The daemon is said to run exactly where its process exists, and under its process id.
pub proof fn law_status_names_the_process(pid: Option<i32>, alive: bool)
    ensures
        status_of(pid, alive) == "daemon is not running"@ <==> pid is None || !alive,
        alive ==> (pid matches Some(p) ==> exists|n: Seq<char>| #[trigger]
            integer_value(n) == Some(p as int) && status_of(pid, alive)
                == "daemon is running (PID "@ + n + ")"@),
{
    reveal_strlit("daemon is not running");
    reveal_strlit("daemon is running (PID ");
    assert("daemon is not running"@[10] == 'n' && "daemon is running (PID "@[10] == 'r');
    if let Some(p) = pid {
        law_numbers_come_back(p as int);
        assert(integer_value(signed_digits(p as int)) == Some(p as int));
        if alive {
            assert(status_of(pid, alive)[10] == 'r');
        }
    }
}

/// Finds out whether the daemon runs.  `pid` is what the pid file says, and
/// `alive` whether that process exists.
pub fn status(pid: Option<i32>, alive: bool) -> (r: StatusReport)
    ensures
        r.running == is_running(pid, alive),
        r.running == (pid is Some && alive),
        r.text@ == status_of(pid, alive),
        r.text@ == (match pid {
            Some(pid) => if alive {
                "daemon is running (PID "@ + signed_digits(pid as int) + ")"@
            } else {
                "daemon is not running"@
            },
            None => "daemon is not running"@,
        }),
{
    if let Some(pid) = pid {
        if alive {
            let mut text = "daemon is running (PID ".to_string();
            text.append(signed_decimal(pid).as_str());
            text.append(")");
            return StatusReport { running: true, text };
        }
    }
    StatusReport { running: false, text: "daemon is not running".to_string() }
}

/// Says what the daemon answered to a status command.
pub fn status_response(response: &str) -> (r: String)
    ensures
        r@ == answer_report(response@),
        r@ == "status: "@ + trimmed(response@),
{
    let mut r = "status: ".to_string();
    r.append(trim(response));
    r
}

/// Whoever sends a line that stops the daemon is told that it stopped.
pub proof fn law_stop_is_acknowledged(line: Seq<char>)
    requires
        is_stop(line),
    ensures
        stop_report(answer_to(line)) == "daemon stopped"@,
{
    reveal_strlit("ok\n");
    reveal_strlit("ok");
    reveal_with_fuel(trimmed, 3);
    assert("ok\n"@.drop_last() =~= "ok"@);
}

/// No line but a stop command stops the daemon, and every other line is answered
/// otherwise than a stop command.
pub proof fn law_only_stop_stops(line: Seq<char>)
    ensures
        is_stop(line) <==> answer_to(line) == "ok\n"@,
{
    reveal_strlit("ok\n");
    reveal_strlit("running\n");
    reveal_strlit("unknown command\n");
    assert("ok\n"@.len() != "running\n"@.len());
    assert("ok\n"@.len() != "unknown command\n"@.len());
}

/// A pid file holds a process id exactly where, but for white space around it, it is an
/// integer that a process id can be, and that is the one.
pub proof fn law_pid_files(text: Seq<char>)
    ensures
        pid_in(text) matches Some(pid) ==> integer_value(trimmed(text)) == Some(pid as int),
        pid_in(text) is None ==> (integer_value(trimmed(text)) matches Some(n) ==> n < i32::MIN || n
            > i32::MAX),
{
}

/// Each command gets its own answer, white space around it aside, and any other line is
/// answered that it is none.
pub proof fn law_commands_are_answered(line: Seq<char>)
    ensures
        trimmed(line) == "stop"@ ==> answer_to(line) == "ok\n"@ && is_stop(line),
        trimmed(line) == "status"@ ==> answer_to(line) == "running\n"@ && !is_stop(line),
        trimmed(line) != "stop"@ && trimmed(line) != "status"@ ==> answer_to(line)
            == "unknown command\n"@ && !is_stop(line),
{
    reveal_strlit("stop");
    reveal_strlit("status");
    assert("stop"@.len() != "status"@.len());
}

/// A stop is reported where the answer says so, and any other answer is passed on.
pub proof fn law_answers_are_passed_on(response: Seq<char>)
    ensures
        trimmed(response) == "ok"@ ==> stop_report(response) == "daemon stopped"@,
        trimmed(response) != "ok"@ ==> stop_report(response) == "unexpected response: "@ + trimmed(
            response,
        ),
{
}

/// What is said once the termination signal was sent.
pub open spec fn terminated_text(pid: i32) -> Seq<char> {
    "sent SIGTERM to PID "@ + signed_digits(pid as int)
}

/// Whoever was sent the termination signal is named.
pub proof fn law_terminated_process_is_named(pid: i32)
    ensures
        exists|n: Seq<char>| #[trigger]
            integer_value(n) == Some(pid as int) && terminated_text(pid) == "sent SIGTERM to PID "@
                + n,
{
    law_numbers_come_back(pid as int);
    assert(integer_value(signed_digits(pid as int)) == Some(pid as int));
}

/// Every process id is written as a number without a sign and without leading zeros.
pub proof fn law_process_ids_are_written_plainly(pid: u32)
    ensures
        integer_value(pid_text(pid)) == Some(pid as int),
        forall|i: int|
            0 <= i < pid_text(pid).len() ==> '0' as u32 <= (#[trigger] pid_text(pid)[i]) as u32
                <= '9' as u32,
        pid > 0 ==> pid_text(pid)[0] != '0',
        pid == 0 ==> pid_text(pid).len() == 1,
{
    lemma_digits_value(pid as nat);
    law_no_leading_zeros(pid as nat);
}

/// Whether the daemon is said to run.
pub open spec fn is_running(pid: Option<i32>, alive: bool) -> bool {
    pid is Some && alive
}

/// What is said of the answer to a status command.
pub open spec fn answer_report(response: Seq<char>) -> Seq<char> {
    "status: "@ + trimmed(response)
}

/// The daemon is asked for its status exactly where it is not said to be gone, and its
/// answer is passed on without the white space around it.
pub proof fn law_status_is_asked_for(pid: Option<i32>, alive: bool, response: Seq<char>)
    ensures
        is_running(pid, alive) <==> status_of(pid, alive) != "daemon is not running"@,
        answer_report(response) == "status: "@ + trimmed(response),
{
    law_status_names_the_process(pid, alive);
}

} // verus!
