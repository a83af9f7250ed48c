//! What can go wrong between the daemon and those who control it.
use vstd::prelude::*;

use crate::text::{
    decimal, digits, integer_value, law_numbers_come_back, lemma_digits_value, signed_decimal,
    signed_digits,
};

verus! {

/// A request that the daemon, or a log, does not allow.
#[derive(Debug)]
pub enum DaemonError {
    /// A daemon with this process id is running already.
    AlreadyRunning(i32),
    /// There is no daemon to talk to.
    NotRunning,
    /// The control socket could not be made, for this reason.
    SocketFailed(String),
    /// The log has the first schema version; the second is the highest one that
    /// can be read.
    UnsupportedSchemaVersion(u64, u64),
}

impl DaemonError {
    /// What is said of the error.
    pub open spec fn text(&self) -> Seq<char> {
        match *self {
            DaemonError::AlreadyRunning(pid) => "another daemon is already running (PID "@
                + signed_digits(pid as int) + ")"@,
            DaemonError::NotRunning => "no daemon is running"@,
            DaemonError::SocketFailed(reason) => "failed to create Unix socket: "@ + reason@,
            DaemonError::UnsupportedSchemaVersion(found, supported) =>
                "unsupported log schema version "@ + digits(found as nat)
                    + " (this version of replayfs supports up to version "@ + digits(
                    supported as nat,
                ) + ")"@,
        }
    }

    /// Says what went wrong.
    pub fn message(&self) -> (r: String)
        ensures
            r@ == self.text(),
    {
        match self {
            DaemonError::AlreadyRunning(pid) => {
                let mut r = "another daemon is already running (PID ".to_string();
                r.append(signed_decimal(*pid).as_str());
                r.append(")");
                r
            },
            DaemonError::NotRunning => "no daemon is running".to_string(),
            DaemonError::SocketFailed(reason) => {
                let mut r = "failed to create Unix socket: ".to_string();
                r.append(reason.as_str());
                r
            },
            DaemonError::UnsupportedSchemaVersion(found, supported) => {
                let mut r = "unsupported log schema version ".to_string();
                r.append(decimal(*found).as_str());
                r.append(" (this version of replayfs supports up to version ");
                r.append(decimal(*supported).as_str());
                r.append(")");
                r
            },
        }
    }
}

/// Each error says what it is, with the numbers that it is about.
pub proof fn law_errors_name_their_numbers(error: DaemonError)
    ensures
        error matches DaemonError::AlreadyRunning(pid) ==> exists|n: Seq<char>| #[trigger]
            integer_value(n) == Some(pid as int) && error.text()
                == "another daemon is already running (PID "@ + n + ")"@,
        error is NotRunning ==> error.text() == "no daemon is running"@,
        error matches DaemonError::SocketFailed(reason) ==> error.text()
            == "failed to create Unix socket: "@ + reason@,
        error matches DaemonError::UnsupportedSchemaVersion(found, supported) ==> exists|
            a: Seq<char>,
            b: Seq<char>,
        |
            #![trigger integer_value(a), integer_value(b)]
            integer_value(a) == Some(found as int) && integer_value(b) == Some(supported as int)
                && error.text() == "unsupported log schema version "@ + a
                + " (this version of replayfs supports up to version "@ + b + ")"@,
{
    match error {
        DaemonError::AlreadyRunning(pid) => {
            law_numbers_come_back(pid as int);
            assert(integer_value(signed_digits(pid as int)) == Some(pid as int));
        },
        DaemonError::UnsupportedSchemaVersion(found, supported) => {
            lemma_digits_value(found as nat);
            lemma_digits_value(supported as nat);
            assert(integer_value(digits(found as nat)) == Some(found as int) && integer_value(
                digits(supported as nat),
            ) == Some(supported as int));
        },
        _ => {},
    }
}

} // verus!
