//! What is shown while a log is replayed.
use vstd::prelude::*;

use crate::log::{EntryView, LogEntry, Operation};
use crate::text::{decimal, digits, digits_value, lemma_digits_value};

verus! {

/// The sign of an operation.
pub open spec fn symbol_of(op: Operation) -> Seq<char> {
    match op {
        Operation::Create => "+"@,
        Operation::Modify => "~"@,
        Operation::Delete => "-"@,
        Operation::Rename => ">"@,
        Operation::Install => "*"@,
    }
}

/// The name of an operation.
pub open spec fn label_of(op: Operation) -> Seq<char> {
    match op {
        Operation::Create => "create"@,
        Operation::Modify => "modify"@,
        Operation::Delete => "delete"@,
        Operation::Rename => "rename"@,
        Operation::Install => "install"@,
    }
}

/// The sign of an operation.
pub fn op_symbol(op: Operation) -> (r: &'static str)
    ensures
        r@ == symbol_of(op),
{
    match op {
        Operation::Create => "+",
        Operation::Modify => "~",
        Operation::Delete => "-",
        Operation::Rename => ">",
        Operation::Install => "*",
    }
}

/// The name of an operation, as it is written in the log.
pub fn op_label(op: Operation) -> (r: &'static str)
    ensures
        r@ == label_of(op),
{
    match op {
        Operation::Create => "create",
        Operation::Modify => "modify",
        Operation::Delete => "delete",
        Operation::Rename => "rename",
        Operation::Install => "install",
    }
}

/// Different operations have different signs and different names.
pub proof fn law_operations_are_told_apart(a: Operation, b: Operation)
    requires
        a != b,
    ensures
        symbol_of(a) != symbol_of(b),
        label_of(a) != label_of(b),
{
    reveal_strlit("+");
    reveal_strlit("~");
    reveal_strlit("-");
    reveal_strlit(">");
    reveal_strlit("*");
    reveal_strlit("create");
    reveal_strlit("modify");
    reveal_strlit("delete");
    reveal_strlit("rename");
    reveal_strlit("install");
    assert(symbol_of(a)[0] != symbol_of(b)[0]);
    assert("create"@[0] == 'c' && "modify"@[0] == 'm' && "delete"@[0] == 'd' && "rename"@[0] == 'r'
        && "install"@[0] == 'i');
    assert(label_of(a)[0] != label_of(b)[0]);
}

/// `n / d` rounded to the nearest integer, to the even one of two that are equally
/// near.
pub open spec fn rounded(n: int, d: int) -> int
    recommends
        n >= 0,
        d > 0,
{
    let q = n / d;
    let r = n % d;
    if 2 * r < d {
        q
    } else if 2 * r > d {
        q + 1
    } else if q % 2 == 0 {
        q
    } else {
        q + 1
    }
}

/// How many parts a second has in the double that holds `ms / 1000`, for at least
/// one and less than 64 seconds.
pub open spec fn double_scale(ms: int) -> int {
    if ms < 2_000 {
        0x10_0000_0000_0000
    } else if ms < 4_000 {
        0x8_0000_0000_0000
    } else if ms < 8_000 {
        0x4_0000_0000_0000
    } else if ms < 16_000 {
        0x2_0000_0000_0000
    } else if ms < 32_000 {
        0x1_0000_0000_0000
    } else {
        0x8000_0000_0000
    }
}

/// `ms` milliseconds in tenths of a second: the nearest double to the seconds,
/// rounded to one decimal.
pub open spec fn tenths(ms: int) -> int {
    let scale = double_scale(ms);
    rounded(10 * rounded(ms * scale, 1000), scale)
}

/// Two digits, the first one a zero where there is no other.
pub open spec fn two_digits(n: nat) -> Seq<char> {
    if n < 10 {
        "0"@ + digits(n)
    } else {
        digits(n)
    }
}

/// A duration as it is shown: in milliseconds below a second, in seconds with one
/// decimal below a minute, and in minutes and seconds from there on.
pub open spec fn duration_text(ms: u64) -> Seq<char> {
    if ms < 1000 {
        digits(ms as nat) + "ms"@
    } else if ms < 60_000 {
        digits((tenths(ms as int) / 10) as nat) + "."@ + digits(
            (tenths(ms as int) % 10) as nat,
        ) + "s"@
    } else {
        digits((ms / 60_000) as nat) + "m"@ + two_digits(((ms % 60_000) / 1000) as nat) + "s"@
    }
}

/// `n / d` rounded to the nearest integer, to the even one of two that are equally
/// near.
fn round_div(n: u128, d: u128) -> (r: u128)
    requires
        0 < d <= 0x10_0000_0000_0000,
        n < 0x1_0000_0000_0000_0000_0000_0000,
    ensures
        r == rounded(n as int, d as int),
        r <= n / d + 1,
{
    let q: u128 = n / d;
    let r: u128 = n % d;
    assert(q <= n) by (nonlinear_arith)
        requires
            q == n / d,
            d > 0,
    ;
    if 2 * r < d {
        q
    } else if 2 * r > d {
        q + 1
    } else if q % 2 == 0 {
        q
    } else {
        q + 1
    }
}

/// `ms` milliseconds in tenths of a second.
fn to_tenths(ms: u64) -> (r: u64)
    requires
        1000 <= ms < 60_000,
    ensures
        r == tenths(ms as int),
{
    let scale: u128 = if ms < 2_000 {
        0x10_0000_0000_0000
    } else if ms < 4_000 {
        0x8_0000_0000_0000
    } else if ms < 8_000 {
        0x4_0000_0000_0000
    } else if ms < 16_000 {
        0x2_0000_0000_0000
    } else if ms < 32_000 {
        0x1_0000_0000_0000
    } else {
        0x8000_0000_0000
    };
    assert(scale == double_scale(ms as int));
    assert(ms * scale <= 60_000 * 0x10_0000_0000_0000) by (nonlinear_arith)
        requires
            ms < 60_000,
            0 < scale <= 0x10_0000_0000_0000,
    ;
    let units = round_div(ms as u128 * scale, 1000);
    assert(units <= 60 * scale + 1) by (nonlinear_arith)
        requires
            units <= (ms * scale) / 1000 + 1,
            ms < 60_000,
            0 < scale <= 0x10_0000_0000_0000,
    ;
    let r = round_div(10 * units, scale);
    assert(r <= 611) by (nonlinear_arith)
        requires
            r <= (10 * units) / (scale as int) + 1,
            units <= 60 * scale + 1,
            0x8000_0000_0000 <= scale,
    ;
    r as u64
}

/// Shows a duration.
pub fn format_duration(ms: u64) -> (r: String)
    ensures
        r@ == duration_text(ms),
{
    if ms < 1000 {
        let mut r = decimal(ms);
        r.append("ms");
        r
    } else if ms < 60_000 {
        let t = to_tenths(ms);
        let mut r = decimal(t / 10);
        r.append(".");
        r.append(decimal(t % 10).as_str());
        r.append("s");
        r
    } else {
        let mins = ms / 60_000;
        let secs = (ms % 60_000) / 1000;
        let mut r = decimal(mins);
        r.append("m");
        let mut shown = if secs < 10 {
            "0".to_string()
        } else {
            String::new()
        };
        shown.append(decimal(secs).as_str());
        assert(shown@ =~= two_digits(secs as nat));
        r.append(shown.as_str());
        r.append("s");
        r
    }
}

/// What is shown as the subject of an entry.
pub open spec fn subject_of(entry: EntryView) -> Seq<char> {
    if entry.op == Operation::Install {
        "installing dependencies..."@
    } else if entry.op == Operation::Rename && entry.dest_path is Some {
        entry.path + " -> "@ + entry.dest_path->0
    } else {
        entry.path
    }
}

/// The status line for an entry of a log with `total` entries.
pub open spec fn status_text(entry: EntryView, total: nat) -> Seq<char> {
    "\r\x1b[K  ["@ + digits(entry.seq as nat) + "/"@ + digits(total)
        + "] "@ + symbol_of(entry.op) + " "@ + label_of(entry.op) + " "@ + subject_of(entry)
        + " ("@ + duration_text(entry.elapsed_ms) + ")"@
}

/// Shows an entry of a log with `total` entries.
pub fn print_status(entry: &LogEntry, total: usize) -> (r: String)
    ensures
        r@ == status_text(entry@, total as nat),
{
    let subject = if entry.op == Operation::Install {
        "installing dependencies...".to_string()
    } else if entry.op == Operation::Rename {
        match &entry.dest_path {
            Some(dest) => {
                let mut subject = entry.path.clone();
                subject.append(" -> ");
                subject.append(dest.as_str());
                subject
            },
            None => entry.path.clone(),
        }
    } else {
        entry.path.clone()
    };
    assert(subject@ == subject_of(entry@));
    let mut r = "\r\x1b[K  [".to_string();
    r.append(decimal(entry.seq).as_str());
    r.append("/");
    r.append(decimal(total as u64).as_str());
    r.append("] ");
    r.append(op_symbol(entry.op));
    r.append(" ");
    r.append(op_label(entry.op));
    r.append(" ");
    r.append(subject.as_str());
    r.append(" (");
    r.append(format_duration(entry.elapsed_ms).as_str());
    r.append(")");
    r
}

/// The number of entries in a log with `lines` lines, the first one a header.
pub fn total_events(lines: usize) -> (r: usize)
    ensures
        r == events_in(lines as nat),
        r == (if lines == 0 {
            0
        } else {
            lines - 1
        }),
{
    lines.saturating_sub(1)
}

/// Says how much was replayed, and where to.
pub fn replay_report(count: u64, output: &str) -> (r: String)
    ensures
        r@ == report_text(count, output@),
        r@ == "replayed "@ + digits(count as nat) + " events into "@ + output@,
{
    let mut r = "replayed ".to_string();
    r.append(decimal(count).as_str());
    r.append(" events into ");
    r.append(output);
    r
}

/// What to do while waiting for the next entry.
#[derive(Debug, Clone, Copy, PartialEq, Eq, Structural)]
pub enum Countdown {
    /// Sleep through the whole wait, which is short.
    SleepThrough {
        /// How long, in milliseconds.
        ms: u64,
    },
    /// Show what is left of the wait, then sleep for a part of it.
    Show {
        /// What is left, in nanoseconds.
        remaining_ns: u128,
        /// How long to sleep, in nanoseconds.
        sleep_ns: u128,
    },
    /// The wait is over.
    Over,
}

/// What to do in a wait of `delta_ms` milliseconds, of which `elapsed_ns` nanoseconds
/// are over.
pub open spec fn countdown_of(delta_ms: u64, elapsed_ns: u128) -> Countdown {
    if delta_ms <= 500 {
        Countdown::SleepThrough { ms: delta_ms }
    } else if elapsed_ns >= delta_ms * 1_000_000 {
        Countdown::Over
    } else {
        let remaining = (delta_ms * 1_000_000 - elapsed_ns) as u128;
        Countdown::Show {
            remaining_ns: remaining,
            sleep_ns: if remaining < 100_000_000 {
                remaining
            } else {
                100_000_000
            },
        }
    }
}

/// A wait takes as long as it should: a short one is slept through, and of a longer one
/// what is shown to be left and what is over make up the whole; each turn sleeps for some
/// of what is left, a tenth of a second at most, and the last one until the end.
pub proof fn law_waits_take_their_time(delta_ms: u64, elapsed_ns: u128)
    ensures
        match countdown_of(delta_ms, elapsed_ns) {
            Countdown::SleepThrough { ms } => delta_ms <= 500 && ms == delta_ms,
            Countdown::Over => delta_ms > 500 && elapsed_ns >= delta_ms * 1_000_000,
            Countdown::Show { remaining_ns, sleep_ns } => {
                &&& delta_ms > 500
                &&& elapsed_ns + remaining_ns == delta_ms * 1_000_000
                &&& 0 < sleep_ns <= remaining_ns
                &&& sleep_ns <= 100_000_000
                &&& sleep_ns < remaining_ns ==> sleep_ns == 100_000_000
            },
        },
{
}

/// One turn of a wait of `delta_ms` milliseconds, of which `elapsed_ns`
/// nanoseconds are over.
pub fn sleep_with_countdown(delta_ms: u64, elapsed_ns: u128) -> (r: Countdown)
    ensures
        r == countdown_of(delta_ms, elapsed_ns),
        r == (if delta_ms <= 500 {
            Countdown::SleepThrough { ms: delta_ms }
        } else if elapsed_ns >= delta_ms * 1_000_000 {
            Countdown::Over
        } else {
            let remaining = (delta_ms * 1_000_000 - elapsed_ns) as u128;
            Countdown::Show {
                remaining_ns: remaining,
                sleep_ns: if remaining < 100_000_000 {
                    remaining
                } else {
                    100_000_000
                },
            }
        }),
{
    if delta_ms <= 500 {
        return Countdown::SleepThrough { ms: delta_ms };
    }
    let total: u128 = delta_ms as u128 * 1_000_000;
    if elapsed_ns >= total {
        return Countdown::Over;
    }
    let remaining: u128 = total - elapsed_ns;
    let sleep: u128 = if remaining < 100_000_000 {
        remaining
    } else {
        100_000_000
    };
    Countdown::Show { remaining_ns: remaining, sleep_ns: sleep }
}

/// A duration below a second is shown in milliseconds, and one of a minute or more as
/// minutes and seconds that make up its whole seconds.
pub proof fn law_durations_add_up(ms: u64)
    ensures
        ms < 1000 ==> exists|n: Seq<char>| #[trigger]
            digits_value(n) == ms && duration_text(ms) == n + "ms"@,
        ms >= 60_000 ==> exists|m: Seq<char>, s: Seq<char>|
            #![trigger digits_value(m), digits_value(s)]
            {
                &&& duration_text(ms) == m + "m"@ + s + "s"@
                &&& s.len() == 2
                &&& digits_value(s) < 60
                &&& digits_value(m) * 60 + digits_value(s) == ms / 1000
            },
{
    if ms < 1000 {
        lemma_digits_value(ms as nat);
        assert(digits_value(digits(ms as nat)) == ms);
    } else if ms >= 60_000 {
        let mins = (ms / 60_000) as nat;
        let secs = ((ms % 60_000) / 1000) as nat;
        lemma_digits_value(mins);
        lemma_digits_value(secs);
        let m = digits(mins);
        let s = two_digits(secs);
        reveal_strlit("0");
        reveal_with_fuel(digits, 3);
        if secs < 10 {
            assert(s =~= seq!['0'] + digits(secs));
            assert(s.drop_last() =~= seq!['0']);
            assert(seq!['0'].drop_last() =~= Seq::<char>::empty());
            reveal_with_fuel(digits_value, 3);
            assert(digits(secs).drop_last() =~= Seq::<char>::empty());
        } else {
            assert(s =~= digits(secs));
        }
        assert(digits_value(s) == secs);
        assert(digits_value(m) == mins);
        assert(digits_value(m) * 60 + digits_value(s) == ms / 1000);
    }
}

/// A status line names the entry and the number of all, the operation by sign and name,
/// the path, for a rename where it leads, and when the entry came; an installation is
/// told as such.
pub proof fn law_status_lines_name_the_entry(entry: EntryView, total: nat)
    ensures
        ({
            let subject = if entry.op == Operation::Install {
                "installing dependencies..."@
            } else {
                match entry.dest_path {
                    Some(dest) => if entry.op == Operation::Rename {
                        entry.path + " -> "@ + dest
                    } else {
                        entry.path
                    },
                    None => entry.path,
                }
            };
            status_text(entry, total) == "\r\x1b[K  ["@ + digits(entry.seq as nat) + "/"@ + digits(
                total,
            ) + "] "@ + symbol_of(entry.op) + " "@ + label_of(entry.op) + " "@ + subject + " ("@
                + duration_text(entry.elapsed_ms) + ")"@
        }),
{
}

/// Each operation has the name that it has in the log.
pub proof fn law_operations_have_their_names(op: Operation)
    ensures
        label_of(op) == "create"@ <==> op is Create,
        label_of(op) == "modify"@ <==> op is Modify,
        label_of(op) == "delete"@ <==> op is Delete,
        label_of(op) == "rename"@ <==> op is Rename,
        label_of(op) == "install"@ <==> op is Install,
{
    if op != Operation::Create {
        law_operations_are_told_apart(op, Operation::Create);
    }
    if op != Operation::Modify {
        law_operations_are_told_apart(op, Operation::Modify);
    }
    if op != Operation::Delete {
        law_operations_are_told_apart(op, Operation::Delete);
    }
    if op != Operation::Rename {
        law_operations_are_told_apart(op, Operation::Rename);
    }
    if op != Operation::Install {
        law_operations_are_told_apart(op, Operation::Install);
    }
}

/// Each operation has a sign of its own.
pub proof fn law_operations_have_their_signs(op: Operation)
    ensures
        symbol_of(op) == "+"@ <==> op is Create,
        symbol_of(op) == "~"@ <==> op is Modify,
        symbol_of(op) == "-"@ <==> op is Delete,
        symbol_of(op) == ">"@ <==> op is Rename,
        symbol_of(op) == "*"@ <==> op is Install,
{
    reveal_strlit("+");
    reveal_strlit("~");
    reveal_strlit("-");
    reveal_strlit(">");
    reveal_strlit("*");
    assert("+"@[0] == '+' && "~"@[0] == '~' && "-"@[0] == '-' && ">"@[0] == '>' && "*"@[0] == '*');
}

/// The number of entries in a log with so many lines, the first one a header.
pub open spec fn events_in(lines: nat) -> int {
    if lines == 0 {
        0
    } else {
        lines - 1
    }
}

/// Every line but the header counts as an entry.
pub proof fn law_every_line_behind_the_header_counts(lines: nat)
    ensures
        lines > 0 ==> events_in(lines) + 1 == lines,
        lines == 0 ==> events_in(lines) == 0,
{
}

/// What is said at the end of a replay.
pub open spec fn report_text(count: u64, output: Seq<char>) -> Seq<char> {
    "replayed "@ + digits(count as nat) + " events into "@ + output
}

/// The report names how many entries were replayed, and where to.
pub proof fn law_report_names_the_count(count: u64, output: Seq<char>)
    ensures
        exists|n: Seq<char>| #[trigger]
            digits_value(n) == count && report_text(count, output) == "replayed "@ + n
                + " events into "@ + output,
{
    lemma_digits_value(count as nat);
    assert(digits_value(digits(count as nat)) == count);
}

/// A rounded quotient is off by half of the divisor at most.
proof fn lemma_rounded(n: int, d: int)
    requires
        n >= 0,
        d > 0,
    ensures
        rounded(n, d) >= 0,
        2 * (d * rounded(n, d)) - d <= 2 * n <= 2 * (d * rounded(n, d)) + d,
{
    let q = n / d;
    vstd::arithmetic::div_mod::lemma_fundamental_div_mod(n, d);
    vstd::arithmetic::div_mod::lemma_div_pos_is_pos(n, d);
    assert(d * (q + 1) == d * q + d) by (nonlinear_arith);
}

/// A duration of a second or more and of less than a minute is shown in seconds with one
/// decimal, and what is shown is off by half a tenth of a second at most.
pub proof fn law_seconds_are_near(ms: u64)
    requires
        1000 <= ms < 60_000,
    ensures
        exists|s: Seq<char>, t: Seq<char>|
            #![trigger digits_value(s), digits_value(t)]
            {
                &&& duration_text(ms) == s + "."@ + t + "s"@
                &&& t.len() == 1
                &&& -50 <= 1000 * digits_value(s) + 100 * digits_value(t) - ms <= 50
            },
{
    let scale = double_scale(ms as int);
    let parts = rounded(ms * scale, 1000);
    let shown = tenths(ms as int);
    assert(ms * scale >= 0) by (nonlinear_arith)
        requires
            scale > 0,
    ;
    lemma_rounded(ms * scale, 1000);
    lemma_rounded(10 * parts, scale);
    assert(-50 <= 100 * shown - ms <= 50) by (nonlinear_arith)
        requires
            scale > 500,
            2 * (1000 * parts) - 1000 <= 2 * (ms * scale) <= 2 * (1000 * parts) + 1000,
            2 * (scale * shown) - scale <= 2 * (10 * parts) <= 2 * (scale * shown) + scale,
    {
        assert(scale * (100 * shown - ms) == 100 * (scale * shown) - ms * scale);
        assert(-50 * scale - 500 <= scale * (100 * shown - ms) <= 50 * scale + 500);
        assert(100 * shown - ms >= 51 ==> scale * (100 * shown - ms) >= scale * 51);
        assert(100 * shown - ms <= -51 ==> scale * (100 * shown - ms) <= scale * -51);
    }
    let s = (shown / 10) as nat;
    let t = (shown % 10) as nat;
    lemma_digits_value(s);
    lemma_digits_value(t);
    assert(digits(t).len() == 1);
    assert(digits_value(digits(s)) == s && digits_value(digits(t)) == t);
}

} // verus!
