//! Replaying a log: from its lines to the state of the tree.
use vstd::prelude::*;

use crate::error::DaemonError;
use crate::log::{CURRENT_SCHEMA_VERSION, EntryView, LogEntry, LogRow, Operation, RowView};
use crate::text::{
    all_white_space, decimal, digits, integer_value, is_blank, is_white_space, lemma_digits_value,
    opt_text,
};
use crate::text_map::TextMap;

verus! {

/// What is known of a file that exists.
#[derive(Debug)]
pub struct FileState {
    /// The name of its content in the blob store, where there is a snapshot.
    pub content_hash: Option<String>,
}

/// The paths that exist, each with the name of its content where that is known.
pub open spec fn hashes(state: TextMap<FileState>) -> Map<Seq<char>, Option<Seq<char>>> {
    state@.map_values(|file: FileState| opt_text(file.content_hash))
}

/// The tree after one more entry.
pub open spec fn applied(
    files: Map<Seq<char>, Option<Seq<char>>>,
    entry: EntryView,
) -> Map<Seq<char>, Option<Seq<char>>> {
    match entry.op {
        Operation::Create | Operation::Modify => files.insert(entry.path, entry.content_hash),
        Operation::Delete => files.remove(entry.path),
        Operation::Rename => match entry.dest_path {
            Some(dest) => {
                let hash = if entry.content_hash is Some {
                    entry.content_hash
                } else if files.dom().contains(entry.path) {
                    files[entry.path]
                } else {
                    None
                };
                files.remove(entry.path).insert(dest, hash)
            },
            None => files,
        },
        Operation::Install => files,
    }
}

/// The tree after a sequence of entries, starting from an empty one.
pub open spec fn tree_after(entries: Seq<EntryView>) -> Map<Seq<char>, Option<Seq<char>>>
    decreases entries.len(),
{
    if entries.len() == 0 {
        Map::empty()
    } else {
        applied(tree_after(entries.drop_last()), entries.last())
    }
}

/// Applies one entry to the tree.
pub fn apply_entry(state: &mut TextMap<FileState>, entry: &LogEntry)
    requires
        old(state).wf(),
    ensures
        final(state).wf(),
        hashes(*final(state)) == applied(hashes(*old(state)), entry@),
{
    let ghost before = *state;
    match entry.op {
        Operation::Create | Operation::Modify => {
            state.insert(
                entry.path.clone(),
                FileState { content_hash: entry.content_hash.clone() },
            );
            assert(hashes(*state) =~= hashes(before).insert(entry@.path, entry@.content_hash));
        },
        Operation::Delete => {
            let _ = state.remove(entry.path.as_str());
            assert(hashes(*state) =~= hashes(before).remove(entry@.path));
        },
        Operation::Rename => {
            if let Some(dest) = &entry.dest_path {
                let old_state = state.remove(entry.path.as_str());
                let ghost between = *state;
                assert(hashes(between) =~= hashes(before).remove(entry@.path));
                // A snapshot of the destination is fresher than what is known of
                // the source.
                let content_hash = if entry.content_hash.is_some() {
                    entry.content_hash.clone()
                } else {
                    match old_state {
                        Some(file) => file.content_hash,
                        None => None,
                    }
                };
                let ghost hash = opt_text(content_hash);
                state.insert(dest.clone(), FileState { content_hash });
                assert(hashes(*state) =~= hashes(between).insert(dest@, hash));
            }
        },
        Operation::Install => {},
    }
}

/// What reading one line of a log file gives.
pub enum LogLine {
    /// The line could not be read.
    Unreadable,
    /// The line holds nothing but white space.
    Blank,
    /// The line is not a row.
    Malformed,
    /// The line is a row.
    Row(LogRow),
}

/// A line, with its texts as sequences.
pub enum LineView {
    Unreadable,
    Blank,
    Malformed,
    Row(RowView),
}

impl View for LogLine {
    type V = LineView;

    open spec fn view(&self) -> LineView {
        match *self {
            LogLine::Unreadable => LineView::Unreadable,
            LogLine::Blank => LineView::Blank,
            LogLine::Malformed => LineView::Malformed,
            LogLine::Row(row) => LineView::Row(row@),
        }
    }
}

/// What one line of a log file is, by its text and the row it was parsed as.
pub open spec fn line_of(text: Option<Seq<char>>, row: Option<RowView>) -> LineView {
    match text {
        None => LineView::Unreadable,
        Some(text) => if all_white_space(text) {
            LineView::Blank
        } else {
            match row {
                Some(row) => LineView::Row(row),
                None => LineView::Malformed,
            }
        },
    }
}

/// A line is blank exactly where it is nothing but white space, and otherwise the row it
/// was parsed as, if it was.
pub proof fn law_lines_are_what_they_hold(text: Option<Seq<char>>, row: Option<RowView>)
    ensures
        line_of(text, row) is Unreadable <==> text is None,
        line_of(text, row) is Blank <==> (text matches Some(t) && forall|i: int|
            0 <= i < t.len() ==> is_white_space(#[trigger] t[i])),
        line_of(text, row) is Malformed ==> row is None,
        line_of(text, row) matches LineView::Row(held) ==> row == Some(held),
        (text matches Some(t) && !all_white_space(t)) && row is Some ==> line_of(text, row) is Row,
{
}

/// What one line of a log file is.  `text` is the line, where it could be read, and
/// `row` the row that it was parsed as, where that could be done.
pub fn log_line(text: Option<&str>, row: Option<LogRow>) -> (r: LogLine)
    ensures
        r@ == line_of(
            match text {
                Some(text) => Some(text@),
                None => None,
            },
            match row {
                Some(row) => Some(row@),
                None => None,
            },
        ),
        match text {
            None => r is Unreadable,
            Some(text) => if all_white_space(text@) {
                r is Blank
            } else {
                match row {
                    Some(row) => r == LogLine::Row(row),
                    None => r is Malformed,
                }
            },
        },
{
    match text {
        None => LogLine::Unreadable,
        Some(text) => {
            if is_blank(text) {
                return LogLine::Blank;
            }
            match row {
                Some(row) => LogLine::Row(row),
                None => LogLine::Malformed,
            }
        },
    }
}

/// Why a log cannot be replayed.
#[derive(Debug)]
pub enum ReplayError {
    /// There is no line at all.
    EmptyLog,
    /// The first line could not be read.
    HeaderUnreadable,
    /// The first line is not a row.
    HeaderMalformed,
    /// The first row is not a header.
    HeaderMissing,
    /// The header has a schema version that is too high.
    Schema(DaemonError),
    /// A later line could not be read.
    LineUnreadable,
    /// A later line is not a row.
    LineMalformed,
}

impl ReplayError {
    /// What is said of the error.
    pub open spec fn text(&self) -> Seq<char> {
        match *self {
            ReplayError::EmptyLog => "log file is empty"@,
            ReplayError::HeaderUnreadable => "failed to read header line"@,
            ReplayError::HeaderMalformed => "failed to parse log header"@,
            ReplayError::HeaderMissing => "expected header as first log line"@,
            ReplayError::Schema(error) => error.text(),
            ReplayError::LineUnreadable => "failed to read log line"@,
            ReplayError::LineMalformed => "failed to parse log entry"@,
        }
    }

    /// Says what went wrong.
    pub fn message(&self) -> (r: String)
        ensures
            r@ == self.text(),
    {
        match self {
            ReplayError::EmptyLog => "log file is empty".to_string(),
            ReplayError::HeaderUnreadable => "failed to read header line".to_string(),
            ReplayError::HeaderMalformed => "failed to parse log header".to_string(),
            ReplayError::HeaderMissing => "expected header as first log line".to_string(),
            ReplayError::Schema(error) => error.message(),
            ReplayError::LineUnreadable => "failed to read log line".to_string(),
            ReplayError::LineMalformed => "failed to parse log entry".to_string(),
        }
    }
}

/// What is wrong with the first line of a log, if anything is.
pub open spec fn header_error(first: Option<LineView>) -> Option<ReplayError> {
    match first {
        None => Some(ReplayError::EmptyLog),
        Some(LineView::Unreadable) => Some(ReplayError::HeaderUnreadable),
        Some(LineView::Blank) => Some(ReplayError::HeaderMalformed),
        Some(LineView::Malformed) => Some(ReplayError::HeaderMalformed),
        Some(LineView::Row(RowView::Event(_))) => Some(ReplayError::HeaderMissing),
        Some(LineView::Row(RowView::Header { schema_version, .. })) => if schema_version
            > CURRENT_SCHEMA_VERSION {
            Some(
                ReplayError::Schema(
                    DaemonError::UnsupportedSchemaVersion(schema_version, CURRENT_SCHEMA_VERSION),
                ),
            )
        } else {
            None
        },
    }
}

/// What is said of a log that is about to be replayed.
pub open spec fn banner_text(schema_version: u64, watch_dir: Seq<char>) -> Seq<char> {
    "replaying log (schema v"@ + digits(schema_version as nat) + ", watched: "@ + watch_dir + ")"@
}

/// The schema version and the watched directory of a log are named before it is replayed.
pub proof fn law_banner_names_the_log(schema_version: u64, watch_dir: Seq<char>)
    ensures
        exists|n: Seq<char>| #[trigger]
            integer_value(n) == Some(schema_version as int) && banner_text(
                schema_version,
                watch_dir,
            ) == "replaying log (schema v"@ + n + ", watched: "@ + watch_dir + ")"@,
{
    lemma_digits_value(schema_version as nat);
    assert(integer_value(digits(schema_version as nat)) == Some(schema_version as int));
}

/// Checks the first line of a log, and says what is about to be replayed.
pub fn check_header(first: Option<&LogLine>) -> (r: Result<String, ReplayError>)
    ensures
        match header_error(
            match first {
                Some(line) => Some(line@),
                None => None,
            },
        ) {
            Some(error) => r == Err::<String, ReplayError>(error),
            None => {
                &&& r is Ok
                &&& first matches Some(LogLine::Row(LogRow::Header { schema_version, watch_dir }))
                &&& r->Ok_0@ == banner_text(*schema_version, watch_dir@)
                &&& r->Ok_0@ == "replaying log (schema v"@ + digits(schema_version as nat)
                    + ", watched: "@ + watch_dir@ + ")"@
            },
        },
{
    match first {
        None => Err(ReplayError::EmptyLog),
        Some(LogLine::Unreadable) => Err(ReplayError::HeaderUnreadable),
        Some(LogLine::Blank) => Err(ReplayError::HeaderMalformed),
        Some(LogLine::Malformed) => Err(ReplayError::HeaderMalformed),
        Some(LogLine::Row(LogRow::Event(_))) => Err(ReplayError::HeaderMissing),
        Some(LogLine::Row(LogRow::Header { schema_version, watch_dir })) => {
            if *schema_version > CURRENT_SCHEMA_VERSION {
                return Err(
                    ReplayError::Schema(
                        DaemonError::UnsupportedSchemaVersion(
                            *schema_version,
                            CURRENT_SCHEMA_VERSION,
                        ),
                    ),
                );
            }
            let mut banner = "replaying log (schema v".to_string();
            banner.append(decimal(*schema_version).as_str());
            banner.append(", watched: ");
            banner.append(watch_dir.as_str());
            banner.append(")");
            Ok(banner)
        },
    }
}

/// Where a replay stops, and whether it keeps the pace of the recording.
pub struct Limits {
    /// Stop before the first entry with a higher number.
    pub until_seq: Option<u64>,
    /// Stop before the first entry that came later.
    pub until_ms: Option<u64>,
    /// Wait between entries as long as the recording did.
    pub realtime: bool,
}

impl Limits {
    /// Whether an entry lies beyond what is to be replayed.
    pub open spec fn excludes(&self, entry: EntryView) -> bool {
        ||| self.until_seq matches Some(max_seq) && entry.seq > max_seq
        ||| self.until_ms matches Some(max_ms) && entry.elapsed_ms > max_ms
    }

    /// Whether an entry lies beyond what is to be replayed.
    fn is_past(&self, entry: &LogEntry) -> (r: bool)
        ensures
            r == self.excludes(entry@),
    {
        if let Some(max_seq) = self.until_seq {
            if entry.seq > max_seq {
                return true;
            }
        }
        if let Some(max_ms) = self.until_ms {
            if entry.elapsed_ms > max_ms {
                return true;
            }
        }
        false
    }
}

/// How far a replay has come.
#[verifier::ext_equal]
pub struct Progress {
    /// The tree.
    pub files: Map<Seq<char>, Option<Seq<char>>>,
    /// The number of entries applied.
    pub count: nat,
    /// When the last entry was recorded, where the pace is kept.
    pub last_ms: Option<u64>,
    /// Whether an installation is among the entries.
    pub needs_install: bool,
}

/// How far a replay has come after a sequence of entries.
pub open spec fn progress_after(entries: Seq<EntryView>, realtime: bool) -> Progress {
    Progress {
        files: tree_after(entries),
        count: entries.len(),
        last_ms: if realtime && entries.len() > 0 {
            Some(entries.last().elapsed_ms)
        } else {
            None
        },
        needs_install: exists|i: int|
            0 <= i < entries.len() && (#[trigger] entries[i]).op == Operation::Install,
    }
}

/// How far a replay has come after one more entry.
pub open spec fn advanced(progress: Progress, entry: EntryView, realtime: bool) -> Progress {
    Progress {
        files: applied(progress.files, entry),
        count: progress.count + 1,
        last_ms: if realtime {
            Some(entry.elapsed_ms)
        } else {
            progress.last_ms
        },
        needs_install: progress.needs_install || entry.op == Operation::Install,
    }
}

/// How long to wait before an entry that comes after `last_ms`.
pub open spec fn pause(last_ms: Option<u64>, entry: EntryView, realtime: bool) -> u64 {
    match last_ms {
        Some(prev_ms) => if realtime && entry.elapsed_ms > prev_ms {
            (entry.elapsed_ms - prev_ms) as u64
        } else {
            0
        },
        None => 0,
    }
}

/// What to do about one line.
#[derive(Debug)]
pub enum Step {
    /// Nothing: the line says nothing about the tree.
    Skip,
    /// The replay ends before this line.
    Stop,
    /// The replay fails at this line.
    Fail(ReplayError),
    /// The entry on the line was applied; it is due after `wait_ms` milliseconds.
    Apply {
        /// How long to wait for it.
        wait_ms: u64,
    },
}

/// What is to be done about a line, seen from how far the replay has come.
pub open spec fn step_for(progress: Progress, limits: Limits, line: LineView) -> Step {
    match line {
        LineView::Unreadable => Step::Fail(ReplayError::LineUnreadable),
        LineView::Blank => Step::Skip,
        LineView::Malformed => Step::Fail(ReplayError::LineMalformed),
        LineView::Row(RowView::Header { .. }) => Step::Skip,
        LineView::Row(RowView::Event(entry)) => if limits.excludes(entry) {
            Step::Stop
        } else {
            Step::Apply { wait_ms: pause(progress.last_ms, entry, limits.realtime) }
        },
    }
}

/// The manifest whose dependencies are installed when all entries are applied.
pub const ROOT_MANIFEST: &'static str = "package.json";

/// What has to be done about an entry once it is applied.
#[derive(Debug, Clone, Copy, PartialEq, Eq, Structural)]
pub struct Work {
    /// Whether it is carried out in the output directory now.
    pub materialize: bool,
    /// Whether the dependencies of the manifest at its path are overridden and
    /// installed now.
    pub install: bool,
}

/// What has to be done once all entries are applied.
#[derive(Debug, Clone, Copy, PartialEq, Eq, Structural)]
pub struct Finish {
    /// Whether the files of the tree are written to the output directory.
    pub materialize_all: bool,
    /// Whether the dependencies of the manifest at the root of it are overridden and
    /// installed then.
    pub install_at_root: bool,
}

/// What has to be done about an entry with this operation once it is applied.
pub open spec fn work_of(limits: Limits, op: Operation) -> Work {
    Work {
        materialize: limits.realtime,
        install: limits.realtime && op == Operation::Install,
    }
}

/// What has to be done once all entries are applied.
pub open spec fn finish_of(limits: Limits, progress: Progress) -> Finish {
    Finish {
        materialize_all: !limits.realtime,
        install_at_root: !limits.realtime && progress.needs_install,
    }
}

/// The output is written either entry by entry or at the end, never both; and an
/// installation is done once, in the same way.
pub proof fn law_work_is_done_once(limits: Limits, op: Operation, progress: Progress)
    ensures
        work_of(limits, op).materialize <==> limits.realtime,
        work_of(limits, op).materialize <==> !finish_of(limits, progress).materialize_all,
        work_of(limits, op).install <==> limits.realtime && op is Install,
        finish_of(limits, progress).install_at_root <==> !limits.realtime && progress.needs_install,
{
}

/// A replay on its way.
pub struct Replayer {
    limits: Limits,
    files: TextMap<FileState>,
    count: u64,
    last_ms: Option<u64>,
    needs_install: bool,
}

impl View for Replayer {
    type V = Progress;

    closed spec fn view(&self) -> Progress {
        Progress {
            files: hashes(self.files),
            count: self.count as nat,
            last_ms: self.last_ms,
            needs_install: self.needs_install,
        }
    }
}

impl Replayer {
    /// The tree is a map in order.
    pub closed spec fn wf(&self) -> bool {
        self.files.wf()
    }

    /// What the replay is held to.
    pub closed spec fn held_to(&self) -> Limits {
        self.limits
    }

    /// A replay that has applied nothing yet.
    pub fn new(limits: Limits) -> (r: Replayer)
        ensures
            r.wf(),
            r.held_to() == limits,
            r@ == progress_after(Seq::empty(), limits.realtime),
    {
        let r = Replayer {
            limits,
            files: TextMap::new(),
            count: 0,
            last_ms: None,
            needs_install: false,
        };
        assert(hashes(r.files) =~= Map::empty());
        r
    }

    /// Takes the next line of the log, behind the header.
    pub fn step(&mut self, line: &LogLine) -> (r: Step)
        requires
            old(self).wf(),
            old(self)@.count < u64::MAX,
        ensures
            final(self).wf(),
            final(self).held_to() == old(self).held_to(),
            r == step_for(old(self)@, old(self).held_to(), line@),
            r is Apply ==> (line@ matches LineView::Row(RowView::Event(entry)) && final(self)@
                == advanced(old(self)@, entry, old(self).held_to().realtime)),
            r !is Apply ==> final(self)@ == old(self)@,
    {
        match line {
            LogLine::Unreadable => Step::Fail(ReplayError::LineUnreadable),
            LogLine::Blank => Step::Skip,
            LogLine::Malformed => Step::Fail(ReplayError::LineMalformed),
            LogLine::Row(LogRow::Header { .. }) => Step::Skip,
            LogLine::Row(LogRow::Event(entry)) => {
                if self.limits.is_past(entry) {
                    return Step::Stop;
                }
                let mut wait_ms: u64 = 0;
                if self.limits.realtime {
                    if let Some(prev_ms) = self.last_ms {
                        wait_ms = entry.elapsed_ms.saturating_sub(prev_ms);
                    }
                    self.last_ms = Some(entry.elapsed_ms);
                }
                apply_entry(&mut self.files, entry);
                self.count = self.count + 1;
                if entry.op == Operation::Install {
                    self.needs_install = true;
                }
                Step::Apply { wait_ms }
            },
        }
    }

    /// The tree as it stands.
    pub fn files(&self) -> (r: &TextMap<FileState>)
        requires
            self.wf(),
        ensures
            r.wf(),
            hashes(*r) == self@.files,
    {
        &self.files
    }

    /// What has to be done about an entry once it is applied.
    pub fn work_after(&self, entry: &LogEntry) -> (r: Work)
        ensures
            r == work_of(self.held_to(), entry.op),
            r.materialize == self.held_to().realtime,
            r.install == (self.held_to().realtime && entry.op == Operation::Install),
    {
        Work {
            materialize: self.limits.realtime,
            install: self.limits.realtime && entry.op == Operation::Install,
        }
    }

    /// What has to be done once all entries are applied.
    pub fn finish(&self) -> (r: Finish)
        ensures
            r == finish_of(self.held_to(), self@),
            r.materialize_all == !self.held_to().realtime,
            r.install_at_root == (!self.held_to().realtime && self@.needs_install),
    {
        Finish {
            materialize_all: !self.limits.realtime,
            install_at_root: !self.limits.realtime && self.needs_install,
        }
    }

    /// The number of entries applied.
    pub fn count(&self) -> (r: u64)
        ensures
            r == self@.count,
    {
        self.count
    }

    /// Whether an installation is among the entries applied.
    pub fn needs_install(&self) -> (r: bool)
        ensures
            r == self@.needs_install,
    {
        self.needs_install
    }
}

/// The lines, with their texts as sequences.
pub open spec fn line_views(lines: Seq<LogLine>) -> Seq<LineView> {
    lines.map_values(|line: LogLine| line@)
}

/// The lines that rows are written on.
pub open spec fn lines_of(rows: Seq<RowView>) -> Seq<LineView> {
    rows.map_values(|row: RowView| LineView::Row(row))
}

/// The entries on the lines.
pub open spec fn entries_on(lines: Seq<LineView>) -> Seq<EntryView>
    decreases lines.len(),
{
    if lines.len() == 0 {
        Seq::empty()
    } else {
        let before = entries_on(lines.drop_last());
        match lines.last() {
            LineView::Row(RowView::Event(entry)) => before.push(entry),
            _ => before,
        }
    }
}

/// Whether a replay does not get past a line.
pub open spec fn ends_at(line: LineView, limits: Limits) -> bool {
    match line {
        LineView::Unreadable | LineView::Malformed => true,
        LineView::Blank => false,
        LineView::Row(RowView::Header { .. }) => false,
        LineView::Row(RowView::Event(entry)) => limits.excludes(entry),
    }
}

/// The number of lines before the first one that a replay does not get past.
pub open spec fn end_of(lines: Seq<LineView>, limits: Limits) -> nat
    decreases lines.len(),
{
    if lines.len() == 0 || ends_at(lines[0], limits) {
        0
    } else {
        1 + end_of(lines.drop_first(), limits)
    }
}

/// What a whole log comes to.
pub open spec fn replayed(lines: Seq<LineView>, limits: Limits) -> Result<Progress, ReplayError> {
    let first = if lines.len() > 0 {
        Some(lines[0])
    } else {
        None
    };
    match header_error(first) {
        Some(error) => Err(error),
        None => {
            let body = lines.drop_first();
            let end = end_of(body, limits) as int;
            if end < body.len() && body[end] is Unreadable {
                Err(ReplayError::LineUnreadable)
            } else if end < body.len() && body[end] is Malformed {
                Err(ReplayError::LineMalformed)
            } else {
                Ok(progress_after(entries_on(body.take(end)), limits.realtime))
            }
        },
    }
}

/// The end is the place that a replay reaches without being stopped before.
pub proof fn lemma_end_of(lines: Seq<LineView>, limits: Limits, at: int)
    requires
        0 <= at <= lines.len(),
        forall|i: int| 0 <= i < at ==> !ends_at(#[trigger] lines[i], limits),
        at < lines.len() ==> ends_at(lines[at], limits),
    ensures
        end_of(lines, limits) == at,
    decreases lines.len(),
{
    if at > 0 {
        assert(!ends_at(lines[0], limits));
        let rest = lines.drop_first();
        assert forall|i: int| 0 <= i < at - 1 implies !ends_at(#[trigger] rest[i], limits) by {
            assert(rest[i] == lines[i + 1]);
        }
        lemma_end_of(rest, limits, at - 1);
    }
}

/// The end lies behind lines that a replay gets past, and before one it does not.
pub proof fn lemma_at_end(lines: Seq<LineView>, limits: Limits)
    ensures
        end_of(lines, limits) <= lines.len(),
        forall|i: int| 0 <= i < end_of(lines, limits) ==> !ends_at(#[trigger] lines[i], limits),
        end_of(lines, limits) < lines.len() ==> ends_at(
            lines[end_of(lines, limits) as int],
            limits,
        ),
    decreases lines.len(),
{
    if lines.len() > 0 && !ends_at(lines[0], limits) {
        let rest = lines.drop_first();
        lemma_at_end(rest, limits);
        assert forall|i: int| 0 <= i < end_of(lines, limits) implies !ends_at(
            #[trigger] lines[i],
            limits,
        ) by {
            if i > 0 {
                assert(rest[i - 1] == lines[i]);
            }
        }
    }
}

/// One more entry advances a replay by that entry.
pub proof fn lemma_progress_push(entries: Seq<EntryView>, entry: EntryView, realtime: bool)
    ensures
        progress_after(entries.push(entry), realtime) == advanced(
            progress_after(entries, realtime),
            entry,
            realtime,
        ),
{
    let more = entries.push(entry);
    assert(more.drop_last() =~= entries);
    assert(more.last() == entry);
    let a = progress_after(more, realtime);
    let b = advanced(progress_after(entries, realtime), entry, realtime);
    if a.needs_install {
        let i = choose|i: int|
            0 <= i < more.len() && (#[trigger] more[i]).op == Operation::Install;
        if i < entries.len() {
            assert(entries[i].op == Operation::Install);
        }
    }
    if b.needs_install {
        if entry.op == Operation::Install {
            assert(more[entries.len() as int].op == Operation::Install);
        } else {
            let i = choose|i: int|
                0 <= i < entries.len() && (#[trigger] entries[i]).op == Operation::Install;
            assert(more[i].op == Operation::Install);
        }
    }
    assert(a =~= b);
}

/// Replays a whole log.
pub fn replay(lines: &Vec<LogLine>, limits: Limits) -> (r: Result<Replayer, ReplayError>)
    ensures
        match replayed(line_views(lines@), limits) {
            Ok(progress) => r is Ok && r->Ok_0.wf() && r->Ok_0.held_to() == limits && r->Ok_0@
                == progress,
            Err(error) => r == Err::<Replayer, ReplayError>(error),
        },
{
    let ghost views = line_views(lines@);
    let first = if lines.len() > 0 {
        Some(&lines[0])
    } else {
        None
    };
    match check_header(first) {
        Ok(_) => {},
        Err(error) => {
            return Err(error);
        },
    }
    let ghost body = views.drop_first();
    let mut replayer = Replayer::new(limits);
    let mut at: usize = 1;
    assert(body.take(0) =~= Seq::<LineView>::empty());
    while at < lines.len()
        invariant
            views == line_views(lines@),
            body == views.drop_first(),
            header_error(Some(views[0])) is None,
            1 <= at <= lines.len(),
            replayer.wf(),
            replayer.held_to() == limits,
            replayer@ == progress_after(entries_on(body.take(at - 1)), limits.realtime),
            replayer@.count <= at - 1,
            forall|i: int| 0 <= i < at - 1 ==> !ends_at(#[trigger] body[i], limits),
        decreases lines.len() - at,
    {
        let ghost line = body[at - 1];
        assert(line == lines@[at as int]@);
        let ghost before = body.take(at - 1);
        proof {
            assert(body.take(at as int).drop_last() =~= before);
            assert(body.take(at as int).last() == line);
        }
        match replayer.step(&lines[at]) {
            Step::Skip => {},
            Step::Stop => {
                proof {
                    lemma_end_of(body, limits, at - 1);
                }
                return Ok(replayer);
            },
            Step::Fail(error) => {
                proof {
                    lemma_end_of(body, limits, at - 1);
                }
                return Err(error);
            },
            Step::Apply { .. } => {
                proof {
                    let entry = line->Row_0->Event_0;
                    lemma_progress_push(entries_on(before), entry, limits.realtime);
                }
            },
        }
        at = at + 1;
    }
    proof {
        lemma_end_of(body, limits, at - 1);
    }
    Ok(replayer)
}

/// What is known of the tree is the content of every path in it.
pub proof fn law_state_holds_the_tree(state: TextMap<FileState>, path: Seq<char>)
    ensures
        hashes(state).dom().contains(path) <==> state@.dom().contains(path),
        state@.dom().contains(path) ==> hashes(state)[path] == opt_text(state@[path].content_hash),
{
}

/// Each error of a replay says what it is.
pub proof fn law_replay_errors_say_what_they_are(error: ReplayError)
    ensures
        error is EmptyLog ==> error.text() == "log file is empty"@,
        error is HeaderUnreadable ==> error.text() == "failed to read header line"@,
        error is HeaderMalformed ==> error.text() == "failed to parse log header"@,
        error is HeaderMissing ==> error.text() == "expected header as first log line"@,
        error matches ReplayError::Schema(inner) ==> error.text() == inner.text(),
        error is LineUnreadable ==> error.text() == "failed to read log line"@,
        error is LineMalformed ==> error.text() == "failed to parse log entry"@,
{
}

} // verus!
