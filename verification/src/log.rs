//! The rows of the log, and the one who numbers them.
use std::path::Path;

use vstd::prelude::*;
use vstd::utf8::{decode_utf8, valid_utf8};

use crate::paths::{lossy, path_bytes, to_string_lossy};
use crate::replay::{LineView, LogLine, entries_on, line_views, lines_of};
use crate::text::opt_text;

verus! {

/// The schema version of the logs that are written, and the highest one that can
/// be read.
pub const CURRENT_SCHEMA_VERSION: u64 = 1;

/// One row of the log.
#[derive(Debug)]
pub enum LogRow {
    /// The first row.
    Header {
        /// The schema version of the rows.
        schema_version: u64,
        /// The directory that was watched.
        watch_dir: String,
    },
    /// Any other row.
    Event(LogEntry),
}

/// One recorded operation.
#[derive(Debug, Clone)]
pub struct LogEntry {
    /// The number of the entry; the first one is 1.
    pub seq: u64,
    /// Milliseconds since the recording started.
    pub elapsed_ms: u64,
    /// What was done.
    pub op: Operation,
    /// The path it was done to, relative to the watched directory.
    pub path: String,
    /// Where a rename leads.
    pub dest_path: Option<String>,
    /// The name of the content in the blob store, where there is a snapshot.
    pub content_hash: Option<String>,
    /// The size in bytes, where there is a snapshot.
    pub size: Option<u64>,
}

/// What can be done to a path.
#[derive(Debug, Clone, Copy, PartialEq, Eq, Structural)]
pub enum Operation {
    /// A path came to be.
    Create,
    /// The content of a file changed.
    Modify,
    /// A path ceased to be.
    Delete,
    /// A path got another name.
    Rename,
    /// The dependencies of the package at the path were installed.
    Install,
}

/// A log entry, with its texts as sequences.
#[verifier::ext_equal]
pub struct EntryView {
    pub seq: u64,
    pub elapsed_ms: u64,
    pub op: Operation,
    pub path: Seq<char>,
    pub dest_path: Option<Seq<char>>,
    pub content_hash: Option<Seq<char>>,
    pub size: Option<u64>,
}

/// A log row, with its texts as sequences.
#[verifier::ext_equal]
pub enum RowView {
    Header { schema_version: u64, watch_dir: Seq<char> },
    Event(EntryView),
}

impl View for LogEntry {
    type V = EntryView;

    open spec fn view(&self) -> EntryView {
        EntryView {
            seq: self.seq,
            elapsed_ms: self.elapsed_ms,
            op: self.op,
            path: self.path@,
            dest_path: opt_text(self.dest_path),
            content_hash: opt_text(self.content_hash),
            size: self.size,
        }
    }
}

impl View for LogRow {
    type V = RowView;

    open spec fn view(&self) -> RowView {
        match *self {
            LogRow::Header { schema_version, watch_dir } => RowView::Header {
                schema_version,
                watch_dir: watch_dir@,
            },
            LogRow::Event(entry) => RowView::Event(entry@),
        }
    }
}

/// The row of the entry that comes after the one with the number `last_seq`.
pub open spec fn appended(
    last_seq: u64,
    elapsed_ms: u64,
    op: Operation,
    path: Seq<char>,
    dest_path: Option<Seq<char>>,
    content_hash: Option<Seq<char>>,
    size: Option<u64>,
) -> RowView {
    RowView::Event(
        EntryView {
            seq: (last_seq + 1) as u64,
            elapsed_ms,
            op,
            path,
            dest_path,
            content_hash,
            size,
        },
    )
}

/// An appended row is an entry under the next number that holds what it was made of.
pub proof fn law_rows_hold_what_was_appended(
    last_seq: u64,
    elapsed_ms: u64,
    op: Operation,
    path: Seq<char>,
    dest_path: Option<Seq<char>>,
    content_hash: Option<Seq<char>>,
    size: Option<u64>,
)
    requires
        last_seq < u64::MAX,
    ensures
        appended(last_seq, elapsed_ms, op, path, dest_path, content_hash, size) matches
            RowView::Event(entry) && {
            &&& entry.seq == last_seq + 1
            &&& entry.elapsed_ms == elapsed_ms
            &&& entry.op == op
            &&& entry.path == path
            &&& entry.dest_path == dest_path
            &&& entry.content_hash == content_hash
            &&& entry.size == size
        },
{
}

/// The highest number among the entries, 0 where there is none.
pub open spec fn highest_seq(entries: Seq<EntryView>) -> u64
    decreases entries.len(),
{
    if entries.len() == 0 {
        0
    } else {
        let before = highest_seq(entries.drop_last());
        if entries.last().seq > before {
            entries.last().seq
        } else {
            before
        }
    }
}

/// Whether a row is a header of the current version that names the watched
/// directory, by what its bytes encode where they are UTF-8.
pub open spec fn is_header_for(row: RowView, watch_dir: Seq<u8>) -> bool {
    &&& row == (RowView::Header {
        schema_version: CURRENT_SCHEMA_VERSION,
        watch_dir: lossy(watch_dir),
    })
    &&& valid_utf8(watch_dir) ==> lossy(watch_dir) == decode_utf8(watch_dir)
}

/// Makes a header.
fn new_header(watch_dir: &Path) -> (r: LogRow)
    ensures
        is_header_for(r@, path_bytes(watch_dir)),
{
    LogRow::Header {
        schema_version: CURRENT_SCHEMA_VERSION,
        watch_dir: to_string_lossy(watch_dir),
    }
}

/// Numbers the entries of a log.
pub struct LogWriter {
    seq: u64,
}

impl LogWriter {
    /// The number of the last entry, 0 before the first one.
    pub closed spec fn last_seq(&self) -> u64 {
        self.seq
    }

    /// Starts a log that holds nothing yet: a writer that has written no entry, and
    /// the header row.
    pub fn create(watch_dir: &Path) -> (r: (LogWriter, LogRow))
        ensures
            r.0.last_seq() == 0,
            is_header_for(r.1@, path_bytes(watch_dir)),
    {
        (LogWriter { seq: 0 }, new_header(watch_dir))
    }

    /// Goes on with a log that holds these lines: a writer that numbers on from the
    /// highest number among them, and the header row of the new start.
    pub fn resume(lines: &Vec<LogLine>, watch_dir: &Path) -> (r: (LogWriter, LogRow))
        ensures
            r.0.last_seq() == highest_seq(entries_on(line_views(lines@))),
            is_header_for(r.1@, path_bytes(watch_dir)),
    {
        let ghost views = line_views(lines@);
        let mut seq: u64 = 0;
        let mut at: usize = 0;
        assert(views.take(0) =~= Seq::<LineView>::empty());
        while at < lines.len()
            invariant
                at <= lines@.len(),
                views == line_views(lines@),
                seq == highest_seq(entries_on(views.take(at as int))),
            decreases lines@.len() - at,
        {
            let ghost before = entries_on(views.take(at as int));
            proof {
                assert(views.take(at + 1).drop_last() =~= views.take(at as int));
                assert(views.take(at + 1).last() == lines@[at as int]@);
            }
            if let LogLine::Row(LogRow::Event(entry)) = &lines[at] {
                assert(before.push(entry@).drop_last() =~= before);
                if entry.seq > seq {
                    seq = entry.seq;
                }
            }
            at = at + 1;
        }
        assert(views.take(at as int) =~= views);
        (LogWriter { seq }, new_header(watch_dir))
    }

    /// Makes the row of the next entry.
    pub fn append(
        &mut self,
        elapsed_ms: u64,
        op: Operation,
        path: String,
        dest_path: Option<String>,
        content_hash: Option<String>,
        size: Option<u64>,
    ) -> (r: LogRow)
        requires
            old(self).last_seq() < u64::MAX,
        ensures
            final(self).last_seq() == old(self).last_seq() + 1,
            r@ == appended(
                old(self).last_seq(),
                elapsed_ms,
                op,
                path@,
                opt_text(dest_path),
                opt_text(content_hash),
                size,
            ),
            r@ == RowView::Event(
                (EntryView {
                    seq: final(self).last_seq(),
                    elapsed_ms,
                    op,
                    path: path@,
                    dest_path: opt_text(dest_path),
                    content_hash: opt_text(content_hash),
                    size,
                }),
            ),
    {
        self.seq = self.seq + 1;
        LogRow::Event(
            LogEntry { seq: self.seq, elapsed_ms, op, path, dest_path, content_hash, size },
        )
    }

    /// The number of the last entry, 0 before the first one.
    pub fn seq(&self) -> (r: u64)
        ensures
            r == self.last_seq(),
    {
        self.seq
    }
}

/// A header of the current version, then entries numbered from 1 without a gap; the
/// headers of later starts may stand among them.
pub open spec fn is_recording(rows: Seq<RowView>) -> bool {
    let entries = entries_on(lines_of(rows));
    &&& rows.len() > 0
    &&& rows[0] is Header
    &&& rows[0]->schema_version == CURRENT_SCHEMA_VERSION
    &&& forall|i: int| 0 <= i < entries.len() ==> (#[trigger] entries[i]).seq == i + 1
}

/// Whether these are the rows of a recording whose last entry has the number
/// `last_seq`.
pub open spec fn has_written(last_seq: u64, rows: Seq<RowView>) -> bool {
    is_recording(rows) && entries_on(lines_of(rows)).len() == last_seq
}

/// The header that a writer starts with is a recording without entries.
pub proof fn law_header_starts_recording(watch_dir: Seq<char>)
    ensures
        has_written(
            0,
            seq![RowView::Header { schema_version: CURRENT_SCHEMA_VERSION, watch_dir }],
        ),
{
    let rows = seq![RowView::Header { schema_version: CURRENT_SCHEMA_VERSION, watch_dir }];
    assert(lines_of(rows).last() == LineView::Row(rows[0]));
    assert(lines_of(rows).drop_last() =~= Seq::<LineView>::empty());
    reveal_with_fuel(entries_on, 2);
}

/// The sequence numbers of a log increase by one from entry to entry: what a writer
/// appends to its recording, under the next number, makes a recording.
pub proof fn law_append_extends_recording(last_seq: u64, rows: Seq<RowView>, entry: EntryView)
    requires
        has_written(last_seq, rows),
        last_seq < u64::MAX,
        entry.seq == last_seq + 1,
    ensures
        has_written(entry.seq, rows.push(RowView::Event(entry))),
{
    let more = rows.push(RowView::Event(entry));
    assert(lines_of(more).drop_last() =~= lines_of(rows));
    assert(lines_of(more).last() == LineView::Row(RowView::Event(entry)));
}

/// The daemon can be started again on the same log: the header of the new start
/// makes a recording, and the writer that goes on with it goes on with its numbers.
pub proof fn law_restart_extends_recording(
    last_seq: u64,
    rows: Seq<RowView>,
    schema_version: u64,
    watch_dir: Seq<char>,
)
    requires
        has_written(last_seq, rows),
    ensures
        highest_seq(entries_on(lines_of(rows))) == last_seq,
        has_written(last_seq, rows.push(RowView::Header { schema_version, watch_dir })),
{
    let more = rows.push(RowView::Header { schema_version, watch_dir });
    assert(lines_of(more).drop_last() =~= lines_of(rows));
    assert(lines_of(more).last() == LineView::Row(
        RowView::Header { schema_version, watch_dir },
    ));
    lemma_highest_is_last(entries_on(lines_of(rows)));
}

/// Of entries that are numbered from 1 without a gap the last has the highest number.
proof fn lemma_highest_is_last(entries: Seq<EntryView>)
    requires
        forall|i: int| 0 <= i < entries.len() ==> (#[trigger] entries[i]).seq == i + 1,
    ensures
        highest_seq(entries) == entries.len(),
    decreases entries.len(),
{
    if entries.len() > 0 {
        let front = entries.drop_last();
        assert forall|i: int| 0 <= i < front.len() implies (#[trigger] front[i]).seq == i + 1 by {
            assert(front[i] == entries[i]);
        }
        lemma_highest_is_last(front);
        assert(entries[entries.len() - 1].seq == entries.len());
    }
}

/// The sequence number is monotonically increasing in a log, whatever it holds: what
/// is appended after going on with it has a greater number than every entry in it.
pub proof fn law_resumed_numbers_are_greater(
    last_seq: u64,
    entries: Seq<EntryView>,
    entry: EntryView,
)
    requires
        last_seq >= highest_seq(entries),
        entry.seq == last_seq + 1,
    ensures
        forall|i: int| 0 <= i < entries.len() ==> (#[trigger] entries[i]).seq < entry.seq,
        highest_seq(entries.push(entry)) == entry.seq,
    decreases entries.len(),
{
    assert(entries.push(entry).drop_last() =~= entries);
    if entries.len() > 0 {
        let front = entries.drop_last();
        law_resumed_numbers_are_greater(last_seq, front, entry);
        assert forall|i: int| 0 <= i < entries.len() implies (#[trigger] entries[i]).seq
            < entry.seq by {
            if i < front.len() {
                assert(front[i] == entries[i]);
            }
        }
    }
}

/// The highest number is that of an entry, and no entry has a higher one.
pub proof fn law_highest_number(entries: Seq<EntryView>)
    ensures
        forall|i: int| 0 <= i < entries.len() ==> (#[trigger] entries[i]).seq <= highest_seq(entries),
        entries.len() > 0 ==> exists|i: int|
            0 <= i < entries.len() && (#[trigger] entries[i]).seq == highest_seq(entries),
        entries.len() == 0 ==> highest_seq(entries) == 0,
    decreases entries.len(),
{
    if entries.len() > 0 {
        let front = entries.drop_last();
        law_highest_number(front);
        assert forall|i: int| 0 <= i < entries.len() implies (#[trigger] entries[i]).seq
            <= highest_seq(entries) by {
            if i < front.len() {
                assert(front[i] == entries[i]);
            }
        }
        assert(entries[entries.len() - 1].seq == entries.last().seq);
        if entries.last().seq <= highest_seq(front) && front.len() > 0 {
            let i = choose|i: int|
                0 <= i < front.len() && (#[trigger] front[i]).seq == highest_seq(front);
            assert(entries[i].seq == highest_seq(entries));
        }
    }
}

/// A header names the current schema and the watched directory.
pub proof fn law_headers_name_the_directory(row: RowView, watch_dir: Seq<u8>)
    requires
        is_header_for(row, watch_dir),
    ensures
        row matches RowView::Header { schema_version, watch_dir: name } && schema_version
            == CURRENT_SCHEMA_VERSION && name == lossy(watch_dir) && (valid_utf8(watch_dir)
            ==> name == decode_utf8(watch_dir)),
{
}

} // verus!
