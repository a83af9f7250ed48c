//! What holds of recording and replaying as a whole.
use vstd::prelude::*;

use crate::blobs::{content_name, is_content_name, lemma_plain_content_name};
use crate::daemon::snapshot::{
    Store, after_snapshot, is_content_addressed, law_snapshots_are_found_again,
};
use crate::error::DaemonError;
use crate::log::{CURRENT_SCHEMA_VERSION, EntryView, Operation, RowView, is_recording};
use crate::materialize::{write_of, writes_of};
use crate::output::{
    Places, after_writes, disturbs, is_file, law_tree_is_materialized, place_of, tree_stays_below,
};
use crate::replay::{
    FileState, Limits, LineView, Progress, ReplayError, Step, advanced, applied, end_of, ends_at,
    entries_on, hashes, header_error, lemma_at_end, lemma_end_of, lemma_progress_push, lines_of,
    pause, progress_after, replayed, step_for, tree_after,
};
use crate::text::text_less;
use crate::text_map::TextMap;

verus! {

broadcast use vstd::seq_lib::group_seq_properties;

/// The tree after a sequence of entries, starting from `files`.
pub open spec fn tree_from(
    files: Map<Seq<char>, Option<Seq<char>>>,
    entries: Seq<EntryView>,
) -> Map<Seq<char>, Option<Seq<char>>>
    decreases entries.len(),
{
    if entries.len() == 0 {
        files
    } else {
        applied(tree_from(files, entries.drop_last()), entries.last())
    }
}

/// Replaying one stretch of a log and then the next is replaying both.
pub proof fn law_replay_composes(first: Seq<EntryView>, second: Seq<EntryView>)
    ensures
        tree_after(first + second) == tree_from(tree_after(first), second),
    decreases second.len(),
{
    if second.len() == 0 {
        assert(first + second =~= first);
    } else {
        assert((first + second).drop_last() =~= first + second.drop_last());
        assert((first + second).last() == second.last());
        law_replay_composes(first, second.drop_last());
    }
}

/// An entry leaves every path alone that it does not name.
pub proof fn law_other_paths_stay(
    files: Map<Seq<char>, Option<Seq<char>>>,
    entry: EntryView,
    path: Seq<char>,
)
    requires
        path != entry.path,
        entry.dest_path != Some(path),
    ensures
        applied(files, entry).dom().contains(path) == files.dom().contains(path),
        files.dom().contains(path) ==> applied(files, entry)[path] == files[path],
{
}

/// After a create or a modify the path exists with the content of that entry.
pub proof fn law_last_write_wins(files: Map<Seq<char>, Option<Seq<char>>>, entry: EntryView)
    requires
        entry.op == Operation::Create || entry.op == Operation::Modify,
    ensures
        applied(files, entry).dom().contains(entry.path),
        applied(files, entry)[entry.path] == entry.content_hash,
{
}

/// After a delete the path does not exist, and deleting it again changes nothing.
pub proof fn law_delete_removes(files: Map<Seq<char>, Option<Seq<char>>>, entry: EntryView)
    requires
        entry.op == Operation::Delete,
    ensures
        !applied(files, entry).dom().contains(entry.path),
        applied(applied(files, entry), entry) == applied(files, entry),
{
    assert(files.remove(entry.path).remove(entry.path) =~= files.remove(entry.path));
}

/// What is created and then deleted leaves the tree as it was.
pub proof fn law_delete_undoes_create(
    files: Map<Seq<char>, Option<Seq<char>>>,
    create: EntryView,
    delete: EntryView,
)
    requires
        create.op == Operation::Create,
        delete.op == Operation::Delete,
        create.path == delete.path,
        !files.dom().contains(create.path),
    ensures
        applied(applied(files, create), delete) == files,
{
    assert(files.insert(create.path, create.content_hash).remove(create.path) =~= files);
}

/// A rename moves what is known of the content to the new path.
pub proof fn law_rename_moves(
    files: Map<Seq<char>, Option<Seq<char>>>,
    entry: EntryView,
    dest: Seq<char>,
)
    requires
        entry.op == Operation::Rename,
        entry.dest_path == Some(dest),
        entry.content_hash is None,
        files.dom().contains(entry.path),
    ensures
        applied(files, entry).dom().contains(dest),
        applied(files, entry)[dest] == files[entry.path],
        entry.path != dest ==> !applied(files, entry).dom().contains(entry.path),
{
}

/// A rename and the rename back leave the tree as it was, where nothing was at
/// the new path.
pub proof fn law_rename_back_undoes(
    files: Map<Seq<char>, Option<Seq<char>>>,
    there: EntryView,
    back: EntryView,
)
    requires
        there.op == Operation::Rename,
        back.op == Operation::Rename,
        there.dest_path == Some(back.path),
        back.dest_path == Some(there.path),
        there.content_hash is None,
        back.content_hash is None,
        files.dom().contains(there.path),
        !files.dom().contains(back.path),
    ensures
        applied(applied(files, there), back) == files,
{
    let hash = files[there.path];
    assert(files.remove(there.path).insert(back.path, hash).remove(back.path).insert(
        there.path,
        hash,
    ) =~= files);
}

/// A log of a later schema is refused, whatever comes behind its header and
/// wherever the replay was to stop.
pub proof fn law_later_schema_is_refused(
    lines: Seq<LineView>,
    limits: Limits,
    schema_version: u64,
    watch_dir: Seq<char>,
)
    requires
        lines.len() > 0,
        lines[0] == LineView::Row(RowView::Header { schema_version, watch_dir }),
        schema_version > CURRENT_SCHEMA_VERSION,
    ensures
        replayed(lines, limits) == Err::<Progress, ReplayError>(
            ReplayError::Schema(
                DaemonError::UnsupportedSchemaVersion(schema_version, CURRENT_SCHEMA_VERSION),
            ),
        ),
{
}

/// A replay does not look at what comes behind the line where it ends.
pub proof fn law_nothing_behind_the_end_counts(
    lines: Seq<LineView>,
    more: Seq<LineView>,
    limits: Limits,
)
    requires
        lines.len() > 0,
        end_of(lines.drop_first(), limits) < lines.len() - 1,
    ensures
        replayed(lines + more, limits) == replayed(lines, limits),
{
    let body = lines.drop_first();
    let longer = (lines + more).drop_first();
    assert(longer =~= body + more);
    let end = end_of(body, limits) as int;
    lemma_at_end(body, limits);
    assert forall|i: int| 0 <= i < end implies !ends_at(#[trigger] longer[i], limits) by {
        assert(longer[i] == body[i]);
    }
    lemma_end_of(longer, limits, end);
    assert(longer.take(end) =~= body.take(end));
}

/// No line is unreadable or malformed.
pub open spec fn all_well_formed(lines: Seq<LineView>) -> bool {
    forall|i: int|
        0 <= i < lines.len() ==> !(#[trigger] lines[i] is Unreadable) && !(lines[i] is Malformed)
}

/// No entry has a smaller number than one before it.
pub open spec fn numbers_in_order(entries: Seq<EntryView>) -> bool {
    forall|i: int, j: int|
        0 <= i <= j < entries.len() ==> (#[trigger] entries[i]).seq <= (#[trigger] entries[j]).seq
}

/// No entry came earlier than one before it.
pub open spec fn times_in_order(entries: Seq<EntryView>) -> bool {
    forall|i: int, j: int|
        0 <= i <= j < entries.len() ==> (#[trigger] entries[i]).elapsed_ms <= (
        #[trigger] entries[j]).elapsed_ms
}

/// The entries on the lines that a replay gets past are the first ones.
proof fn lemma_entries_prefix(lines: Seq<LineView>, at: int)
    requires
        0 <= at <= lines.len(),
    ensures
        entries_on(lines.take(at)).len() <= entries_on(lines).len(),
        entries_on(lines.take(at)) =~= entries_on(lines).take(
            entries_on(lines.take(at)).len() as int,
        ),
    decreases lines.len(),
{
    if at == lines.len() {
        assert(lines.take(at) =~= lines);
    } else {
        lemma_entries_prefix(lines.drop_last(), at);
        assert(lines.drop_last().take(at) =~= lines.take(at));
    }
}

/// Filtering keeps a whole sequence whose every entry is admitted.
proof fn lemma_filter_all(entries: Seq<EntryView>, admits: spec_fn(EntryView) -> bool)
    requires
        forall|i: int| 0 <= i < entries.len() ==> admits(#[trigger] entries[i]),
    ensures
        entries.filter(admits) == entries,
    decreases entries.len(),
{
    reveal(Seq::filter);
    if entries.len() > 0 {
        lemma_filter_all(entries.drop_last(), admits);
        assert(entries.drop_last().push(entries.last()) =~= entries);
        assert(admits(entries[entries.len() - 1]));
    }
    assert(entries.filter(admits) =~= entries);
}

/// Filtering keeps the first entries where these alone are admitted.
proof fn lemma_filter_prefix(entries: Seq<EntryView>, admits: spec_fn(EntryView) -> bool, n: int)
    requires
        0 <= n <= entries.len(),
        forall|i: int| 0 <= i < n ==> admits(#[trigger] entries[i]),
        forall|i: int| n <= i < entries.len() ==> !admits(#[trigger] entries[i]),
    ensures
        entries.filter(admits) == entries.take(n),
    decreases entries.len(),
{
    reveal(Seq::filter);
    if n == entries.len() {
        lemma_filter_all(entries, admits);
        assert(entries.take(n) =~= entries);
    } else {
        assert(!admits(entries[entries.len() - 1]));
        lemma_filter_prefix(entries.drop_last(), admits, n);
        assert(entries.drop_last().take(n) =~= entries.take(n));
    }
}

/// The entries before the end are not excluded by the limits.
proof fn lemma_before_the_end(lines: Seq<LineView>, limits: Limits)
    requires
        forall|i: int| 0 <= i < lines.len() ==> !ends_at(#[trigger] lines[i], limits),
    ensures
        forall|i: int|
            0 <= i < entries_on(lines).len() ==> !limits.excludes(#[trigger] entries_on(lines)[i]),
    decreases lines.len(),
{
    if lines.len() > 0 {
        let front = lines.drop_last();
        assert forall|i: int| 0 <= i < front.len() implies !ends_at(#[trigger] front[i], limits) by {
            assert(front[i] == lines[i]);
        }
        lemma_before_the_end(front, limits);
        assert(!ends_at(lines[lines.len() - 1], limits));
        assert forall|i: int| 0 <= i < entries_on(lines).len() implies !limits.excludes(
            #[trigger] entries_on(lines)[i],
        ) by {
            if i < entries_on(front).len() {
                assert(entries_on(lines)[i] == entries_on(front)[i]);
            }
        }
    }
}

/// An entry on a line is the entry at the place that the lines before it leave.
proof fn lemma_entry_at(lines: Seq<LineView>, at: int)
    requires
        0 <= at < lines.len(),
        lines[at] matches LineView::Row(RowView::Event(_)),
    ensures
        entries_on(lines.take(at)).len() < entries_on(lines).len(),
        entries_on(lines)[entries_on(lines.take(at)).len() as int] == lines[at]->Row_0->Event_0,
{
    let n = entries_on(lines.take(at)).len();
    assert(lines.take(at + 1).drop_last() =~= lines.take(at));
    assert(lines.take(at + 1).last() == lines[at]);
    lemma_entries_prefix(lines, at + 1);
    let prefix = entries_on(lines.take(at + 1));
    assert(prefix == entries_on(lines.take(at)).push(lines[at]->Row_0->Event_0));
    assert(prefix[n as int] == entries_on(lines)[n as int]);
}

/// A log without bad lines can be replayed to any point of it: what is applied is
/// every entry that the limits admit, where the entries are in the order of what the
/// limits are about.
pub proof fn law_replay_to_a_point(lines: Seq<LineView>, limits: Limits)
    requires
        lines.len() > 0,
        header_error(Some(lines[0])) is None,
        all_well_formed(lines.drop_first()),
        limits.until_seq is Some ==> numbers_in_order(entries_on(lines.drop_first())),
        limits.until_ms is Some ==> times_in_order(entries_on(lines.drop_first())),
    ensures
        replayed(lines, limits) == Ok::<_, ReplayError>(
            progress_after(
                entries_on(lines.drop_first()).filter(|entry: EntryView| !limits.excludes(entry)),
                limits.realtime,
            ),
        ),
{
    let body = lines.drop_first();
    let entries = entries_on(body);
    let end = end_of(body, limits) as int;
    let admits = |entry: EntryView| !limits.excludes(entry);
    lemma_at_end(body, limits);
    lemma_entries_prefix(body, end);
    let n = entries_on(body.take(end)).len() as int;
    assert forall|i: int| 0 <= i < body.take(end).len() implies !ends_at(
        #[trigger] body.take(end)[i],
        limits,
    ) by {
        assert(body.take(end)[i] == body[i]);
    }
    lemma_before_the_end(body.take(end), limits);
    assert forall|i: int| 0 <= i < n implies admits(#[trigger] entries[i]) by {
        assert(entries_on(body.take(end))[i] == entries[i]);
    }
    if end < body.len() {
        assert(ends_at(body[end], limits));
        assert(!(body[end] is Unreadable) && !(body[end] is Malformed));
        lemma_entry_at(body, end);
        assert forall|i: int| n <= i < entries.len() implies !admits(#[trigger] entries[i]) by {
            assert(limits.excludes(entries[n]));
            assert(limits.until_seq is Some ==> entries[n].seq <= entries[i].seq);
            assert(limits.until_ms is Some ==> entries[n].elapsed_ms <= entries[i].elapsed_ms);
        }
    } else {
        assert(body.take(end) =~= body);
    }
    lemma_filter_prefix(entries, admits, n);
}

/// Without limits every entry of a log without bad lines is applied.
pub proof fn law_replay_everything(lines: Seq<LineView>, limits: Limits)
    requires
        lines.len() > 0,
        header_error(Some(lines[0])) is None,
        all_well_formed(lines.drop_first()),
        limits.until_seq is None,
        limits.until_ms is None,
    ensures
        replayed(lines, limits) == Ok::<_, ReplayError>(
            progress_after(entries_on(lines.drop_first()), limits.realtime),
        ),
{
    let body = lines.drop_first();
    lemma_end_of(body, limits, body.len() as int);
    assert(body.take(body.len() as int) =~= body);
}

/// Keeping the pace changes neither which entries are applied, nor the tree that
/// comes out, nor whether one does.
pub proof fn law_pace_does_not_matter(lines: Seq<LineView>, paced: Limits, unpaced: Limits)
    requires
        paced.until_seq == unpaced.until_seq,
        paced.until_ms == unpaced.until_ms,
    ensures
        match replayed(lines, paced) {
            Ok(progress) => {
                &&& replayed(lines, unpaced) matches Ok(other)
                &&& other.files == progress.files
                &&& other.count == progress.count
                &&& other.needs_install == progress.needs_install
            },
            Err(error) => replayed(lines, unpaced) == Err::<
                Progress,
                ReplayError,
            >(error),
        },
        lines.len() > 0 ==> end_of(lines.drop_first(), paced) == end_of(
            lines.drop_first(),
            unpaced,
        ),
{
    if lines.len() > 0 {
        let body = lines.drop_first();
        lemma_at_end(body, paced);
        let end = end_of(body, paced) as int;
        assert forall|i: int| 0 <= i < end implies !ends_at(#[trigger] body[i], unpaced) by {
            assert(!ends_at(body[i], paced));
        }
        lemma_end_of(body, unpaced, end);
    }
}

/// The milliseconds that a replay at the pace of the recording waits in all.
pub open spec fn total_wait(entries: Seq<EntryView>) -> int
    decreases entries.len(),
{
    if entries.len() <= 1 {
        0
    } else {
        let before = entries.drop_last();
        total_wait(before) + pause(progress_after(before, true).last_ms, entries.last(), true)
    }
}

/// At the pace of the recording a replay takes as long as the recording did, from
/// its first entry to its last.
pub proof fn law_pace_is_kept(entries: Seq<EntryView>)
    requires
        entries.len() > 0,
        times_in_order(entries),
    ensures
        total_wait(entries) == entries.last().elapsed_ms - entries[0].elapsed_ms,
    decreases entries.len(),
{
    if entries.len() > 1 {
        let before = entries.drop_last();
        assert forall|i: int, j: int| 0 <= i <= j < before.len() implies (
        #[trigger] before[i]).elapsed_ms <= (#[trigger] before[j]).elapsed_ms by {
            assert(entries[i].elapsed_ms <= entries[j].elapsed_ms);
        }
        law_pace_is_kept(before);
        assert(entries[before.len() - 1].elapsed_ms <= entries[before.len() as int].elapsed_ms);
    }
}

/// What was recorded is what a replay reads, entry for entry, however often the
/// daemon was started in between, and a replay that stops at number `n` sees the
/// first `n` entries.
pub proof fn law_recording_replays(rows: Seq<RowView>, limits: Limits)
    requires
        is_recording(rows),
        limits.until_ms is None,
    ensures
        ({
            let entries = entries_on(lines_of(rows));
            replayed(lines_of(rows), limits) == Ok::<_, ReplayError>(
                progress_after(
                    match limits.until_seq {
                        Some(n) => if n < entries.len() {
                            entries.take(n as int)
                        } else {
                            entries
                        },
                        None => entries,
                    },
                    limits.realtime,
                ),
            )
        }),
{
    let lines = lines_of(rows);
    let body = lines.drop_first();
    let entries = entries_on(lines);
    assert(lines[0] == LineView::Row(rows[0]));
    lemma_header_is_no_entry(lines);
    assert forall|i: int| 0 <= i < body.len() implies !(#[trigger] body[i] is Unreadable) && !(
    body[i] is Malformed) by {
        assert(body[i] == LineView::Row(rows[i + 1]));
    }
    law_replay_to_a_point(lines, limits);
    let admits = |entry: EntryView| !limits.excludes(entry);
    let n: int = match limits.until_seq {
        Some(n) => if n < entries.len() {
            n as int
        } else {
            entries.len() as int
        },
        None => entries.len() as int,
    };
    lemma_filter_prefix(entries, admits, n);
    assert(entries.take(entries.len() as int) =~= entries);
}

/// The entries of a log are those behind its header.
proof fn lemma_header_is_no_entry(lines: Seq<LineView>)
    requires
        lines.len() > 0,
        lines[0] matches LineView::Row(RowView::Header { .. }),
    ensures
        entries_on(lines.drop_first()) == entries_on(lines),
    decreases lines.len(),
{
    if lines.len() > 1 {
        lemma_header_is_no_entry(lines.drop_last());
        assert(lines.drop_last().drop_first() =~= lines.drop_first().drop_last());
    } else {
        assert(lines.drop_last() =~= Seq::<LineView>::empty());
        assert(lines.drop_first() =~= Seq::<LineView>::empty());
        reveal_with_fuel(entries_on, 2);
    }
}

/// What was last recorded of a path is what the tree has there.
pub proof fn law_last_record_counts(entries: Seq<EntryView>, at: int)
    requires
        0 <= at < entries.len(),
        entries[at].op == Operation::Create || entries[at].op == Operation::Modify,
        forall|j: int|
            at < j < entries.len() ==> (#[trigger] entries[j]).path != entries[at].path
                && entries[j].dest_path != Some(entries[at].path),
    ensures
        tree_after(entries).dom().contains(entries[at].path),
        tree_after(entries)[entries[at].path] == entries[at].content_hash,
    decreases entries.len(),
{
    let front = entries.drop_last();
    if at < entries.len() - 1 {
        assert forall|j: int| at < j < front.len() implies (#[trigger] front[j]).path
            != front[at].path && front[j].dest_path != Some(front[at].path) by {
            assert(front[j] == entries[j]);
        }
        law_last_record_counts(front, at);
        assert(entries[entries.len() - 1].path != entries[at].path);
        law_other_paths_stay(tree_after(front), entries.last(), entries[at].path);
    }
}

/// A replay restores what was recorded: a content that was snapshotted and recorded
/// for a path, and of which nothing was recorded later, is at the place of that path
/// in the output, and the blob it is copied from has the digest of that content;
/// unless a later path of the tree disturbs the place.
pub proof fn law_recorded_content_is_restored(
    places: Places,
    store: Store,
    content: Seq<u8>,
    entries: Seq<EntryView>,
    at: int,
    state: TextMap<FileState>,
    output: Seq<u8>,
    blob_dir: Seq<u8>,
)
    requires
        is_content_name(content_name(content)),
        is_content_addressed(store),
        0 <= at < entries.len(),
        entries[at].op == Operation::Create || entries[at].op == Operation::Modify,
        entries[at].content_hash == Some(content_name(content)),
        forall|j: int|
            at < j < entries.len() ==> (#[trigger] entries[j]).path != entries[at].path
                && entries[j].dest_path != Some(entries[at].path),
        state.wf(),
        hashes(state) == tree_after(entries),
        tree_stays_below(tree_after(entries)),
        forall|q: Seq<char>| #[trigger]
            hashes(state).dom().contains(q) && text_less(entries[at].path, q) ==> !disturbs(
                write_of(q, hashes(state)[q], output, blob_dir),
                place_of(entries[at].path, output),
                after_snapshot(store, content).dom(),
            ),
    ensures
        is_file(
            after_writes(
                places,
                writes_of(state, output, blob_dir),
                after_snapshot(store, content).dom(),
            ),
            place_of(entries[at].path, output),
            content_name(content),
        ),
        content_name(after_snapshot(store, content)[content_name(content)]) == content_name(
            content,
        ),
{
    law_last_record_counts(entries, at);
    law_snapshots_are_found_again(store, content);
    lemma_plain_content_name(content_name(content));
    law_tree_is_materialized(
        places,
        state,
        output,
        blob_dir,
        after_snapshot(store, content).dom(),
        entries[at].path,
        content_name(content),
    );
}

/// A replay up to a point applies exactly the entries up to that point, the point
/// itself among them: those whose number is at most `until_seq`, where that is given,
/// and that came at most `until_ms` milliseconds after the start, where that is given.
pub proof fn law_limits_are_inclusive(
    lines: Seq<LineView>,
    until_seq: Option<u64>,
    until_ms: Option<u64>,
    realtime: bool,
)
    requires
        lines.len() > 0,
        lines[0] matches LineView::Row(RowView::Header { schema_version, .. }) && schema_version
            <= CURRENT_SCHEMA_VERSION,
        forall|i: int|
            1 <= i < lines.len() ==> (#[trigger] lines[i] is Blank || lines[i] is Row),
        until_seq is Some ==> numbers_in_order(entries_on(lines.drop_first())),
        until_ms is Some ==> times_in_order(entries_on(lines.drop_first())),
    ensures
        replayed(lines, (Limits { until_seq, until_ms, realtime })) == Ok::<_, ReplayError>(
            progress_after(
                entries_on(lines.drop_first()).filter(
                    |entry: EntryView|
                        (until_seq matches Some(n) ==> entry.seq <= n) && (until_ms matches Some(m)
                            ==> entry.elapsed_ms <= m),
                ),
                realtime,
            ),
        ),
{
    let limits = Limits { until_seq, until_ms, realtime };
    let body = lines.drop_first();
    assert forall|i: int| 0 <= i < body.len() implies !(#[trigger] body[i] is Unreadable) && !(
    body[i] is Malformed) by {
        assert(body[i] == lines[i + 1]);
        assert(lines[i + 1] is Blank || lines[i + 1] is Row);
    }
    law_replay_to_a_point(lines, limits);
    let admits = |entry: EntryView| !limits.excludes(entry);
    let within = |entry: EntryView|
        (until_seq matches Some(n) ==> entry.seq <= n) && (until_ms matches Some(m)
            ==> entry.elapsed_ms <= m);
    assert(admits =~= within);
}

/// A replay applies the entries before the first line that is bad or that holds an
/// entry past the point, whatever order they are in; a bad line fails it, an entry past
/// the point ends it.
pub proof fn law_replay_ends_where_it_should(lines: Seq<LineView>, limits: Limits, at: int)
    requires
        0 < at <= lines.len(),
        lines[0] matches LineView::Row(RowView::Header { schema_version, .. }) && schema_version
            <= CURRENT_SCHEMA_VERSION,
        forall|i: int|
            1 <= i < at ==> match #[trigger] lines[i] {
                LineView::Unreadable | LineView::Malformed => false,
                LineView::Blank | LineView::Row(RowView::Header { .. }) => true,
                LineView::Row(RowView::Event(entry)) => {
                    &&& limits.until_seq matches Some(n) ==> entry.seq <= n
                    &&& limits.until_ms matches Some(m) ==> entry.elapsed_ms <= m
                },
            },
        at < lines.len() ==> match lines[at] {
            LineView::Unreadable | LineView::Malformed => true,
            LineView::Blank | LineView::Row(RowView::Header { .. }) => false,
            LineView::Row(RowView::Event(entry)) => {
                ||| limits.until_seq matches Some(n) && entry.seq > n
                ||| limits.until_ms matches Some(m) && entry.elapsed_ms > m
            },
        },
    ensures
        replayed(lines, limits) == (if at < lines.len() && lines[at] is Unreadable {
            Err(ReplayError::LineUnreadable)
        } else if at < lines.len() && lines[at] is Malformed {
            Err(ReplayError::LineMalformed)
        } else {
            Ok(progress_after(entries_on(lines.take(at)), limits.realtime))
        }),
{
    let body = lines.drop_first();
    assert forall|i: int| 0 <= i < at - 1 implies !ends_at(#[trigger] body[i], limits) by {
        assert(body[i] == lines[i + 1]);
        assert(match lines[i + 1] {
            LineView::Unreadable | LineView::Malformed => false,
            _ => true,
        });
    }
    if at < lines.len() {
        assert(body[at - 1] == lines[at]);
    }
    lemma_end_of(body, limits, at - 1);
    let front = lines.take(at);
    assert(front.drop_first() =~= body.take(at - 1));
    lemma_header_is_no_entry(front);
}

/// The entries of a log are what its event rows hold, in their order: reading one
/// stretch and then the next reads both, and no other line holds an entry.
pub proof fn law_entries_are_read_in_order(
    first: Seq<LineView>,
    second: Seq<LineView>,
    line: LineView,
)
    ensures
        entries_on(first + second) == entries_on(first) + entries_on(second),
        entries_on(seq![line]) == (match line {
            LineView::Row(RowView::Event(entry)) => seq![entry],
            _ => Seq::empty(),
        }),
    decreases second.len(),
{
    assert(seq![line].drop_last() =~= Seq::<LineView>::empty());
    reveal_with_fuel(entries_on, 2);
    if second.len() == 0 {
        assert(first + second =~= first);
        assert(entries_on(first) + entries_on(second) =~= entries_on(first));
    } else {
        law_entries_are_read_in_order(first, second.drop_last(), line);
        assert((first + second).drop_last() =~= first + second.drop_last());
        assert(entries_on(first + second) =~= entries_on(first) + entries_on(second));
    }
}

/// What a replay knows grows with every entry: the count by one, the tree by what the
/// entry does; an installation is remembered once there was one; and when the last
/// entry came is known where the pace is kept, and only there.
pub proof fn law_progress_grows(entries: Seq<EntryView>, entry: EntryView, realtime: bool)
    ensures
        ({
            let before = progress_after(entries, realtime);
            let after = progress_after(entries.push(entry), realtime);
            &&& after.count == before.count + 1
            &&& after.files == applied(before.files, entry)
            &&& after.needs_install <==> before.needs_install || entry.op == Operation::Install
            &&& realtime ==> after.last_ms == Some(entry.elapsed_ms)
            &&& !realtime ==> after.last_ms is None
            &&& advanced(before, entry, realtime) == after
        }),
        ({
            let start = progress_after(Seq::empty(), realtime);
            &&& start.count == 0
            &&& forall|path: Seq<char>| !start.files.dom().contains(path)
            &&& !start.needs_install
            &&& start.last_ms is None
        }),
{
    lemma_progress_push(entries, entry, realtime);
}

/// An entry is applied exactly where it is not past the point, and only entries are;
/// a bad line fails the replay, and every other line is passed over.
pub proof fn law_steps_follow_the_lines(progress: Progress, limits: Limits, line: LineView)
    ensures
        match line {
            LineView::Unreadable => step_for(progress, limits, line) == Step::Fail(
                ReplayError::LineUnreadable,
            ),
            LineView::Malformed => step_for(progress, limits, line) == Step::Fail(
                ReplayError::LineMalformed,
            ),
            LineView::Blank | LineView::Row(RowView::Header { .. }) => step_for(
                progress,
                limits,
                line,
            ) is Skip,
            LineView::Row(RowView::Event(entry)) => {
                let past = (limits.until_seq matches Some(n) && entry.seq > n) || (
                limits.until_ms matches Some(m) && entry.elapsed_ms > m);
                if past {
                    step_for(progress, limits, line) is Stop
                } else {
                    step_for(progress, limits, line) is Apply
                }
            },
        },
{
}

/// The wait before an entry leads from the time of the one before it to its own, where
/// the pace is kept and it is the later one; otherwise there is none.
pub proof fn law_waits_lead_to_the_next(progress: Progress, limits: Limits, entry: EntryView)
    ensures
        step_for(progress, limits, LineView::Row(RowView::Event(entry))) matches Step::Apply {
            wait_ms,
        } ==> {
            &&& !limits.realtime ==> wait_ms == 0
            &&& progress.last_ms is None ==> wait_ms == 0
            &&& limits.realtime ==> (progress.last_ms matches Some(last) ==> if last
                <= entry.elapsed_ms {
                last + wait_ms == entry.elapsed_ms
            } else {
                wait_ms == 0
            })
        },
{
}

/// A log is taken up exactly where it begins with a header of a schema that is known.
pub proof fn law_header_has_to_be_known(first: Option<LineView>)
    ensures
        header_error(first) is None <==> (first matches Some(
            LineView::Row(RowView::Header { schema_version, .. }),
        ) && schema_version <= CURRENT_SCHEMA_VERSION),
        header_error(first) matches Some(ReplayError::EmptyLog) <==> first is None,
        header_error(first) matches Some(ReplayError::HeaderUnreadable) <==> first matches Some(
            LineView::Unreadable,
        ),
        header_error(first) matches Some(ReplayError::HeaderMissing) <==> first matches Some(
            LineView::Row(RowView::Event(_)),
        ),
        header_error(first) matches Some(ReplayError::HeaderMalformed) <==> (first matches Some(
            LineView::Malformed,
        ) || first matches Some(LineView::Blank)),
        header_error(first) matches Some(ReplayError::Schema(error)) ==> (first matches Some(
            LineView::Row(RowView::Header { schema_version, .. }),
        ) && error == DaemonError::UnsupportedSchemaVersion(
            schema_version,
            CURRENT_SCHEMA_VERSION,
        )),
{
}

/// The tree is what the entries do, one after the other, to an empty one.
pub proof fn law_tree_grows(entries: Seq<EntryView>, entry: EntryView, path: Seq<char>)
    ensures
        !tree_after(Seq::empty()).dom().contains(path),
        tree_after(entries.push(entry)) == applied(tree_after(entries), entry),
{
    assert(entries.push(entry).drop_last() =~= entries);
}

/// After a rename the new path has the content that the entry brings, else the one that
/// the old path had, if it had any; the old path is gone.
pub proof fn law_rename_settles_the_content(
    files: Map<Seq<char>, Option<Seq<char>>>,
    entry: EntryView,
    dest: Seq<char>,
)
    requires
        entry.op == Operation::Rename,
        entry.dest_path == Some(dest),
    ensures
        applied(files, entry).dom().contains(dest),
        entry.content_hash is Some ==> applied(files, entry)[dest] == entry.content_hash,
        entry.content_hash is None && files.dom().contains(entry.path) ==> applied(
            files,
            entry,
        )[dest] == files[entry.path],
        entry.content_hash is None && !files.dom().contains(entry.path) ==> applied(
            files,
            entry,
        )[dest] is None,
        entry.path != dest ==> !applied(files, entry).dom().contains(entry.path),
{
}

/// An installation, and a rename that leads nowhere, leave the tree as it is.
pub proof fn law_some_entries_change_nothing(
    files: Map<Seq<char>, Option<Seq<char>>>,
    entry: EntryView,
)
    requires
        entry.op == Operation::Install || (entry.op == Operation::Rename
            && entry.dest_path is None),
    ensures
        applied(files, entry) == files,
{
}

/// A create, a modify or a delete changes nothing but the path it is of, whatever
/// destination it names.
pub proof fn law_only_renames_have_a_destination(
    files: Map<Seq<char>, Option<Seq<char>>>,
    entry: EntryView,
    path: Seq<char>,
)
    requires
        entry.op != Operation::Rename,
        path != entry.path,
    ensures
        applied(files, entry).dom().contains(path) == files.dom().contains(path),
        files.dom().contains(path) ==> applied(files, entry)[path] == files[path],
{
}

/// A log without a header that is known is not replayed at all.
pub proof fn law_no_replay_without_a_header(lines: Seq<LineView>, limits: Limits)
    requires
        !(lines.len() > 0 && (lines[0] matches LineView::Row(RowView::Header { schema_version, .. })
            && schema_version <= CURRENT_SCHEMA_VERSION)),
    ensures
        replayed(lines, limits) matches Err(error) && Some(error) == header_error(
            if lines.len() > 0 {
                Some(lines[0])
            } else {
                None
            },
        ),
{
}

} // verus!
