//! What the output directory holds while a log is replayed into it.
//!
//! A place is known by its components.  Two places are two files where no component
//! leads up again, so what is said here is said of paths that do not; the output
//! directory holds no symbolic links, and its file system tells names apart by their
//! bytes.
use vstd::prelude::*;

use crate::blobs::{
    blob_bytes, can_be_filed, content_name, is_content_name, lemma_plain_content_name,
};
use crate::log::{EntryView, Operation};
use crate::materialize::{
    PlanView, SourceView, WriteView, parent_of, plan_of, source_of, write_of, writes_of,
};
use crate::paths::{above, bytes_of, components, current, joined, lemma_root_comes_first, root};
use crate::replay::{FileState, applied, hashes, tree_after};
use crate::text::{lemma_text_less_irreflexive, text_less};
use crate::text_map::TextMap;

verus! {

/// What is at a place of the output: a directory, or a file with the content of
/// that name.
pub enum Node {
    Directory,
    File(Seq<char>),
}

/// The places of the output, by their components.
pub type Places = Map<Seq<Seq<u8>>, Node>;

/// The place that a path of the tree has in the output.
pub open spec fn place_of(path: Seq<char>, output: Seq<u8>) -> Seq<Seq<u8>> {
    components(joined(output, bytes_of(path)))
}

/// Whether a path of the tree leads to something in the output directory, by names
/// alone: it is relative, names something, and never leads up again.
pub open spec fn stays_below(path: Seq<char>) -> bool {
    let names = components(bytes_of(path));
    &&& names.len() > 0
    &&& names[0] != root()
    &&& names.last() != current()
    &&& !names.contains(above())
}

/// Whether the paths that an entry names lead to something in the output directory.
pub open spec fn entry_stays_below(entry: EntryView) -> bool {
    stays_below(entry.path) && (entry.dest_path matches Some(dest) ==> stays_below(dest))
}

/// Whether the paths that the entries name lead to something in the output directory.
pub open spec fn all_stay_below(entries: Seq<EntryView>) -> bool {
    forall|i: int| 0 <= i < entries.len() ==> entry_stays_below(#[trigger] entries[i])
}

/// Whether the paths of a tree lead to something in the output directory.
pub open spec fn tree_stays_below(files: Map<Seq<char>, Option<Seq<char>>>) -> bool {
    forall|path: Seq<char>| #[trigger] files.dom().contains(path) ==> stays_below(path)
}

/// The places once `dir` is a directory, and so is all that it leads through.
pub open spec fn with_directory(places: Places, dir: Seq<Seq<u8>>) -> Places {
    Map::new(
        |p: Seq<Seq<u8>>| places.dom().contains(p) || p.is_prefix_of(dir),
        |p: Seq<Seq<u8>>|
            if p.is_prefix_of(dir) {
                Node::Directory
            } else {
                places[p]
            },
    )
}

/// The places once the directory that a file goes to is there.
pub open spec fn with_parent(places: Places, parent: Option<Seq<Seq<u8>>>) -> Places {
    match parent {
        Some(dir) => with_directory(places, dir),
        None => places,
    }
}

/// The places once a file is at `out`, in place of whatever was there.
pub open spec fn with_file(places: Places, out: Seq<Seq<u8>>, hash: Seq<char>) -> Places {
    Map::new(
        |p: Seq<Seq<u8>>| p == out || (places.dom().contains(p) && !out.is_prefix_of(p)),
        |p: Seq<Seq<u8>>|
            if p == out {
                Node::File(hash)
            } else {
                places[p]
            },
    )
}

/// The places once `out` and all that is in it are gone.
pub open spec fn without(places: Places, out: Seq<Seq<u8>>) -> Places {
    Map::new(
        |p: Seq<Seq<u8>>| places.dom().contains(p) && !out.is_prefix_of(p),
        |p: Seq<Seq<u8>>| places[p],
    )
}

/// The places once `from` and all that is in it are at `to`, in place of whatever
/// was there.
pub open spec fn with_moved(places: Places, from: Seq<Seq<u8>>, to: Seq<Seq<u8>>) -> Places {
    Map::new(
        |p: Seq<Seq<u8>>|
            if to.is_prefix_of(p) {
                places.dom().contains(from + p.skip(to.len() as int))
            } else {
                places.dom().contains(p) && !from.is_prefix_of(p)
            },
        |p: Seq<Seq<u8>>|
            if to.is_prefix_of(p) {
                places[from + p.skip(to.len() as int)]
            } else {
                places[p]
            },
    )
}

/// The content that a step writes, where `stored` says which contents the blob
/// store has.
pub open spec fn content_of(step: WriteView, stored: Set<Seq<char>>) -> Option<Seq<char>> {
    match step.source {
        SourceView::Blob { hash, .. } => if stored.contains(hash) {
            Some(hash)
        } else {
            None
        },
        _ => None,
    }
}

/// The places after one write step.
pub open spec fn after_write(places: Places, step: WriteView, stored: Set<Seq<char>>) -> Places {
    let ready = with_parent(places, step.parent);
    match content_of(step, stored) {
        Some(hash) => with_file(ready, components(step.out_path), hash),
        None => ready,
    }
}

/// The places after a sequence of write steps.
pub open spec fn after_writes(
    places: Places,
    steps: Seq<WriteView>,
    stored: Set<Seq<char>>,
) -> Places
    decreases steps.len(),
{
    if steps.len() == 0 {
        places
    } else {
        after_write(after_writes(places, steps.drop_last(), stored), steps.last(), stored)
    }
}

/// Whether what is at `from` can be renamed to `to`: nothing goes into itself or takes
/// the place of what holds it, a file does not take the place of a directory, and a
/// directory takes that of nothing but an empty one.
pub open spec fn can_move(places: Places, from: Seq<Seq<u8>>, to: Seq<Seq<u8>>) -> bool {
    from == to || (!from.is_prefix_of(to) && !to.is_prefix_of(from) && match places[from] {
        Node::File(_) => !(places.dom().contains(to) && places[to] is Directory),
        Node::Directory => !places.dom().contains(to) || (places[to] is Directory && forall|
            q: Seq<Seq<u8>>,
        | #[trigger]
            places.dom().contains(q) && to.is_prefix_of(q) ==> q == to),
    })
}

/// The places after an entry plan; nothing where the plan fails, which ends the replay
/// with an error.
pub open spec fn after_plan(
    places: Places,
    plan: PlanView,
    stored: Set<Seq<char>>,
) -> Option<Places> {
    match plan {
        PlanView::Write(step) => Some(after_write(places, step, stored)),
        PlanView::Remove { out_path } => Some(without(places, components(out_path))),
        PlanView::Move { from_path, to } => {
            let ready = with_parent(places, to.parent);
            let from = components(from_path);
            if !ready.dom().contains(from) {
                Some(after_write(places, to, stored))
            } else if can_move(ready, from, components(to.out_path)) {
                Some(with_moved(ready, from, components(to.out_path)))
            } else {
                None
            }
        },
        PlanView::Nothing => Some(places),
    }
}

/// Whether a file with this content is at a place.
pub open spec fn is_file(places: Places, place: Seq<Seq<u8>>, hash: Seq<char>) -> bool {
    places.dom().contains(place) && places[place] == Node::File(hash)
}

/// Whether a step takes away what is at a place: it needs a directory there, or
/// writes a file to the place or to one that it leads through.
pub open spec fn disturbs(
    step: WriteView,
    place: Seq<Seq<u8>>,
    stored: Set<Seq<char>>,
) -> bool {
    ||| step.parent matches Some(dir) && place.is_prefix_of(dir)
    ||| content_of(step, stored) is Some && components(step.out_path).is_prefix_of(place)
}

/// A step that does not disturb a place leaves it as it is.
proof fn lemma_undisturbed(
    places: Places,
    step: WriteView,
    place: Seq<Seq<u8>>,
    stored: Set<Seq<char>>,
)
    requires
        !disturbs(step, place, stored),
    ensures
        places.dom().contains(place) ==> after_write(places, step, stored).dom().contains(place)
            && after_write(places, step, stored)[place] == places[place],
{
}

/// A file that a step writes ends up at its place with that content, whatever was
/// there before, unless a later step disturbs the place.
pub proof fn law_files_are_materialized(
    places: Places,
    steps: Seq<WriteView>,
    stored: Set<Seq<char>>,
    at: int,
    hash: Seq<char>,
)
    requires
        forall|i: int| 0 <= i < steps.len() ==> stays_below((#[trigger] steps[i]).rel_path),
        0 <= at < steps.len(),
        content_of(steps[at], stored) == Some(hash),
        forall|i: int|
            at < i < steps.len() ==> !disturbs(
                #[trigger] steps[i],
                components(steps[at].out_path),
                stored,
            ),
    ensures
        is_file(after_writes(places, steps, stored), components(steps[at].out_path), hash),
    decreases steps.len(),
{
    let front = steps.drop_last();
    if at < steps.len() - 1 {
        assert forall|i: int| 0 <= i < front.len() implies stays_below(
            (#[trigger] front[i]).rel_path,
        ) by {
            assert(front[i] == steps[i]);
        }
        assert forall|i: int| at < i < front.len() implies !disturbs(
            #[trigger] front[i],
            components(front[at].out_path),
            stored,
        ) by {
            assert(front[i] == steps[i]);
        }
        law_files_are_materialized(places, front, stored, at, hash);
        assert(!disturbs(steps[steps.len() - 1], components(steps[at].out_path), stored));
        lemma_undisturbed(
            after_writes(places, front, stored),
            steps.last(),
            components(steps[at].out_path),
            stored,
        );
    }
}

/// Every surviving path whose content is in the blob store ends up in the output
/// with that content, unless a later path of the tree disturbs its place.
pub proof fn law_tree_is_materialized(
    places: Places,
    state: TextMap<FileState>,
    output: Seq<u8>,
    blob_dir: Seq<u8>,
    stored: Set<Seq<char>>,
    path: Seq<char>,
    hash: Seq<char>,
)
    requires
        state.wf(),
        tree_stays_below(hashes(state)),
        hashes(state).dom().contains(path),
        hashes(state)[path] == Some(hash),
        can_be_filed(hash),
        stored.contains(hash),
        forall|q: Seq<char>| #[trigger]
            hashes(state).dom().contains(q) && text_less(path, q) ==> !disturbs(
                write_of(q, hashes(state)[q], output, blob_dir),
                place_of(path, output),
                stored,
            ),
    ensures
        is_file(
            after_writes(places, writes_of(state, output, blob_dir), stored),
            place_of(path, output),
            hash,
        ),
{
    let steps = writes_of(state, output, blob_dir);
    state.lemma_place(path);
    let at = state.keys().index_of(path);
    assert(steps[at] == write_of(path, Some(hash), output, blob_dir));
    assert forall|i: int| at < i < steps.len() implies !disturbs(
        #[trigger] steps[i],
        place_of(path, output),
        stored,
    ) by {
        state.lemma_at(i);
        let q = state.pairs()[i].0@;
        assert(hashes(state).dom().contains(q));
        assert(text_less(state.pairs()[at].0@, state.pairs()[i].0@));
    }
    assert forall|i: int| 0 <= i < steps.len() implies stays_below(
        (#[trigger] steps[i]).rel_path,
    ) by {
        state.lemma_at(i);
        assert(hashes(state).dom().contains(state.pairs()[i].0@));
    }
    law_files_are_materialized(places, steps, stored, at, hash);
}

/// Whether a step writes a file with this content to this place.
pub open spec fn writes(
    step: WriteView,
    place: Seq<Seq<u8>>,
    hash: Seq<char>,
    stored: Set<Seq<char>>,
) -> bool {
    components(step.out_path) == place && content_of(step, stored) == Some(hash)
}

/// No file appears in the output but those that are written: one that is there
/// afterwards was written with that content, or was there before.
pub proof fn law_no_other_files_appear(
    places: Places,
    steps: Seq<WriteView>,
    stored: Set<Seq<char>>,
    place: Seq<Seq<u8>>,
    hash: Seq<char>,
)
    requires
        forall|i: int| 0 <= i < steps.len() ==> stays_below((#[trigger] steps[i]).rel_path),
        is_file(after_writes(places, steps, stored), place, hash),
    ensures
        (exists|i: int| 0 <= i < steps.len() && writes(#[trigger] steps[i], place, hash, stored))
            || is_file(places, place, hash),
    decreases steps.len(),
{
    if steps.len() > 0 {
        let front = steps.drop_last();
        if !writes(steps[steps.len() - 1], place, hash, stored) {
            assert(is_file(after_writes(places, front, stored), place, hash));
            assert forall|i: int| 0 <= i < front.len() implies stays_below(
                (#[trigger] front[i]).rel_path,
            ) by {
                assert(front[i] == steps[i]);
            }
            law_no_other_files_appear(places, front, stored, place, hash);
            if exists|i: int|
                0 <= i < front.len() && writes(#[trigger] front[i], place, hash, stored) {
                let i = choose|i: int|
                    0 <= i < front.len() && writes(#[trigger] front[i], place, hash, stored);
                assert(writes(steps[i], place, hash, stored));
            }
        }
    }
}

/// Whether the content of a path is known and in the blob store.
pub open spec fn is_kept(
    files: Map<Seq<char>, Option<Seq<char>>>,
    stored: Set<Seq<char>>,
    path: Seq<char>,
) -> bool {
    &&& files.dom().contains(path)
    &&& files[path] matches Some(hash)
    &&& can_be_filed(hash)
    &&& stored.contains(hash)
}

/// Whether an entry of a paced replay takes away what is at the place of a path, or
/// does not give it the content that the tree has there.
pub open spec fn entry_disturbs(
    places: Places,
    files: Map<Seq<char>, Option<Seq<char>>>,
    entry: EntryView,
    output: Seq<u8>,
    blob_dir: Seq<u8>,
    stored: Set<Seq<char>>,
    path: Seq<char>,
) -> bool {
    let place = place_of(path, output);
    match plan_of(entry, applied(files, entry), output, blob_dir) {
        PlanView::Write(step) => path != entry.path && disturbs(step, place, stored),
        PlanView::Remove { out_path } => components(out_path).is_prefix_of(place),
        PlanView::Move { from_path, to } => {
            let ready = with_parent(places, to.parent);
            let from = components(from_path);
            let target = components(to.out_path);
            if ready.dom().contains(from) {
                if entry.dest_path == Some(path) {
                    ||| entry.content_hash is Some
                    ||| !can_move(ready, from, target)
                } else {
                    ||| to.parent matches Some(dir) && place.is_prefix_of(dir)
                    ||| from.is_prefix_of(place)
                    ||| target.is_prefix_of(place)
                }
            } else {
                entry.dest_path != Some(path) && disturbs(to, place, stored)
            }
        },
        PlanView::Nothing => false,
    }
}

/// Whether the output shows a path as the tree has it, where its content is in the
/// blob store.
pub open spec fn shows(
    places: Places,
    files: Map<Seq<char>, Option<Seq<char>>>,
    output: Seq<u8>,
    stored: Set<Seq<char>>,
    path: Seq<char>,
) -> bool {
    is_kept(files, stored, path) ==> is_file(places, place_of(path, output), files[path]->0)
}

/// An entry of a paced replay keeps the output in line with the tree: where the
/// output showed every path before, and the entry can be carried out, it shows every
/// path afterwards that the entry does not disturb.
pub proof fn law_output_follows_the_tree(
    places: Places,
    files: Map<Seq<char>, Option<Seq<char>>>,
    entry: EntryView,
    output: Seq<u8>,
    blob_dir: Seq<u8>,
    stored: Set<Seq<char>>,
    path: Seq<char>,
)
    requires
        tree_stays_below(files),
        entry_stays_below(entry),
        forall|p: Seq<char>| shows(places, files, output, stored, p),
        !entry_disturbs(places, files, entry, output, blob_dir, stored, path),
    ensures
        after_plan(places, plan_of(entry, applied(files, entry), output, blob_dir), stored) matches
            Some(after) ==> shows(after, applied(files, entry), output, stored, path),
{
    assert(shows(places, files, output, stored, path));
    let place = place_of(path, output);
    match plan_of(entry, applied(files, entry), output, blob_dir) {
        PlanView::Write(step) => {
            if path != entry.path {
                lemma_undisturbed(places, step, place, stored);
            }
        },
        PlanView::Move { from_path, to } => {
            assert(shows(places, files, output, stored, entry.path));
            let from = components(from_path);
            if !with_parent(places, to.parent).dom().contains(from) {
                if entry.dest_path != Some(path) {
                    lemma_undisturbed(places, to, place, stored);
                }
            } else if entry.dest_path == Some(path) {
                lemma_above_parent(from, to.out_path);
                assert(from + place.skip(place.len() as int) =~= from);
            }
        },
        _ => {},
    }
}

/// The places after a paced replay of a sequence of entries; nothing where it fails.
pub open spec fn after_entries(
    places: Places,
    entries: Seq<EntryView>,
    output: Seq<u8>,
    blob_dir: Seq<u8>,
    stored: Set<Seq<char>>,
) -> Option<Places>
    decreases entries.len(),
{
    if entries.len() == 0 {
        Some(places)
    } else {
        match after_entries(places, entries.drop_last(), output, blob_dir, stored) {
            Some(before) => after_plan(
                before,
                plan_of(entries.last(), tree_after(entries), output, blob_dir),
                stored,
            ),
            None => None,
        }
    }
}

/// Whether no entry of a paced replay, as far as it gets, disturbs a path whose content
/// is kept then.
pub open spec fn none_disturbs(
    places: Places,
    entries: Seq<EntryView>,
    output: Seq<u8>,
    blob_dir: Seq<u8>,
    stored: Set<Seq<char>>,
) -> bool
    decreases entries.len(),
{
    if entries.len() == 0 {
        true
    } else {
        let front = entries.drop_last();
        &&& none_disturbs(places, front, output, blob_dir, stored)
        &&& after_entries(places, front, output, blob_dir, stored) matches Some(before)
            ==> forall|path: Seq<char>| #[trigger]
            is_kept(tree_after(entries), stored, path) ==> !entry_disturbs(
                before,
                tree_after(front),
                entries.last(),
                output,
                blob_dir,
                stored,
                path,
            )
    }
}

/// The paths of a tree lead to something in the output directory where those that the
/// entries name do.
proof fn lemma_tree_stays_below(entries: Seq<EntryView>)
    requires
        all_stay_below(entries),
    ensures
        tree_stays_below(tree_after(entries)),
        entries.len() > 0 ==> all_stay_below(entries.drop_last()) && entry_stays_below(
            entries.last(),
        ),
    decreases entries.len(),
{
    if entries.len() > 0 {
        let front = entries.drop_last();
        assert forall|i: int| 0 <= i < front.len() implies entry_stays_below(
            #[trigger] front[i],
        ) by {
            assert(front[i] == entries[i]);
        }
        lemma_tree_stays_below(front);
        assert(entry_stays_below(entries[entries.len() - 1]));
    }
}

/// After a paced replay, as after one without pauses, the output shows every path of
/// the tree.
pub proof fn law_paced_replay_shows_the_tree(
    places: Places,
    entries: Seq<EntryView>,
    output: Seq<u8>,
    blob_dir: Seq<u8>,
    stored: Set<Seq<char>>,
)
    requires
        all_stay_below(entries),
        none_disturbs(places, entries, output, blob_dir, stored),
    ensures
        after_entries(places, entries, output, blob_dir, stored) matches Some(after)
            ==> forall|path: Seq<char>| #[trigger]
            shows(after, tree_after(entries), output, stored, path),
    decreases entries.len(),
{
    if entries.len() > 0 {
        let front = entries.drop_last();
        lemma_tree_stays_below(entries);
        lemma_tree_stays_below(front);
        law_paced_replay_shows_the_tree(places, front, output, blob_dir, stored);
        if let Some(before) = after_entries(places, front, output, blob_dir, stored) {
            if let Some(after) = after_entries(places, entries, output, blob_dir, stored) {
                assert forall|path: Seq<char>| #[trigger]
                    shows(after, tree_after(entries), output, stored, path) by {
                    if is_kept(tree_after(entries), stored, path) {
                        law_output_follows_the_tree(
                            before,
                            tree_after(front),
                            entries.last(),
                            output,
                            blob_dir,
                            stored,
                            path,
                        );
                    }
                }
            }
        }
    }
}

/// Whether nothing lies in a file, and the nameless place is none.
pub open spec fn is_tree(places: Places) -> bool {
    &&& !(places.dom().contains(Seq::empty()) && places[Seq::empty()] is File)
    &&& forall|p: Seq<Seq<u8>>, q: Seq<Seq<u8>>|
        (#[trigger] places.dom().contains(p)) && places[p] is File && (
        #[trigger] places.dom().contains(q)) && p.is_prefix_of(q) ==> p == q
}

/// Whether an entry of a paced replay leaves nothing in the output that the tree does
/// not have.  A write without a content that could be written leaves what the path had
/// before, if it had any; a rename that is not of a file of the tree, or that has a
/// content of its own, leaves the file that it moves.
pub open spec fn leaves_nothing(
    places: Places,
    files: Map<Seq<char>, Option<Seq<char>>>,
    entry: EntryView,
    output: Seq<u8>,
    stored: Set<Seq<char>>,
) -> bool {
    let after = applied(files, entry);
    let from = place_of(entry.path, output);
    match entry.op {
        Operation::Create | Operation::Modify => {
            &&& from.len() > 0
            &&& is_kept(after, stored, entry.path) || !is_kept(files, stored, entry.path)
        },
        Operation::Rename => entry.dest_path matches Some(dest) ==> {
            &&& from.len() > 0
            &&& place_of(dest, output).len() > 0
            &&& if with_parent(places, parent_of(joined(output, bytes_of(dest)))).dom().contains(
                from,
            ) {
                ||| is_kept(files, stored, entry.path) && entry.content_hash is None
                ||| forall|p: Seq<Seq<u8>>| #[trigger]
                    places.dom().contains(p) && from.is_prefix_of(p) ==> !(places[p] is File)
            } else {
                is_kept(after, stored, dest) || !is_kept(files, stored, dest)
            }
        },
        Operation::Delete | Operation::Install => true,
    }
}

/// Whether a file is at the place of a path of the tree, with the content that the
/// tree has there.
pub open spec fn belongs(
    files: Map<Seq<char>, Option<Seq<char>>>,
    output: Seq<u8>,
    stored: Set<Seq<char>>,
    place: Seq<Seq<u8>>,
    hash: Seq<char>,
) -> bool {
    exists|path: Seq<char>| #[trigger]
        is_kept(files, stored, path) && files[path] == Some(hash) && place_of(path, output) == place
}

/// Making a directory keeps a tree.
proof fn lemma_parent_keeps_tree(places: Places, parent: Option<Seq<Seq<u8>>>)
    requires
        is_tree(places),
    ensures
        is_tree(with_parent(places, parent)),
{
    let ready = with_parent(places, parent);
    if let Some(dir) = parent {
        assert forall|p: Seq<Seq<u8>>, q: Seq<Seq<u8>>|
            (#[trigger] ready.dom().contains(p)) && ready[p] is File && (
            #[trigger] ready.dom().contains(q)) && p.is_prefix_of(q) implies p == q by {
            assert(!p.is_prefix_of(dir));
            assert(places.dom().contains(p) && places[p] is File);
            if !places.dom().contains(q) {
                lemma_prefixes(p, q, dir);
            }
        }
    }
}

/// Prefixes of prefixes are prefixes.
proof fn lemma_prefixes(p: Seq<Seq<u8>>, q: Seq<Seq<u8>>, r: Seq<Seq<u8>>)
    requires
        p.is_prefix_of(q),
        q.is_prefix_of(r),
    ensures
        p.is_prefix_of(r),
{
    assert(p =~= r.take(p.len() as int)) by {
        assert(q == r.take(q.len() as int));
        assert(p == q.take(p.len() as int));
    }
}

/// What leads to a place, other than the place itself, leads to what holds it.
proof fn lemma_leads_to_parent(p: Seq<Seq<u8>>, path: Seq<u8>)
    requires
        p.is_prefix_of(components(path)),
        p != components(path),
        p.len() > 0,
    ensures
        parent_of(path) matches Some(dir) && p.is_prefix_of(dir),
{
    let whole = components(path);
    assert(p == whole.take(p.len() as int));
    if p.len() == whole.len() {
        assert(p =~= whole);
    }
    lemma_root_comes_first(path);
    assert(whole[whole.len() - 1] != root());
    assert(p =~= whole.drop_last().take(p.len() as int));
}

/// Writing a file keeps a tree.
proof fn lemma_write_keeps_tree(places: Places, step: WriteView, stored: Set<Seq<char>>)
    requires
        is_tree(places),
        step.parent == parent_of(step.out_path),
        components(step.out_path).len() > 0,
    ensures
        is_tree(after_write(places, step, stored)),
{
    let ready = with_parent(places, step.parent);
    let out = components(step.out_path);
    let after = after_write(places, step, stored);
    lemma_parent_keeps_tree(places, step.parent);
    if content_of(step, stored) is Some {
        assert forall|p: Seq<Seq<u8>>, q: Seq<Seq<u8>>|
            (#[trigger] after.dom().contains(p)) && after[p] is File && (
            #[trigger] after.dom().contains(q)) && p.is_prefix_of(q) implies p == q by {
            if p != out {
                assert(ready.dom().contains(p) && ready[p] is File);
                if q == out {
                    assert(p.len() > 0) by {
                        if p.len() == 0 {
                            assert(p =~= Seq::<Seq<u8>>::empty());
                        }
                    }
                    lemma_leads_to_parent(p, step.out_path);
                } else {
                    assert(ready.dom().contains(q));
                }
            }
        }
    }
}

/// Moving keeps a tree.
proof fn lemma_move_keeps_tree(places: Places, from: Seq<Seq<u8>>, to_path: Seq<u8>)
    requires
        is_tree(places),
        components(to_path).len() > 0,
    ensures
        is_tree(
            with_moved(with_parent(places, parent_of(to_path)), from, components(to_path)),
        ),
{
    let ready = with_parent(places, parent_of(to_path));
    let to = components(to_path);
    let after = with_moved(ready, from, to);
    lemma_parent_keeps_tree(places, parent_of(to_path));
    let none = Seq::<Seq<u8>>::empty();
    assert(!to.is_prefix_of(none));
    assert forall|p: Seq<Seq<u8>>, q: Seq<Seq<u8>>|
        (#[trigger] after.dom().contains(p)) && after[p] is File && (
        #[trigger] after.dom().contains(q)) && p.is_prefix_of(q) implies p == q by {
        if to.is_prefix_of(p) {
            lemma_prefixes(to, p, q);
            let old_p = from + p.skip(to.len() as int);
            let old_q = from + q.skip(to.len() as int);
            assert(p == q.take(p.len() as int));
            assert(old_p =~= old_q.take(old_p.len() as int));
            assert(ready.dom().contains(old_p) && ready.dom().contains(old_q));
            assert(old_p == old_q);
            assert(p.len() == q.len());
            assert(p =~= q);
        } else {
            assert(ready.dom().contains(p) && ready[p] is File);
            if to.is_prefix_of(q) {
                assert(p.len() > 0) by {
                    if p.len() == 0 {
                        assert(p =~= none);
                    }
                }
                assert(p == q.take(p.len() as int));
                assert(to == q.take(to.len() as int));
                if p.len() >= to.len() {
                    assert(to =~= p.take(to.len() as int));
                }
                assert(p =~= to.take(p.len() as int));
                lemma_leads_to_parent(p, to_path);
            } else {
                assert(ready.dom().contains(q));
            }
        }
    }
}

/// An entry of a paced replay keeps a tree.
proof fn lemma_plan_keeps_tree(
    places: Places,
    files: Map<Seq<char>, Option<Seq<char>>>,
    entry: EntryView,
    output: Seq<u8>,
    blob_dir: Seq<u8>,
    stored: Set<Seq<char>>,
)
    requires
        is_tree(places),
        leaves_nothing(places, files, entry, output, stored),
    ensures
        after_plan(places, plan_of(entry, applied(files, entry), output, blob_dir), stored) matches
            Some(after) ==> is_tree(after),
{
    match plan_of(entry, applied(files, entry), output, blob_dir) {
        PlanView::Write(step) => {
            lemma_write_keeps_tree(places, step, stored);
        },
        PlanView::Move { from_path, to } => {
            lemma_move_keeps_tree(places, components(from_path), to.out_path);
            lemma_write_keeps_tree(places, to, stored);
        },
        PlanView::Remove { out_path } => {
            let after = without(places, components(out_path));
            assert forall|p: Seq<Seq<u8>>, q: Seq<Seq<u8>>|
                (#[trigger] after.dom().contains(p)) && after[p] is File && (
                #[trigger] after.dom().contains(q)) && p.is_prefix_of(q) implies p == q by {
                assert(places.dom().contains(p) && places.dom().contains(q));
            }
        },
        PlanView::Nothing => {},
    }
}

/// Where every file of the output belongs to the tree, or was there before, an entry
/// that leaves nothing keeps it so.
proof fn lemma_files_belong(
    start: Places,
    places: Places,
    files: Map<Seq<char>, Option<Seq<char>>>,
    entry: EntryView,
    output: Seq<u8>,
    blob_dir: Seq<u8>,
    stored: Set<Seq<char>>,
    place: Seq<Seq<u8>>,
    hash: Seq<char>,
)
    requires
        is_tree(places),
        forall|p: Seq<char>| shows(places, files, output, stored, p),
        forall|p: Seq<Seq<u8>>, h: Seq<char>| #[trigger]
            is_file(places, p, h) ==> belongs(files, output, stored, p, h) || is_file(start, p, h),
        leaves_nothing(places, files, entry, output, stored),
        after_plan(places, plan_of(entry, applied(files, entry), output, blob_dir), stored) matches
            Some(then) && is_file(then, place, hash),
    ensures
        belongs(applied(files, entry), output, stored, place, hash) || is_file(start, place, hash),
{
    let after = applied(files, entry);
    let from = place_of(entry.path, output);
    match plan_of(entry, after, output, blob_dir) {
        PlanView::Write(step) => {
            if place == from && content_of(step, stored) is Some {
                assert(is_kept(after, stored, entry.path));
            } else {
                assert(is_file(places, place, hash));
                lemma_still_belongs(start, places, files, entry, output, stored, place, hash);
            }
        },
        PlanView::Remove { out_path } => {
            assert(is_file(places, place, hash));
            lemma_still_belongs(start, places, files, entry, output, stored, place, hash);
        },
        PlanView::Move { from_path, to } => {
            let dest = entry.dest_path->0;
            let target = components(to.out_path);
            let ready = with_parent(places, to.parent);
            if ready.dom().contains(from) {
                if target.is_prefix_of(place) {
                    let old = from + place.skip(target.len() as int);
                    assert(is_file(ready, old, hash));
                    assert(is_file(places, old, hash));
                    assert(from =~= old.take(from.len() as int));
                    assert(places.dom().contains(old));
                    assert(is_kept(files, stored, entry.path));
                    assert(shows(places, files, output, stored, entry.path));
                    assert(places.dom().contains(from));
                    assert(old == from);
                    assert(place =~= target);
                    assert(is_kept(after, stored, dest));
                } else {
                    assert(is_file(places, place, hash));
                    lemma_still_belongs(start, places, files, entry, output, stored, place, hash);
                }
            } else if place == target && content_of(to, stored) is Some {
                assert(is_kept(after, stored, dest));
            } else {
                assert(is_file(places, place, hash));
                assert(place != from);
                lemma_still_belongs(start, places, files, entry, output, stored, place, hash);
            }
        },
        PlanView::Nothing => {
            lemma_still_belongs(start, places, files, entry, output, stored, place, hash);
        },
    }
}

/// A file that belonged to the tree still does where the entry is not about its path.
proof fn lemma_still_belongs(
    start: Places,
    places: Places,
    files: Map<Seq<char>, Option<Seq<char>>>,
    entry: EntryView,
    output: Seq<u8>,
    stored: Set<Seq<char>>,
    place: Seq<Seq<u8>>,
    hash: Seq<char>,
)
    requires
        belongs(files, output, stored, place, hash) || is_file(start, place, hash),
        forall|path: Seq<char>| #[trigger]
            is_kept(files, stored, path) && place_of(path, output) == place ==> applied(
                files,
                entry,
            ).dom().contains(path) && applied(files, entry)[path] == files[path],
    ensures
        belongs(applied(files, entry), output, stored, place, hash) || is_file(start, place, hash),
{
    if belongs(files, output, stored, place, hash) {
        let path = choose|path: Seq<char>| #[trigger]
            is_kept(files, stored, path) && files[path] == Some(hash) && place_of(path, output)
                == place;
        assert(is_kept(applied(files, entry), stored, path));
    }
}

/// Whether no entry of a paced replay, as far as it gets, leaves anything in the output
/// that the tree does not have then.
pub open spec fn none_leaves_anything(
    places: Places,
    entries: Seq<EntryView>,
    output: Seq<u8>,
    blob_dir: Seq<u8>,
    stored: Set<Seq<char>>,
) -> bool
    decreases entries.len(),
{
    if entries.len() == 0 {
        true
    } else {
        let front = entries.drop_last();
        &&& none_leaves_anything(places, front, output, blob_dir, stored)
        &&& after_entries(places, front, output, blob_dir, stored) matches Some(before)
            ==> leaves_nothing(before, tree_after(front), entries.last(), output, stored)
    }
}

/// After a paced replay no file is in the output but those of the tree: one that is
/// there belongs to a path of the tree, with its content, or was there before.
pub proof fn law_paced_replay_leaves_nothing_else(
    places: Places,
    entries: Seq<EntryView>,
    output: Seq<u8>,
    blob_dir: Seq<u8>,
    stored: Set<Seq<char>>,
)
    requires
        is_tree(places),
        all_stay_below(entries),
        none_disturbs(places, entries, output, blob_dir, stored),
        none_leaves_anything(places, entries, output, blob_dir, stored),
    ensures
        after_entries(places, entries, output, blob_dir, stored) matches Some(after) ==> {
            &&& is_tree(after)
            &&& forall|place: Seq<Seq<u8>>, hash: Seq<char>| #[trigger]
                is_file(after, place, hash) ==> belongs(
                    tree_after(entries),
                    output,
                    stored,
                    place,
                    hash,
                ) || is_file(places, place, hash)
        },
    decreases entries.len(),
{
    if entries.len() > 0 {
        let front = entries.drop_last();
        let files = tree_after(front);
        lemma_tree_stays_below(entries);
        law_paced_replay_leaves_nothing_else(places, front, output, blob_dir, stored);
        law_paced_replay_shows_the_tree(places, front, output, blob_dir, stored);
        if let Some(before) = after_entries(places, front, output, blob_dir, stored) {
            lemma_plan_keeps_tree(before, files, entries.last(), output, blob_dir, stored);
            if let Some(after) = after_entries(places, entries, output, blob_dir, stored) {
                assert forall|place: Seq<Seq<u8>>, hash: Seq<char>| #[trigger]
                    is_file(after, place, hash) implies belongs(
                    tree_after(entries),
                    output,
                    stored,
                    place,
                    hash,
                ) || is_file(places, place, hash) by {
                    lemma_files_belong(
                        places,
                        before,
                        files,
                        entries.last(),
                        output,
                        blob_dir,
                        stored,
                        place,
                        hash,
                    );
                }
            }
        }
    }
}

/// Whether there is no file in the output.
pub open spec fn has_no_files(places: Places) -> bool {
    forall|p: Seq<Seq<u8>>| #[trigger] places.dom().contains(p) ==> !(places[p] is File)
}

/// The pace changes when files appear, not which: into an output without files, a
/// paced replay that does not fail and one without pauses bring the same files with
/// the same contents.  This is where no entry disturbs a path or leaves anything, and
/// no later path of the tree disturbs one that is kept.
pub proof fn law_pace_does_not_change_the_files(
    places: Places,
    entries: Seq<EntryView>,
    state: TextMap<FileState>,
    output: Seq<u8>,
    blob_dir: Seq<u8>,
    stored: Set<Seq<char>>,
    place: Seq<Seq<u8>>,
    hash: Seq<char>,
)
    requires
        has_no_files(places),
        state.wf(),
        hashes(state) == tree_after(entries),
        all_stay_below(entries),
        none_disturbs(places, entries, output, blob_dir, stored),
        none_leaves_anything(places, entries, output, blob_dir, stored),
        forall|path: Seq<char>, q: Seq<char>|
            (#[trigger] is_kept(hashes(state), stored, path)) && (
            #[trigger] hashes(state).dom().contains(q)) && text_less(path, q) ==> !disturbs(
                write_of(q, hashes(state)[q], output, blob_dir),
                place_of(path, output),
                stored,
            ),
    ensures
        after_entries(places, entries, output, blob_dir, stored) matches Some(paced) ==> (is_file(
            paced,
            place,
            hash,
        ) <==> is_file(
            after_writes(places, writes_of(state, output, blob_dir), stored),
            place,
            hash,
        )),
{
    let files = tree_after(entries);
    let steps = writes_of(state, output, blob_dir);
    lemma_tree_stays_below(entries);
    law_paced_replay_shows_the_tree(places, entries, output, blob_dir, stored);
    law_paced_replay_leaves_nothing_else(places, entries, output, blob_dir, stored);
    if let Some(paced) = after_entries(places, entries, output, blob_dir, stored) {
        if is_file(paced, place, hash) {
            assert(belongs(files, output, stored, place, hash));
            let path = choose|path: Seq<char>| #[trigger]
                is_kept(files, stored, path) && files[path] == Some(hash) && place_of(path, output)
                    == place;
            law_tree_is_materialized(places, state, output, blob_dir, stored, path, hash);
        }
        if is_file(after_writes(places, steps, stored), place, hash) {
            assert forall|i: int| 0 <= i < steps.len() implies stays_below(
                (#[trigger] steps[i]).rel_path,
            ) by {
                state.lemma_at(i);
                assert(files.dom().contains(state.pairs()[i].0@));
            }
            law_no_other_files_appear(places, steps, stored, place, hash);
            let i = choose|i: int|
                0 <= i < steps.len() && writes(#[trigger] steps[i], place, hash, stored);
            state.lemma_at(i);
            let path = state.pairs()[i].0@;
            assert(steps[i] == write_of(path, files[path], output, blob_dir));
            assert(is_kept(files, stored, path));
            assert(shows(paced, files, output, stored, path));
        }
    }
}

/// Whether an entry names a path.
pub open spec fn is_named(entries: Seq<EntryView>, path: Seq<char>) -> bool {
    exists|i: int|
        0 <= i < entries.len() && ((#[trigger] entries[i]).path == path || entries[i].dest_path
            == Some(path))
}

/// Whether each path that an entry names has a place in the output, and those in
/// `filed`, which are the files, have one that does not lead to that of another path.
pub open spec fn files_are_apart(
    entries: Seq<EntryView>,
    output: Seq<u8>,
    filed: Set<Seq<char>>,
) -> bool {
    &&& forall|p: Seq<char>| #[trigger] is_named(entries, p) ==> place_of(p, output).len() > 0
    &&& forall|p: Seq<char>, q: Seq<char>|
        (#[trigger] filed.contains(p)) && (#[trigger] is_named(entries, q)) && p != q
            ==> !place_of(p, output).is_prefix_of(place_of(q, output))
}

/// Whether a log treats the paths in `filed` as files, and all others as directories.
/// A create or a modify has a content, and that in the blob store, exactly where it is
/// of a file.  A delete is of something in which there is no file then.  A rename is
/// of a file with a content, to a file, and has no content of its own.
pub open spec fn is_orderly(
    entries: Seq<EntryView>,
    output: Seq<u8>,
    stored: Set<Seq<char>>,
    filed: Set<Seq<char>>,
) -> bool
    decreases entries.len(),
{
    if entries.len() == 0 {
        true
    } else {
        let front = entries.drop_last();
        let entry = entries.last();
        let after = tree_after(entries);
        &&& is_orderly(front, output, stored, filed)
        &&& match entry.op {
            Operation::Create | Operation::Modify => is_kept(after, stored, entry.path)
                == filed.contains(entry.path),
            Operation::Delete => forall|path: Seq<char>| #[trigger]
                is_kept(after, stored, path) ==> !place_of(entry.path, output).is_prefix_of(
                    place_of(path, output),
                ),
            Operation::Rename => entry.dest_path matches Some(dest) ==> {
                &&& entry.content_hash is None
                &&& is_kept(tree_after(front), stored, entry.path)
                &&& filed.contains(dest)
            },
            Operation::Install => true,
        }
    }
}

/// Every path of the tree was named, and those of an orderly log whose content is kept
/// are files.
proof fn lemma_kept_are_files(
    entries: Seq<EntryView>,
    output: Seq<u8>,
    stored: Set<Seq<char>>,
    filed: Set<Seq<char>>,
)
    ensures
        forall|path: Seq<char>| #[trigger]
            tree_after(entries).dom().contains(path) ==> is_named(entries, path),
        is_orderly(entries, output, stored, filed) ==> forall|path: Seq<char>| #[trigger]
            is_kept(tree_after(entries), stored, path) ==> filed.contains(path),
    decreases entries.len(),
{
    if entries.len() > 0 {
        let front = entries.drop_last();
        let entry = entries.last();
        let files = tree_after(front);
        lemma_kept_are_files(front, output, stored, filed);
        assert forall|path: Seq<char>| #[trigger]
            tree_after(entries).dom().contains(path) implies is_named(entries, path) by {
            assert(files.dom().contains(path) ==> is_named(front, path));
            lemma_still_named(entries, path);
        }
        if is_orderly(entries, output, stored, filed) {
            assert forall|path: Seq<char>| #[trigger]
                is_kept(tree_after(entries), stored, path) implies filed.contains(path) by {
                assert(is_kept(files, stored, path) ==> filed.contains(path));
            }
        }
    }
}

/// A path that was named before the last entry was named.
proof fn lemma_still_named(entries: Seq<EntryView>, path: Seq<char>)
    requires
        entries.len() > 0,
    ensures
        is_named(entries.drop_last(), path) ==> is_named(entries, path),
        is_named(entries, entries.last().path),
        entries.last().dest_path is Some ==> is_named(entries, entries.last().dest_path->0),
{
    let front = entries.drop_last();
    if is_named(front, path) {
        let i = choose|i: int|
            0 <= i < front.len() && ((#[trigger] front[i]).path == path || front[i].dest_path
                == Some(path));
        assert(entries[i] == front[i]);
    }
    assert(entries[entries.len() - 1] == entries.last());
}

/// What leads to what holds a place leads to the place, and is not the place.
proof fn lemma_above_parent(p: Seq<Seq<u8>>, path: Seq<u8>)
    ensures
        parent_of(path) matches Some(dir) ==> (p.is_prefix_of(dir) ==> p.is_prefix_of(
            components(path),
        ) && p.len() < components(path).len()),
{
    if let Some(dir) = parent_of(path) {
        if p.is_prefix_of(dir) {
            let whole = components(path);
            assert(dir =~= whole.take(whole.len() - 1));
            lemma_prefixes(p, dir, whole);
        }
    }
}

/// Whether no directory is at the place of a file.
pub open spec fn files_have_room(
    places: Places,
    output: Seq<u8>,
    filed: Set<Seq<char>>,
) -> bool {
    forall|p: Seq<char>| #[trigger]
        filed.contains(p) ==> !(places.dom().contains(place_of(p, output)) && places[place_of(
            p,
            output,
        )] is Directory)
}

/// Making the directory of a path leaves the files room.
proof fn lemma_parent_leaves_room(
    places: Places,
    entries: Seq<EntryView>,
    output: Seq<u8>,
    filed: Set<Seq<char>>,
    path: Seq<char>,
)
    requires
        files_are_apart(entries, output, filed),
        files_have_room(places, output, filed),
        is_named(entries, path),
    ensures
        files_have_room(
            with_parent(places, parent_of(joined(output, bytes_of(path)))),
            output,
            filed,
        ),
{
    let ready = with_parent(places, parent_of(joined(output, bytes_of(path))));
    assert forall|p: Seq<char>| #[trigger] filed.contains(p) implies !(ready.dom().contains(
        place_of(p, output),
    ) && ready[place_of(p, output)] is Directory) by {
        lemma_above_parent(place_of(p, output), joined(output, bytes_of(path)));
    }
}

/// An entry of an orderly log can be carried out, disturbs nothing, leaves nothing, and
/// leaves the files room.
proof fn lemma_orderly_entry(
    places: Places,
    entries: Seq<EntryView>,
    output: Seq<u8>,
    blob_dir: Seq<u8>,
    stored: Set<Seq<char>>,
    filed: Set<Seq<char>>,
)
    requires
        entries.len() > 0,
        files_are_apart(entries, output, filed),
        is_orderly(entries, output, stored, filed),
        is_tree(places),
        files_have_room(places, output, filed),
        forall|p: Seq<char>| shows(places, tree_after(entries.drop_last()), output, stored, p),
    ensures
        forall|path: Seq<char>| #[trigger]
            is_kept(tree_after(entries), stored, path) ==> !entry_disturbs(
                places,
                tree_after(entries.drop_last()),
                entries.last(),
                output,
                blob_dir,
                stored,
                path,
            ),
        leaves_nothing(
            places,
            tree_after(entries.drop_last()),
            entries.last(),
            output,
            stored,
        ),
        after_plan(
            places,
            plan_of(entries.last(), tree_after(entries), output, blob_dir),
            stored,
        ) matches Some(then) && files_have_room(then, output, filed),
{
    let front = entries.drop_last();
    let entry = entries.last();
    let files = tree_after(front);
    let after = tree_after(entries);
    let from = place_of(entry.path, output);
    let plan = plan_of(entry, after, output, blob_dir);
    lemma_kept_are_files(front, output, stored, filed);
    lemma_kept_are_files(entries, output, stored, filed);
    lemma_still_named(entries, entry.path);
    match plan {
        PlanView::Write(step) => {
            lemma_parent_leaves_room(places, entries, output, filed, entry.path);
        },
        PlanView::Move { from_path, to } => {
            let dest = entry.dest_path->0;
            let target = place_of(dest, output);
            let ready = with_parent(places, to.parent);
            lemma_parent_leaves_room(places, entries, output, filed, dest);
            lemma_above_parent(from, to.out_path);
            assert(shows(places, files, output, stored, entry.path));
            assert(filed.contains(entry.path));
            assert(after[dest] == files[entry.path]);
            assert(is_kept(after, stored, dest));
            assert(ready.dom().contains(from) && ready[from] is File);
            assert(can_move(ready, from, target));
            let then = with_moved(ready, from, target);
            lemma_parent_keeps_tree(places, to.parent);
            assert forall|p: Seq<char>| #[trigger] filed.contains(p) implies !(then.dom().contains(
                place_of(p, output),
            ) && then[place_of(p, output)] is Directory) by {
                let place = place_of(p, output);
                if target.is_prefix_of(place) && then.dom().contains(place) {
                    let old = from + place.skip(target.len() as int);
                    assert(from =~= old.take(from.len() as int));
                    assert(ready.dom().contains(old));
                    assert(old == from);
                }
            }
        },
        _ => {},
    }
    assert forall|path: Seq<char>| #[trigger] is_kept(after, stored, path) implies !entry_disturbs(
        places,
        files,
        entry,
        output,
        blob_dir,
        stored,
        path,
    ) by {
        let place = place_of(path, output);
        assert(filed.contains(path) && is_named(entries, path));
        match plan {
            PlanView::Write(step) => {
                lemma_above_parent(place, step.out_path);
            },
            PlanView::Move { from_path, to } => {
                lemma_above_parent(place, to.out_path);
            },
            _ => {},
        }
    }
}

/// An orderly log can be replayed at its pace, and no entry disturbs or leaves
/// anything.
proof fn lemma_orderly(
    places: Places,
    entries: Seq<EntryView>,
    output: Seq<u8>,
    blob_dir: Seq<u8>,
    stored: Set<Seq<char>>,
    filed: Set<Seq<char>>,
)
    requires
        is_tree(places),
        all_stay_below(entries),
        files_are_apart(entries, output, filed),
        is_orderly(entries, output, stored, filed),
        files_have_room(places, output, filed),
    ensures
        none_disturbs(places, entries, output, blob_dir, stored),
        none_leaves_anything(places, entries, output, blob_dir, stored),
        after_entries(places, entries, output, blob_dir, stored) matches Some(after)
            && files_have_room(after, output, filed),
    decreases entries.len(),
{
    if entries.len() > 0 {
        let front = entries.drop_last();
        assert forall|p: Seq<char>| #[trigger] is_named(front, p) implies is_named(entries, p) by {
            lemma_still_named(entries, p);
        }
        lemma_tree_stays_below(entries);
        lemma_orderly(places, front, output, blob_dir, stored, filed);
        law_paced_replay_shows_the_tree(places, front, output, blob_dir, stored);
        law_paced_replay_leaves_nothing_else(places, front, output, blob_dir, stored);
        let before = after_entries(places, front, output, blob_dir, stored)->0;
        lemma_orderly_entry(before, entries, output, blob_dir, stored, filed);
    }
}

/// The pace changes when files appear, not which, for every orderly log: into an
/// output without files, and without directories where files are to be, a paced replay
/// does not fail, and brings the same files with the same contents as one without
/// pauses.
pub proof fn law_same_files_at_any_pace(
    places: Places,
    entries: Seq<EntryView>,
    state: TextMap<FileState>,
    output: Seq<u8>,
    blob_dir: Seq<u8>,
    stored: Set<Seq<char>>,
    filed: Set<Seq<char>>,
    place: Seq<Seq<u8>>,
    hash: Seq<char>,
)
    requires
        has_no_files(places),
        files_have_room(places, output, filed),
        state.wf(),
        hashes(state) == tree_after(entries),
        all_stay_below(entries),
        files_are_apart(entries, output, filed),
        is_orderly(entries, output, stored, filed),
    ensures
        after_entries(places, entries, output, blob_dir, stored) matches Some(paced) && (is_file(
            paced,
            place,
            hash,
        ) <==> is_file(
            after_writes(places, writes_of(state, output, blob_dir), stored),
            place,
            hash,
        )),
{
    lemma_orderly(places, entries, output, blob_dir, stored, filed);
    lemma_kept_are_files(entries, output, stored, filed);
    let files = tree_after(entries);
    assert forall|path: Seq<char>, q: Seq<char>|
        (#[trigger] is_kept(hashes(state), stored, path)) && (
        #[trigger] hashes(state).dom().contains(q)) && text_less(path, q) implies !disturbs(
        write_of(q, hashes(state)[q], output, blob_dir),
        place_of(path, output),
        stored,
    ) by {
        lemma_text_less_irreflexive(path);
        lemma_above_parent(place_of(path, output), joined(output, bytes_of(q)));
        assert(files.dom().contains(path) && is_named(entries, path) && is_named(entries, q));
        assert(content_of(write_of(q, files[q], output, blob_dir), stored) is Some ==> is_kept(
            files,
            stored,
            q,
        ));
    }
    law_pace_does_not_change_the_files(
        places,
        entries,
        state,
        output,
        blob_dir,
        stored,
        place,
        hash,
    );
}

/// In a paced replay a deleted path is gone from the output, with all that was in
/// it.
pub proof fn law_deleted_paths_disappear(
    places: Places,
    files: Map<Seq<char>, Option<Seq<char>>>,
    entry: EntryView,
    output: Seq<u8>,
    blob_dir: Seq<u8>,
    stored: Set<Seq<char>>,
    place: Seq<Seq<u8>>,
)
    requires
        stays_below(entry.path),
        entry.op == Operation::Delete,
        place_of(entry.path, output).is_prefix_of(place),
    ensures
        after_plan(places, plan_of(entry, files, output, blob_dir), stored) matches Some(after)
            && !after.dom().contains(place),
{
}

/// In a paced replay a rename of something that is in the output moves it, whether or
/// not a content is known for it: where the rename can be carried out, all that was at
/// the old place and in it is at the new one and in it, and nothing is left at the old
/// one.
pub proof fn law_renames_move_what_is_there(
    places: Places,
    files: Map<Seq<char>, Option<Seq<char>>>,
    entry: EntryView,
    dest: Seq<char>,
    output: Seq<u8>,
    blob_dir: Seq<u8>,
    stored: Set<Seq<char>>,
    below: Seq<Seq<u8>>,
)
    requires
        entry_stays_below(entry),
        entry.op == Operation::Rename,
        entry.dest_path == Some(dest),
        places.dom().contains(place_of(entry.path, output)),
    ensures
        ({
            let old = place_of(entry.path, output);
            let new = place_of(dest, output);
            after_plan(places, plan_of(entry, files, output, blob_dir), stored) matches Some(after)
                ==> {
                &&& after.dom().contains(new + below) <==> places.dom().contains(old + below)
                &&& places.dom().contains(old + below) ==> after[new + below] == places[old + below]
                &&& old != new ==> !after.dom().contains(old + below)
            }
        }),
{
    let old = place_of(entry.path, output);
    let new = place_of(dest, output);
    let to_path = joined(output, bytes_of(dest));
    let ready = with_parent(places, parent_of(to_path));
    lemma_above_parent(old, to_path);
    assert(old.is_prefix_of(old + below)) by {
        assert(old =~= (old + below).take(old.len() as int));
    }
    assert(new.is_prefix_of(new + below)) by {
        assert(new =~= (new + below).take(new.len() as int));
    }
    assert((new + below).skip(new.len() as int) =~= below);
    if let Some(dir) = parent_of(to_path) {
        if (old + below).is_prefix_of(dir) {
            lemma_prefixes(old, old + below, dir);
        }
    }
    if can_move(ready, old, new) && old != new && new.is_prefix_of(old + below) {
        if new.len() <= old.len() {
            assert(new =~= old.take(new.len() as int)) by {
                assert(new == (old + below).take(new.len() as int));
            }
        } else {
            assert(old =~= new.take(old.len() as int)) by {
                assert(new == (old + below).take(new.len() as int));
            }
        }
    }
}

/// In a paced replay a rename can be carried out where the old place is taken and
/// nothing is at the new one, neither of which leads to the other.
pub proof fn law_renames_to_a_free_place_work(
    places: Places,
    files: Map<Seq<char>, Option<Seq<char>>>,
    entry: EntryView,
    dest: Seq<char>,
    output: Seq<u8>,
    blob_dir: Seq<u8>,
    stored: Set<Seq<char>>,
)
    requires
        entry_stays_below(entry),
        entry.op == Operation::Rename,
        entry.dest_path == Some(dest),
        !places.dom().contains(place_of(dest, output)),
        !place_of(entry.path, output).is_prefix_of(place_of(dest, output)),
        !place_of(dest, output).is_prefix_of(place_of(entry.path, output)),
    ensures
        after_plan(places, plan_of(entry, files, output, blob_dir), stored) is Some,
{
    let to_path = joined(output, bytes_of(dest));
    lemma_above_parent(place_of(dest, output), to_path);
    lemma_above_parent(place_of(entry.path, output), to_path);
}

/// In a paced replay a rename of something that is not in the output writes the content
/// of the new path, where it is kept.
pub proof fn law_renames_write_what_is_missing(
    places: Places,
    files: Map<Seq<char>, Option<Seq<char>>>,
    entry: EntryView,
    dest: Seq<char>,
    output: Seq<u8>,
    blob_dir: Seq<u8>,
    stored: Set<Seq<char>>,
    hash: Seq<char>,
)
    requires
        entry_stays_below(entry),
        entry.op == Operation::Rename,
        entry.dest_path == Some(dest),
        !places.dom().contains(place_of(entry.path, output)),
        !place_of(entry.path, output).is_prefix_of(place_of(dest, output)),
        files.dom().contains(dest),
        files[dest] == Some(hash),
        can_be_filed(hash),
        stored.contains(hash),
    ensures
        after_plan(places, plan_of(entry, files, output, blob_dir), stored) matches Some(after)
            && is_file(after, place_of(dest, output), hash),
{
    lemma_above_parent(place_of(entry.path, output), joined(output, bytes_of(dest)));
}

/// In a paced replay a created or modified path is at once in the output, with its
/// content, where that is kept.
pub proof fn law_written_paths_appear(
    places: Places,
    files: Map<Seq<char>, Option<Seq<char>>>,
    entry: EntryView,
    output: Seq<u8>,
    blob_dir: Seq<u8>,
    stored: Set<Seq<char>>,
    hash: Seq<char>,
)
    requires
        entry_stays_below(entry),
        entry.op == Operation::Create || entry.op == Operation::Modify,
        entry.content_hash == Some(hash),
        can_be_filed(hash),
        stored.contains(hash),
    ensures
        after_plan(
            places,
            plan_of(entry, applied(files, entry), output, blob_dir),
            stored,
        ) matches Some(after) && is_file(after, place_of(entry.path, output), hash),
{
}

/// In a paced replay all that leads to the place of a path that is created, modified or
/// renamed to is a directory afterwards, with or without a content.
pub proof fn law_directories_appear(
    places: Places,
    files: Map<Seq<char>, Option<Seq<char>>>,
    entry: EntryView,
    path: Seq<char>,
    output: Seq<u8>,
    blob_dir: Seq<u8>,
    stored: Set<Seq<char>>,
    dir: Seq<Seq<u8>>,
)
    requires
        entry_stays_below(entry),
        (entry.op == Operation::Create || entry.op == Operation::Modify) && path == entry.path || (
        entry.op == Operation::Rename && entry.dest_path == Some(path)
            && !place_of(entry.path, output).is_prefix_of(dir)),
        dir.len() > 0,
        dir.is_prefix_of(place_of(path, output)),
        dir != place_of(path, output),
    ensures
        after_plan(places, plan_of(entry, files, output, blob_dir), stored) matches Some(after)
            ==> after.dom().contains(dir) && after[dir] is Directory,
{
    lemma_leads_to_parent(dir, joined(output, bytes_of(path)));
    let out = place_of(path, output);
    if out.is_prefix_of(dir) {
        assert(dir == out.take(dir.len() as int));
        assert(out == dir.take(out.len() as int));
        assert(dir =~= out);
    }
}

/// In a paced replay an entry changes nothing but what is at the places of the paths it
/// names, in them, and on the way to where it puts something.
pub proof fn law_other_places_stay(
    places: Places,
    files: Map<Seq<char>, Option<Seq<char>>>,
    entry: EntryView,
    output: Seq<u8>,
    blob_dir: Seq<u8>,
    stored: Set<Seq<char>>,
    place: Seq<Seq<u8>>,
)
    requires
        entry_stays_below(entry),
        !place_of(entry.path, output).is_prefix_of(place),
        entry.dest_path matches Some(dest) ==> !place_of(dest, output).is_prefix_of(place)
            && !place.is_prefix_of(place_of(dest, output)),
        entry.op != Operation::Delete ==> !place.is_prefix_of(place_of(entry.path, output)),
    ensures
        after_plan(places, plan_of(entry, files, output, blob_dir), stored) matches Some(after) ==> {
            &&& after.dom().contains(place) <==> places.dom().contains(place)
            &&& places.dom().contains(place) ==> after[place] == places[place]
        },
{
    lemma_above_parent(place, joined(output, bytes_of(entry.path)));
    if let Some(dest) = entry.dest_path {
        lemma_above_parent(place, joined(output, bytes_of(dest)));
    }
}

/// In a paced replay an installation, and a rename that leads nowhere, leave the output
/// to itself, and no entry but a rename fails.
pub proof fn law_some_entries_leave_the_output(
    places: Places,
    files: Map<Seq<char>, Option<Seq<char>>>,
    entry: EntryView,
    output: Seq<u8>,
    blob_dir: Seq<u8>,
    stored: Set<Seq<char>>,
)
    ensures
        entry.op == Operation::Install || (entry.op == Operation::Rename
            && entry.dest_path is None) ==> after_plan(
            places,
            plan_of(entry, files, output, blob_dir),
            stored,
        ) == Some(places),
        entry.op != Operation::Rename ==> after_plan(
            places,
            plan_of(entry, files, output, blob_dir),
            stored,
        ) is Some,
{
}

/// A replay without pauses makes a directory of all that leads to a path of the tree,
/// with or without a content, unless a later path writes a file there.
pub proof fn law_directories_are_made(
    places: Places,
    state: TextMap<FileState>,
    output: Seq<u8>,
    blob_dir: Seq<u8>,
    stored: Set<Seq<char>>,
    path: Seq<char>,
    dir: Seq<Seq<u8>>,
)
    requires
        state.wf(),
        tree_stays_below(hashes(state)),
        hashes(state).dom().contains(path),
        dir.len() > 0,
        dir.is_prefix_of(place_of(path, output)),
        dir != place_of(path, output),
        forall|q: Seq<char>| #[trigger]
            hashes(state).dom().contains(q) && text_less(path, q) ==> !place_of(
                q,
                output,
            ).is_prefix_of(dir),
    ensures
        ({
            let after = after_writes(places, writes_of(state, output, blob_dir), stored);
            after.dom().contains(dir) && after[dir] is Directory
        }),
{
    let steps = writes_of(state, output, blob_dir);
    state.lemma_place(path);
    let at = state.keys().index_of(path);
    assert(steps[at] == write_of(path, hashes(state)[path], output, blob_dir));
    lemma_leads_to_parent(dir, joined(output, bytes_of(path)));
    let out = place_of(path, output);
    if out.is_prefix_of(dir) {
        assert(dir == out.take(dir.len() as int));
        assert(out == dir.take(out.len() as int));
        assert(dir =~= out);
    }
    assert forall|i: int| at < i < steps.len() implies !components(
        (#[trigger] steps[i]).out_path,
    ).is_prefix_of(dir) by {
        state.lemma_at(i);
        assert(text_less(state.pairs()[at].0@, state.pairs()[i].0@));
        assert(hashes(state).dom().contains(state.pairs()[i].0@));
    }
    lemma_directory_stays(places, steps, stored, at, dir);
}

/// A directory that a step makes is there after all steps, unless a later one writes a
/// file there.
proof fn lemma_directory_stays(
    places: Places,
    steps: Seq<WriteView>,
    stored: Set<Seq<char>>,
    at: int,
    dir: Seq<Seq<u8>>,
)
    requires
        0 <= at < steps.len(),
        steps[at].parent matches Some(parent) && dir.is_prefix_of(parent),
        forall|i: int|
            at <= i < steps.len() ==> !components((#[trigger] steps[i]).out_path).is_prefix_of(dir),
    ensures
        after_writes(places, steps, stored).dom().contains(dir),
        after_writes(places, steps, stored)[dir] is Directory,
    decreases steps.len(),
{
    let front = steps.drop_last();
    assert(!components(steps[steps.len() - 1].out_path).is_prefix_of(dir));
    if at < steps.len() - 1 {
        assert(front[at] == steps[at]);
        assert forall|i: int| at <= i < front.len() implies !components(
            (#[trigger] front[i]).out_path,
        ).is_prefix_of(dir) by {
            assert(front[i] == steps[i]);
        }
        lemma_directory_stays(places, front, stored, at, dir);
    }
}

/// A replay without pauses has one step for every path of the tree, which goes by the
/// name of that path.
pub proof fn law_every_path_has_a_step(
    state: TextMap<FileState>,
    output: Seq<u8>,
    blob_dir: Seq<u8>,
    path: Seq<char>,
)
    requires
        state.wf(),
    ensures
        hashes(state).dom().contains(path) <==> exists|i: int|
            0 <= i < writes_of(state, output, blob_dir).len() && (#[trigger] writes_of(
                state,
                output,
                blob_dir,
            )[i]).rel_path == path,
        forall|i: int|
            0 <= i < writes_of(state, output, blob_dir).len() ==> {
                let step = #[trigger] writes_of(state, output, blob_dir)[i];
                step == write_of(step.rel_path, hashes(state)[step.rel_path], output, blob_dir)
            },
        forall|i: int, j: int|
            0 <= i < j < writes_of(state, output, blob_dir).len() ==> text_less(
                (#[trigger] writes_of(state, output, blob_dir)[i]).rel_path,
                (#[trigger] writes_of(state, output, blob_dir)[j]).rel_path,
            ),
{
    let steps = writes_of(state, output, blob_dir);
    if hashes(state).dom().contains(path) {
        state.lemma_place(path);
        assert(steps[state.keys().index_of(path)].rel_path == path);
    }
    if exists|i: int| 0 <= i < steps.len() && (#[trigger] steps[i]).rel_path == path {
        let i = choose|i: int| 0 <= i < steps.len() && (#[trigger] steps[i]).rel_path == path;
        state.lemma_at(i);
    }
    assert forall|i: int| 0 <= i < steps.len() implies #[trigger] steps[i] == write_of(
        steps[i].rel_path,
        hashes(state)[steps[i].rel_path],
        output,
        blob_dir,
    ) by {
        state.lemma_at(i);
    }
    assert forall|i: int, j: int| 0 <= i < j < steps.len() implies text_less(
        (#[trigger] steps[i]).rel_path,
        (#[trigger] steps[j]).rel_path,
    ) by {
        assert(text_less(state.pairs()[i].0@, state.pairs()[j].0@));
    }
}

/// A file is written to its place in the output, below the directory that holds it, and
/// from the blob of its content, where that has a name that a blob can have; where there
/// is none, there is nothing to write.
pub proof fn law_files_come_from_their_blobs(
    rel_path: Seq<char>,
    content_hash: Option<Seq<char>>,
    output: Seq<u8>,
    blob_dir: Seq<u8>,
)
    ensures
        ({
            let step = write_of(rel_path, content_hash, output, blob_dir);
            let out = components(joined(output, bytes_of(rel_path)));
            &&& step.rel_path == rel_path
            &&& step.out_path == joined(output, bytes_of(rel_path))
            &&& step.parent is None <==> out.len() == 0 || out.last() == root()
            &&& step.parent matches Some(dir) ==> dir.push(out.last()) == out
            &&& step.source is NoSnapshot <==> content_hash is None
            &&& step.source matches SourceView::Blob { hash, path } ==> content_hash == Some(hash)
                && can_be_filed(hash) && path == blob_bytes(blob_dir, hash)
            &&& step.source matches SourceView::Unfileable { hash } ==> content_hash == Some(hash)
                && !can_be_filed(hash)
        }),
{
    let out = components(joined(output, bytes_of(rel_path)));
    if out.len() > 0 {
        assert(out.drop_last().push(out.last()) =~= out);
    }
}

/// What is done about an entry of a paced replay is done at the place of its path, and of
/// its destination for a rename: a create or a modify writes the content that it brings, a
/// delete removes, and a rename moves, or writes the content that the tree has there.
pub proof fn law_plans_are_about_their_paths(
    files: Map<Seq<char>, Option<Seq<char>>>,
    entry: EntryView,
    output: Seq<u8>,
    blob_dir: Seq<u8>,
)
    ensures
        ({
            let plan = plan_of(entry, applied(files, entry), output, blob_dir);
            let out = joined(output, bytes_of(entry.path));
            &&& entry.op is Create || entry.op is Modify <==> plan is Write
            &&& plan matches PlanView::Write(step) ==> step == write_of(
                entry.path,
                entry.content_hash,
                output,
                blob_dir,
            )
            &&& entry.op is Delete <==> plan is Remove
            &&& plan matches PlanView::Remove { out_path } ==> out_path == out
            &&& entry.op is Rename && entry.dest_path is Some <==> plan is Move
            &&& plan matches PlanView::Move { from_path, to } ==> from_path == out && to == write_of(
                entry.dest_path->0,
                applied(files, entry)[entry.dest_path->0],
                output,
                blob_dir,
            )
        }),
{
}


/// What is found in the blob store when a file is written is what a snapshot of
/// that content put there.
pub proof fn law_blobs_are_found_again(blob_dir: Seq<u8>, content: Seq<u8>)
    requires
        is_content_name(content_name(content)),
    ensures
        source_of(Some(content_name(content)), blob_dir) == (SourceView::Blob {
            hash: content_name(content),
            path: blob_bytes(blob_dir, content_name(content)),
        }),
{
    lemma_plain_content_name(content_name(content));
}

} // verus!
