//! From the state of the tree to files in the output directory.
use std::path::{Path, PathBuf};

use vstd::prelude::*;

use crate::blobs::{blob_bytes, blob_path, can_be_filed};
use crate::log::{EntryView, LogEntry, Operation};
use crate::paths::{
    as_path, buf_parts, bytes_of, components, extends, has_root, join, joined,
    lemma_root_comes_first, parent, parts, path_buf_bytes, path_bytes, root, to_path_buf,
};
use crate::replay::{FileState, hashes};
use crate::text::opt_text;
use crate::text_map::TextMap;

verus! {

/// Where the content of a file comes from.
pub enum Source {
    /// There is no snapshot, so there is nothing to write.
    NoSnapshot,
    /// The blob at this path.
    Blob {
        /// The name of the content.
        hash: String,
        /// The path of the blob.
        path: PathBuf,
    },
    /// The name of the content is too short to be that of a blob.
    Unfileable {
        /// The name of the content.
        hash: String,
    },
}

/// A file that is to be written.
pub struct WriteStep {
    /// The path relative to the output directory.
    pub rel_path: String,
    /// The path of the file.
    pub out_path: PathBuf,
    /// The directory that has to be there first.
    pub parent: Option<PathBuf>,
    /// Where the content comes from.
    pub source: Source,
}

/// A source, with its texts and paths as sequences.
#[verifier::ext_equal]
pub enum SourceView {
    NoSnapshot,
    Blob { hash: Seq<char>, path: Seq<u8> },
    Unfileable { hash: Seq<char> },
}

/// A write step, with its texts and paths as sequences; the directory is seen as
/// its components.
#[verifier::ext_equal]
pub struct WriteView {
    pub rel_path: Seq<char>,
    pub out_path: Seq<u8>,
    pub parent: Option<Seq<Seq<u8>>>,
    pub source: SourceView,
}

impl View for Source {
    type V = SourceView;

    open spec fn view(&self) -> SourceView {
        match *self {
            Source::NoSnapshot => SourceView::NoSnapshot,
            Source::Blob { hash, path } => SourceView::Blob {
                hash: hash@,
                path: path_buf_bytes(&path),
            },
            Source::Unfileable { hash } => SourceView::Unfileable { hash: hash@ },
        }
    }
}

impl View for WriteStep {
    type V = WriteView;

    open spec fn view(&self) -> WriteView {
        WriteView {
            rel_path: self.rel_path@,
            out_path: path_buf_bytes(&self.out_path),
            parent: match self.parent {
                Some(dir) => Some(buf_parts(&dir)),
                None => None,
            },
            source: self.source@,
        }
    }
}

/// The path without its last component, if it has one besides the root.
pub open spec fn parent_of(path: Seq<u8>) -> Option<Seq<Seq<u8>>> {
    let whole = components(path);
    if whole.len() == 0 || whole.last() == root() {
        None
    } else {
        Some(whole.drop_last())
    }
}

/// Where a content comes from.
pub open spec fn source_of(content_hash: Option<Seq<char>>, blob_dir: Seq<u8>) -> SourceView {
    match content_hash {
        None => SourceView::NoSnapshot,
        Some(hash) => if can_be_filed(hash) {
            SourceView::Blob { hash, path: blob_bytes(blob_dir, hash) }
        } else {
            SourceView::Unfileable { hash }
        },
    }
}

/// How a file of the tree is written.
pub open spec fn write_of(
    rel_path: Seq<char>,
    content_hash: Option<Seq<char>>,
    output: Seq<u8>,
    blob_dir: Seq<u8>,
) -> WriteView {
    let out_path = joined(output, bytes_of(rel_path));
    WriteView {
        rel_path,
        out_path,
        parent: parent_of(out_path),
        source: source_of(content_hash, blob_dir),
    }
}

/// Whether a path of the tree, adjoined to the output directory, leads below it.
pub open spec fn lies_below(path: Seq<char>, output: Seq<u8>) -> bool {
    components(joined(output, bytes_of(path))) == components(output) + components(bytes_of(path))
}

/// Whether those paths that an entry plan is about, and that are relative, lead below
/// the output directory.
pub open spec fn relative_ones_lie_below(entry: EntryView, output: Seq<u8>) -> bool {
    let path_does = extends(bytes_of(entry.path)) ==> lies_below(entry.path, output);
    match entry.op {
        Operation::Create | Operation::Modify | Operation::Delete => path_does,
        Operation::Rename => entry.dest_path matches Some(dest) ==> path_does && (extends(
            bytes_of(dest),
        ) ==> lies_below(dest, output)),
        Operation::Install => true,
    }
}

/// Finds how a file of the tree is written.
fn write_step(
    rel_path: &String,
    content_hash: &Option<String>,
    output: &Path,
    blob_dir: &Path,
) -> (r: WriteStep)
    ensures
        r@ == write_of(
            rel_path@,
            opt_text(*content_hash),
            path_bytes(output),
            path_bytes(blob_dir),
        ),
        extends(bytes_of(rel_path@)) ==> lies_below(rel_path@, path_bytes(output)),
{
    let out_path = join(output, rel_path.as_str());
    let dir = match parent(as_path(&out_path)) {
        Some(dir) => Some(to_path_buf(dir)),
        None => None,
    };
    let source = match content_hash {
        None => Source::NoSnapshot,
        Some(hash) => match blob_path(blob_dir, hash.as_str()) {
            Some(path) => Source::Blob { hash: hash.clone(), path },
            None => Source::Unfileable { hash: hash.clone() },
        },
    };
    WriteStep { rel_path: rel_path.clone(), out_path, parent: dir, source }
}

/// The write steps, with their texts and paths as sequences.
pub open spec fn write_views(steps: Seq<WriteStep>) -> Seq<WriteView> {
    steps.map_values(|step: WriteStep| step@)
}

/// How the files of a tree are written, in text order of their paths.
pub open spec fn writes_of(
    state: TextMap<FileState>,
    output: Seq<u8>,
    blob_dir: Seq<u8>,
) -> Seq<WriteView> {
    state.pairs().map_values(
        |pair: (String, FileState)|
            write_of(pair.0@, opt_text(pair.1.content_hash), output, blob_dir),
    )
}

/// Finds how the files of a tree are written: one step for every path that exists,
/// in text order.
pub fn materialize_all(state: &TextMap<FileState>, output: &Path, blob_dir: &Path) -> (r: Vec<
    WriteStep,
>)
    ensures
        write_views(r@) == writes_of(*state, path_bytes(output), path_bytes(blob_dir)),
        forall|i: int|
            0 <= i < r@.len() && extends(bytes_of((#[trigger] r@[i]).rel_path@)) ==> lies_below(
                r@[i].rel_path@,
                path_bytes(output),
            ),
{
    let ghost all = writes_of(*state, path_bytes(output), path_bytes(blob_dir));
    let mut steps: Vec<WriteStep> = Vec::new();
    let mut at: usize = 0;
    assert(write_views(steps@) =~= all.take(0));
    while at < state.len()
        invariant
            at <= state.pairs().len(),
            all == writes_of(*state, path_bytes(output), path_bytes(blob_dir)),
            write_views(steps@) == all.take(at as int),
            steps@.len() == at,
            forall|i: int|
                0 <= i < steps@.len() && extends(bytes_of((#[trigger] steps@[i]).rel_path@))
                    ==> lies_below(steps@[i].rel_path@, path_bytes(output)),
        decreases state.pairs().len() - at,
    {
        let ghost before = steps@;
        steps.push(write_step(state.key(at), &state.value(at).content_hash, output, blob_dir));
        assert(write_views(steps@) =~= write_views(before).push(steps@.last()@));
        assert(all.take(at + 1) =~= all.take(at as int).push(all[at as int]));
        at = at + 1;
    }
    assert(all.take(at as int) =~= all);
    steps
}

/// What an entry does to the output directory.
pub enum EntryPlan {
    /// A file is written.
    Write(WriteStep),
    /// Whatever is at the path is removed.
    Remove {
        /// The path.
        out_path: PathBuf,
    },
    /// A path gets another name.
    Move {
        /// The old path.
        from_path: PathBuf,
        /// How the new path is written where there is nothing at the old one.
        to: WriteStep,
    },
    /// Nothing.
    Nothing,
}

/// An entry plan, with its texts and paths as sequences.
#[verifier::ext_equal]
pub enum PlanView {
    Write(WriteView),
    Remove { out_path: Seq<u8> },
    Move { from_path: Seq<u8>, to: WriteView },
    Nothing,
}

impl View for EntryPlan {
    type V = PlanView;

    open spec fn view(&self) -> PlanView {
        match *self {
            EntryPlan::Write(step) => PlanView::Write(step@),
            EntryPlan::Remove { out_path } => PlanView::Remove {
                out_path: path_buf_bytes(&out_path),
            },
            EntryPlan::Move { from_path, to } => PlanView::Move {
                from_path: path_buf_bytes(&from_path),
                to: to@,
            },
            EntryPlan::Nothing => PlanView::Nothing,
        }
    }
}

/// The name of the content at a path of the tree, if that is known.
pub open spec fn known_hash(
    files: Map<Seq<char>, Option<Seq<char>>>,
    path: Seq<char>,
) -> Option<Seq<char>> {
    if files.dom().contains(path) {
        files[path]
    } else {
        None
    }
}

/// What an entry does to the output directory, once the tree is what it is after
/// the entry.
pub open spec fn plan_of(
    entry: EntryView,
    files: Map<Seq<char>, Option<Seq<char>>>,
    output: Seq<u8>,
    blob_dir: Seq<u8>,
) -> PlanView {
    match entry.op {
        Operation::Create | Operation::Modify => PlanView::Write(
            write_of(entry.path, known_hash(files, entry.path), output, blob_dir),
        ),
        Operation::Delete => PlanView::Remove {
            out_path: joined(output, bytes_of(entry.path)),
        },
        Operation::Rename => match entry.dest_path {
            Some(dest) => PlanView::Move {
                from_path: joined(output, bytes_of(entry.path)),
                to: write_of(dest, known_hash(files, dest), output, blob_dir),
            },
            None => PlanView::Nothing,
        },
        Operation::Install => PlanView::Nothing,
    }
}

/// Finds how a path of the tree is written.
fn write_known(state: &TextMap<FileState>, path: &String, output: &Path, blob_dir: &Path) -> (r:
    WriteStep)
    requires
        state.wf(),
    ensures
        r@ == write_of(
            path@,
            known_hash(hashes(*state), path@),
            path_bytes(output),
            path_bytes(blob_dir),
        ),
        extends(bytes_of(path@)) ==> lies_below(path@, path_bytes(output)),
{
    match state.get(path.as_str()) {
        Some(file) => write_step(path, &file.content_hash, output, blob_dir),
        None => write_step(path, &None, output, blob_dir),
    }
}

/// Finds what an entry does to the output directory, once it is applied to the
/// tree.
pub fn materialize_entry(
    entry: &LogEntry,
    state: &TextMap<FileState>,
    output: &Path,
    blob_dir: &Path,
) -> (r: EntryPlan)
    requires
        state.wf(),
    ensures
        r@ == plan_of(entry@, hashes(*state), path_bytes(output), path_bytes(blob_dir)),
        relative_ones_lie_below(entry@, path_bytes(output)),
{
    match entry.op {
        Operation::Create | Operation::Modify => EntryPlan::Write(
            write_known(state, &entry.path, output, blob_dir),
        ),
        Operation::Delete => EntryPlan::Remove { out_path: join(output, entry.path.as_str()) },
        Operation::Rename => match &entry.dest_path {
            Some(dest) => EntryPlan::Move {
                from_path: join(output, entry.path.as_str()),
                to: write_known(state, dest, output, blob_dir),
            },
            None => EntryPlan::Nothing,
        },
        Operation::Install => EntryPlan::Nothing,
    }
}

/// What has to be removed from a path.
#[derive(Debug, Clone, Copy, PartialEq, Eq, Structural)]
pub enum Clearing {
    /// Nothing is there.
    Nothing,
    /// A directory with all that is in it.
    Directory,
    /// A file.
    File,
}

/// What has to be removed from a path.
pub open spec fn clearing_of(is_dir: bool, exists: bool) -> Clearing {
    if is_dir {
        Clearing::Directory
    } else if exists {
        Clearing::File
    } else {
        Clearing::Nothing
    }
}

/// Whatever is at a path is removed, and as what it is.
pub proof fn law_whatever_is_there_is_cleared(is_dir: bool, exists: bool)
    ensures
        clearing_of(is_dir, exists) is Nothing <==> !is_dir && !exists,
        clearing_of(is_dir, exists) is Directory <==> is_dir,
        clearing_of(is_dir, exists) is File <==> exists && !is_dir,
{
}

/// How a file is written, with its texts as sequences.
pub enum BlobWriteView {
    Nothing,
    Unfileable,
    Missing { warning: Seq<char> },
    Copy { clearing: Clearing },
}

impl View for BlobWrite {
    type V = BlobWriteView;

    open spec fn view(&self) -> BlobWriteView {
        match *self {
            BlobWrite::Nothing => BlobWriteView::Nothing,
            BlobWrite::Unfileable => BlobWriteView::Unfileable,
            BlobWrite::Missing { warning } => BlobWriteView::Missing { warning: warning@ },
            BlobWrite::Copy { clearing } => BlobWriteView::Copy { clearing },
        }
    }
}

/// How a file is written, from whether the blob exists, whether the path is a directory,
/// and whether there is anything at the path.
pub open spec fn blob_write_of(
    step: WriteView,
    blob_exists: bool,
    is_dir: bool,
    exists: bool,
) -> BlobWriteView {
    match step.source {
        SourceView::NoSnapshot => BlobWriteView::Nothing,
        SourceView::Unfileable { .. } => BlobWriteView::Unfileable,
        SourceView::Blob { hash, .. } => if blob_exists {
            BlobWriteView::Copy { clearing: clearing_of(is_dir, exists) }
        } else {
            BlobWriteView::Missing {
                warning: "warning: blob missing for "@ + step.rel_path + " (hash "@ + hash
                    + "), skipping"@,
            }
        },
    }
}

/// A blob that is there is copied, whatever is at the path, which is cleared first; one
/// that is missing is warned of by the path and the name; without a blob there is nothing
/// to do.
pub proof fn law_blobs_are_copied(step: WriteView, blob_exists: bool, is_dir: bool, exists: bool)
    ensures
        ({
            let r = blob_write_of(step, blob_exists, is_dir, exists);
            &&& r is Copy <==> step.source is Blob && blob_exists
            &&& r is Missing <==> step.source is Blob && !blob_exists
            &&& r is Nothing <==> step.source is NoSnapshot
            &&& r is Unfileable <==> step.source is Unfileable
            &&& r matches BlobWriteView::Copy { clearing } ==> {
                &&& clearing is Nothing <==> !is_dir && !exists
                &&& clearing is Directory <==> is_dir
            }
            &&& r matches BlobWriteView::Missing { warning } ==> (step.source matches
                SourceView::Blob { hash, .. } && warning == "warning: blob missing for "@
                + step.rel_path + " (hash "@ + hash + "), skipping"@)
        }),
{
}

/// Finds what has to be removed from a path.
pub fn clearing(is_dir: bool, exists: bool) -> (r: Clearing)
    ensures
        r == clearing_of(is_dir, exists),
        r == (if is_dir {
            Clearing::Directory
        } else if exists {
            Clearing::File
        } else {
            Clearing::Nothing
        }),
{
    if is_dir {
        Clearing::Directory
    } else if exists {
        Clearing::File
    } else {
        Clearing::Nothing
    }
}

/// How a blob gets to its place.
#[derive(Debug)]
pub enum BlobWrite {
    /// There is nothing to write.
    Nothing,
    /// The name of the content is not one that a blob can have.
    Unfileable,
    /// The blob is not there, which is worth a warning.
    Missing {
        /// The warning.
        warning: String,
    },
    /// The path is cleared, then the blob is copied.
    Copy {
        /// What is removed from the path.
        clearing: Clearing,
    },
}

/// Decides how a file is written, from whether the blob exists, whether the path is
/// a directory, and whether there is anything at the path.
pub fn write_blob(step: &WriteStep, blob_exists: bool, is_dir: bool, exists: bool) -> (r: BlobWrite)
    ensures
        r@ == blob_write_of(step@, blob_exists, is_dir, exists),
        match step.source {
            Source::NoSnapshot => r is Nothing,
            Source::Unfileable { .. } => r is Unfileable,
            Source::Blob { hash, .. } => if blob_exists {
                r == (BlobWrite::Copy {
                    clearing: if is_dir {
                        Clearing::Directory
                    } else if exists {
                        Clearing::File
                    } else {
                        Clearing::Nothing
                    },
                })
            } else {
                &&& r matches BlobWrite::Missing { warning }
                &&& warning@ == "warning: blob missing for "@ + step.rel_path@ + " (hash "@ + hash@
                    + "), skipping"@
            },
        },
{
    match &step.source {
        Source::NoSnapshot => BlobWrite::Nothing,
        Source::Unfileable { .. } => BlobWrite::Unfileable,
        Source::Blob { hash, .. } => {
            if blob_exists {
                BlobWrite::Copy { clearing: clearing(is_dir, exists) }
            } else {
                let mut warning = "warning: blob missing for ".to_string();
                warning.append(step.rel_path.as_str());
                warning.append(" (hash ");
                warning.append(hash.as_str());
                warning.append("), skipping");
                BlobWrite::Missing { warning }
            }
        },
    }
}

/// The paths that lead to a directory, with their components as sequences.
pub open spec fn all_parts(paths: Seq<&Path>) -> Seq<Seq<Seq<u8>>> {
    paths.map_values(|path: &Path| parts(path))
}

/// What leads to a path, and the path itself, from the outermost inwards.
pub open spec fn prefixes_of(whole: Seq<Seq<u8>>) -> Seq<Seq<Seq<u8>>> {
    Seq::new(whole.len(), |i: int| whole.take(i + 1))
}

/// What leads to a path goes down one component at a time, from the first to the whole.
pub proof fn law_directories_go_down(whole: Seq<Seq<u8>>, i: int)
    requires
        0 <= i < whole.len(),
    ensures
        prefixes_of(whole).len() == whole.len(),
        prefixes_of(whole)[i].len() == i + 1,
        prefixes_of(whole)[i].last() == whole[i],
        prefixes_of(whole)[i].is_prefix_of(whole),
        prefixes_of(whole).last() == whole,
{
    assert(whole.take(whole.len() as int) =~= whole);
    assert(prefixes_of(whole)[i] =~= whole.take(prefixes_of(whole)[i].len() as int));
}

/// Finds the paths that have to be directories before `path` can be one: the path
/// itself and those it leads through, from the outermost inwards.
pub fn ensure_dir<'a>(path: &'a Path) -> (r: Vec<&'a Path>)
    ensures
        all_parts(r@) == prefixes_of(parts(path)),
        all_parts(r@) == Seq::new(parts(path).len(), |i: int| parts(path).take(i + 1)),
{
    let ghost whole = parts(path);
    let ghost n = whole.len() as int;
    let mut outwards: Vec<&'a Path> = Vec::new();
    let mut current: &'a Path = path;
    let mut more = true;
    assert(whole.take(n) =~= whole);
    while more
        invariant
            whole == parts(path),
            n == whole.len(),
            outwards@.len() <= n,
            forall|j: int|
                0 <= j < outwards@.len() ==> parts(#[trigger] outwards@[j]) == whole.take(n - j),
            more ==> parts(current) == whole.take(n - outwards@.len()),
            !more ==> outwards@.len() == n,
        decreases n - outwards@.len(), more as int,
    {
        match parent(current) {
            Some(dir) => {
                outwards.push(current);
                assert(parts(dir) =~= whole.take(n - outwards@.len()));
                current = dir;
            },
            None => {
                proof {
                    lemma_root_comes_first(path_bytes(current));
                }
                if has_root(current) {
                    outwards.push(current);
                }
                more = false;
            },
        }
    }
    let mut prefixes: Vec<&'a Path> = Vec::new();
    while outwards.len() > 0
        invariant
            n == whole.len(),
            outwards@.len() + prefixes@.len() == n,
            forall|j: int|
                0 <= j < outwards@.len() ==> parts(#[trigger] outwards@[j]) == whole.take(n - j),
            forall|j: int|
                0 <= j < prefixes@.len() ==> parts(#[trigger] prefixes@[j]) == whole.take(
                    j + 1,
                ),
        decreases outwards@.len(),
    {
        let outermost = outwards.pop().unwrap();
        prefixes.push(outermost);
    }
    assert(all_parts(prefixes@) =~= Seq::new(n as nat, |i: int| whole.take(i + 1)));
    prefixes
}

} // verus!
