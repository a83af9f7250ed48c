//! Keeping the content of a file.
use std::path::{Path, PathBuf};

use vstd::prelude::*;

use crate::blobs::{
    blob_bytes, blob_path, content_name, is_content_name, lemma_plain_content_name, name_content,
    shelf_bytes, shelf_path,
};
use crate::paths::{as_path, buf_parts, bytes_of, join, joined, parts, path_buf_bytes, path_bytes};
use crate::text::{decimal, digits, digits_value, lemma_digits_value};

verus! {

/// What is known of a file before it is read.
#[derive(Debug, Clone, Copy)]
pub struct FileMeta {
    /// Whether it is a symbolic link.
    pub is_symlink: bool,
    /// Whether it is a regular file.
    pub is_file: bool,
    /// Its size in bytes.
    pub len: u64,
}

/// Why the content of a file is not kept.
#[derive(Debug, Clone, Copy, PartialEq, Eq, Structural)]
pub enum SnapshotError {
    /// It is a symbolic link.
    Symlink,
    /// It is not a regular file.
    NotAFile,
    /// It is larger than allowed.
    TooLarge {
        /// Its size in bytes.
        size: u64,
        /// The highest size allowed.
        max: u64,
    },
}

impl SnapshotError {
    /// What is said of the error for the file at `path`.
    pub open spec fn text(&self, path: Seq<char>) -> Seq<char> {
        match *self {
            SnapshotError::Symlink => "skipping symlink: "@ + path,
            SnapshotError::NotAFile => "not a regular file: "@ + path,
            SnapshotError::TooLarge { size, max } => "file too large ("@ + digits(
                size as nat,
            ) + " bytes, max "@ + digits(max as nat) + "): "@ + path,
        }
    }

    /// Says why the content of the file at `path` is not kept.
    pub fn message(&self, path: &str) -> (r: String)
        ensures
            r@ == self.text(path@),
    {
        match self {
            SnapshotError::Symlink => {
                let mut r = "skipping symlink: ".to_string();
                r.append(path);
                r
            },
            SnapshotError::NotAFile => {
                let mut r = "not a regular file: ".to_string();
                r.append(path);
                r
            },
            SnapshotError::TooLarge { size, max } => {
                let mut r = "file too large (".to_string();
                r.append(decimal(*size).as_str());
                r.append(" bytes, max ");
                r.append(decimal(*max).as_str());
                r.append("): ");
                r.append(path);
                r
            },
        }
    }
}

/// Why the content of a file is not kept, if it is not.
pub open spec fn refusal(meta: FileMeta, max_size: u64) -> Option<SnapshotError> {
    if meta.is_symlink {
        Some(SnapshotError::Symlink)
    } else if !meta.is_file {
        Some(SnapshotError::NotAFile)
    } else if meta.len > max_size {
        Some(SnapshotError::TooLarge { size: meta.len, max: max_size })
    } else {
        None
    }
}

/// Whether the content of a file is kept, before it is read.
pub fn check_snapshot(meta: &FileMeta, max_size: u64) -> (r: Result<(), SnapshotError>)
    ensures
        r is Ok <==> !meta.is_symlink && meta.is_file && meta.len <= max_size,
        r == (match refusal(*meta, max_size) {
            Some(error) => Err::<(), SnapshotError>(error),
            None => Ok(()),
        }),
{
    if meta.is_symlink {
        return Err(SnapshotError::Symlink);
    }
    if !meta.is_file {
        return Err(SnapshotError::NotAFile);
    }
    if meta.len > max_size {
        return Err(SnapshotError::TooLarge { size: meta.len, max: max_size });
    }
    Ok(())
}

/// Every regular file of at most the highest size is kept, an empty one and one of just
/// that size among them, and no other is.
pub proof fn law_regular_files_are_kept(meta: FileMeta, max_size: u64)
    ensures
        refusal(meta, max_size) is None <==> !meta.is_symlink && meta.is_file && meta.len
            <= max_size,
        refusal(meta, max_size) == Some(SnapshotError::Symlink) <==> meta.is_symlink,
        refusal(meta, max_size) == Some(SnapshotError::NotAFile) <==> !meta.is_symlink
            && !meta.is_file,
        refusal(meta, max_size) matches Some(SnapshotError::TooLarge { size, max }) ==> size
            == meta.len && max == max_size && size > max,
{
}

/// A file that is kept under one limit is kept under every higher one.
pub proof fn law_higher_limits_keep_more(meta: FileMeta, max_size: u64, higher: u64)
    requires
        refusal(meta, max_size) is None,
        max_size <= higher,
    ensures
        refusal(meta, higher) is None,
{
}

/// Where the content of a file goes.
pub struct Snapshot {
    /// The name of the content.
    pub hash: String,
    /// The size of the file in bytes.
    pub size: u64,
    /// The directory of the blob.
    pub shelf: PathBuf,
    /// The blob itself.
    pub blob_path: PathBuf,
    /// Where the blob is written before it gets its name.
    pub tmp_path: PathBuf,
}

/// Whether a snapshot names the place of the content `name` in the blob store.
pub open spec fn is_placed(
    snapshot: Snapshot,
    name: Seq<char>,
    size: u64,
    blob_dir: &Path,
) -> bool {
    let dir = path_bytes(blob_dir);
    let shelf = parts(blob_dir).push(bytes_of(name).subrange(0, 2));
    &&& snapshot.hash@ == name
    &&& snapshot.size == size
    &&& path_buf_bytes(&snapshot.shelf) == shelf_bytes(dir, name)
    &&& buf_parts(&snapshot.shelf) == shelf
    &&& path_buf_bytes(&snapshot.blob_path) == blob_bytes(dir, name)
    &&& buf_parts(&snapshot.blob_path) == shelf.push(bytes_of(name))
    &&& path_buf_bytes(&snapshot.tmp_path) == joined(
        shelf_bytes(dir, name),
        bytes_of(name + ".tmp"@),
    )
}

/// Finds the place of the content with this name in the blob store.
pub fn place_snapshot(hash: String, size: u64, blob_dir: &Path) -> (r: Snapshot)
    requires
        is_content_name(hash@),
    ensures
        is_placed(r, hash@, size, blob_dir),
{
    proof {
        lemma_plain_content_name(hash@);
    }
    let shelf = shelf_path(blob_dir, hash.as_str()).unwrap();
    let blob_path = blob_path(blob_dir, hash.as_str()).unwrap();
    let mut tmp_name = hash.clone();
    tmp_name.append(".tmp");
    let tmp_path = join(as_path(&shelf), tmp_name.as_str());
    Snapshot { hash, size, shelf, blob_path, tmp_path }
}

/// Finds the place of a file's content in the blob store.
pub fn snapshot_file(
    meta: &FileMeta,
    content: &[u8],
    blob_dir: &Path,
    max_size: u64,
) -> (r: Result<Snapshot, SnapshotError>)
    ensures
        r is Ok <==> !meta.is_symlink && meta.is_file && meta.len <= max_size,
        r matches Ok(snapshot) ==> snapshot.hash@ == content_name(content@) && snapshot.size
            == meta.len,
        match refusal(*meta, max_size) {
            Some(error) => r == Err::<Snapshot, SnapshotError>(error),
            None => {
                &&& r matches Ok(snapshot)
                &&& is_content_name(content_name(content@))
                &&& is_placed(snapshot, content_name(content@), meta.len, blob_dir)
            },
        },
{
    match check_snapshot(meta, max_size) {
        Ok(()) => Ok(place_snapshot(name_content(content), meta.len, blob_dir)),
        Err(error) => Err(error),
    }
}

/// A placed snapshot names the content and its size, and its blob lies in the blob
/// directory, on the shelf of its first two bytes, under its name.
pub proof fn law_snapshots_are_placed_by_name(
    snapshot: Snapshot,
    name: Seq<char>,
    size: u64,
    blob_dir: &Path,
)
    requires
        is_placed(snapshot, name, size, blob_dir),
    ensures
        snapshot.hash@ == name,
        snapshot.size == size,
        path_buf_bytes(&snapshot.blob_path) == blob_bytes(path_bytes(blob_dir), name),
        buf_parts(&snapshot.blob_path) == buf_parts(&snapshot.shelf).push(bytes_of(name)),
        buf_parts(&snapshot.shelf) == parts(blob_dir).push(bytes_of(name).subrange(0, 2)),
        path_buf_bytes(&snapshot.tmp_path) == joined(
            path_buf_bytes(&snapshot.shelf),
            bytes_of(name + ".tmp"@),
        ),
{
}

/// What is said of a refused file ends in its path, and of one that is too large names
/// both sizes.
pub proof fn law_refusals_name_the_file(error: SnapshotError, path: Seq<char>)
    ensures
        path.is_suffix_of(error.text(path)),
        error is Symlink ==> error.text(path) == "skipping symlink: "@ + path,
        error is NotAFile ==> error.text(path) == "not a regular file: "@ + path,
        error matches SnapshotError::TooLarge { size, max } ==> exists|a: Seq<char>, b: Seq<char>|
            #![trigger digits_value(a), digits_value(b)]
            digits_value(a) == size && digits_value(b) == max && error.text(path)
                == "file too large ("@ + a + " bytes, max "@ + b + "): "@ + path,
{
    assert(path =~= error.text(path).skip(error.text(path).len() - path.len()));
    if let SnapshotError::TooLarge { size, max } = error {
        lemma_digits_value(size as nat);
        lemma_digits_value(max as nat);
        assert(digits_value(digits(size as nat)) == size && digits_value(digits(max as nat))
            == max);
    }
}

/// How a content gets into the blob store.
#[derive(Debug, Clone, Copy, PartialEq, Eq, Structural)]
pub enum Storing {
    /// It is there already.
    Present,
    /// It is written to the side, then gets its name.
    WriteAndRename,
}

/// How a content gets into the blob store.
pub open spec fn storing(blob_exists: bool) -> Storing {
    if blob_exists {
        Storing::Present
    } else {
        Storing::WriteAndRename
    }
}

/// Decides how a content gets into the blob store, from whether there is a blob at
/// its place.
pub fn store_snapshot(blob_exists: bool) -> (r: Storing)
    ensures
        r == storing(blob_exists),
{
    if blob_exists {
        Storing::Present
    } else {
        Storing::WriteAndRename
    }
}

/// What the blob store holds: contents by their names.
pub type Store = Map<Seq<char>, Seq<u8>>;

/// The store after a snapshot of a content.
pub open spec fn after_snapshot(store: Store, content: Seq<u8>) -> Store {
    let name = content_name(content);
    match storing(store.dom().contains(name)) {
        Storing::Present => store,
        Storing::WriteAndRename => store.insert(name, content),
    }
}

/// Whether every content in the store has the name that it is filed under.
pub open spec fn is_content_addressed(store: Store) -> bool {
    forall|name: Seq<char>| #[trigger]
        store.dom().contains(name) ==> content_name(store[name]) == name
}

/// Contents that are the same are kept once: they have the same name and the same
/// place, and a second snapshot changes nothing.
pub proof fn law_same_content_same_blob(
    store: Store,
    blob_dir: Seq<u8>,
    one: Seq<u8>,
    other: Seq<u8>,
)
    requires
        one == other,
    ensures
        content_name(one) == content_name(other),
        blob_bytes(blob_dir, content_name(one)) == blob_bytes(blob_dir, content_name(other)),
        after_snapshot(after_snapshot(store, one), other) == after_snapshot(store, one),
{
}

/// A snapshot leaves every content in the store as it is, and the store
/// content-addressed.
pub proof fn law_snapshots_only_add(store: Store, content: Seq<u8>, name: Seq<char>)
    ensures
        is_content_addressed(store) ==> is_content_addressed(after_snapshot(store, content)),
        store.dom().contains(name) ==> after_snapshot(store, content).dom().contains(name)
            && after_snapshot(store, content)[name] == store[name],
{
}

/// What was snapshotted is found again under its name: the content itself, or one
/// that was there before with the same digest.
pub proof fn law_snapshots_are_found_again(store: Store, content: Seq<u8>)
    requires
        is_content_addressed(store),
    ensures
        ({
            let name = content_name(content);
            let after = after_snapshot(store, content);
            &&& after.dom().contains(name)
            &&& content_name(after[name]) == name
            &&& !store.dom().contains(name) ==> after[name] == content
        }),
{
}

} // verus!
