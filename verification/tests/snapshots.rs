//! The blob store and what goes into it.
use std::collections::HashMap;
use std::path::{Path, PathBuf};

use replayfs::blobs::{blob_path, name_content, name_digest, shelf_path};
use replayfs::daemon::snapshot::{
    FileMeta, Snapshot, SnapshotError, Storing, check_snapshot, place_snapshot, snapshot_file,
    store_snapshot,
};

fn regular(content: &str) -> FileMeta {
    FileMeta { is_symlink: false, is_file: true, len: content.len() as u64 }
}

/// Takes a snapshot of a file into a store that is held in memory.
fn take(
    store: &mut HashMap<PathBuf, Vec<u8>>,
    content: &str,
    blob_dir: &Path,
    max_size: u64,
) -> Result<Snapshot, SnapshotError> {
    let snapshot = snapshot_file(&regular(content), content.as_bytes(), blob_dir, max_size)?;
    match store_snapshot(store.contains_key(&snapshot.blob_path)) {
        Storing::Present => {}
        Storing::WriteAndRename => {
            assert_eq!(snapshot.blob_path.parent(), Some(snapshot.shelf.as_path()));
            store.insert(snapshot.tmp_path.clone(), content.as_bytes().to_vec());
            let bytes = store.remove(&snapshot.tmp_path).unwrap();
            store.insert(snapshot.blob_path.clone(), bytes);
        }
    }
    Ok(snapshot)
}

#[test]
fn snapshot_stores_by_hash() {
    let blob_dir = Path::new("/data").join("blobs");
    let mut store = HashMap::new();

    let snapshot = match take(&mut store, "hello world", &blob_dir, 1024 * 1024) {
        Ok(snapshot) => snapshot,
        Err(_) => panic!("hello.txt was refused"),
    };
    let (hash, size) = (&snapshot.hash, snapshot.size);

    assert_eq!(size, 11);
    assert_eq!(hash.len(), 64); // SHA-256 hex

    // Blob should exist at blobs/{prefix}/{hash}
    let blob_path = blob_dir.join(&hash[..2]).join(hash);
    assert!(store.contains_key(&blob_path));
    assert_eq!(store[&blob_path], b"hello world");
}

#[test]
fn snapshot_deduplicates() {
    let blob_dir = Path::new("/data").join("blobs");
    let mut store = HashMap::new();

    let h1 = take(&mut store, "same content", &blob_dir, 1024 * 1024).unwrap_or_else(|_| panic!("a.txt")).hash;
    let h2 = take(&mut store, "same content", &blob_dir, 1024 * 1024).unwrap_or_else(|_| panic!("b.txt")).hash;

    assert_eq!(h1, h2);
    assert_eq!(store.len(), 1);
}

#[test]
fn snapshot_rejects_oversized() {
    let blob_dir = Path::new("/data").join("blobs");
    let result = take(&mut HashMap::new(), "too big", &blob_dir, 3); // max 3 bytes
    assert!(result.is_err());
    let error = match result {
        Err(error) => error,
        Ok(_) => unreachable!(),
    };
    assert!(error.message("big.txt").contains("too large"));
    assert_eq!(error.message("big.txt"), "file too large (7 bytes, max 3): big.txt");
}

#[test]
fn snapshot_rejects_directory() {
    let blob_dir = Path::new("/data").join("blobs");
    let subdir = FileMeta { is_symlink: false, is_file: false, len: 4096 };

    let result = snapshot_file(&subdir, b"", &blob_dir, 1024 * 1024);
    assert!(result.is_err());
    assert_eq!(result.err(), Some(SnapshotError::NotAFile));
}

#[test]
fn refusals_in_their_order() {
    let meta = |is_symlink, is_file, len| FileMeta { is_symlink, is_file, len };
    assert_eq!(check_snapshot(&meta(true, false, 9), 3), Err(SnapshotError::Symlink));
    assert_eq!(check_snapshot(&meta(false, false, 9), 3), Err(SnapshotError::NotAFile));
    assert_eq!(
        check_snapshot(&meta(false, true, 9), 3),
        Err(SnapshotError::TooLarge { size: 9, max: 3 })
    );
    assert_eq!(check_snapshot(&meta(false, true, 3), 3), Ok(()));
    assert_eq!(SnapshotError::Symlink.message("l"), "skipping symlink: l");
    assert_eq!(SnapshotError::NotAFile.message("d"), "not a regular file: d");
}

#[test]
fn names_are_sha256_in_hex() {
    assert_eq!(
        name_content(b""),
        "e3b0c44298fc1c149afbf4c8996fb92427ae41e4649b934ca495991b7852b855"
    );
    assert_eq!(
        name_content(b"hello world"),
        "b94d27b9934d3e08a52e52d7da7dabfac484efe37a5380ee9088f7ace2efcde9"
    );
    assert_eq!(name_digest(&vec![0x00, 0x0f, 0xa5, 0xff]), "000fa5ff");
}

#[test]
fn blobs_lie_under_their_first_two_digits() {
    let name = name_content(b"hello world");
    assert_eq!(
        blob_path(Path::new("/d/blobs"), &name),
        Some(Path::new("/d/blobs/b9").join(&name))
    );
    assert_eq!(shelf_path(Path::new("/d/blobs"), &name), Some(PathBuf::from("/d/blobs/b9")));
}

#[test]
fn names_that_cannot_be_filed() {
    assert_eq!(blob_path(Path::new("/d"), ""), None);
    assert_eq!(blob_path(Path::new("/d"), "a"), None);
    assert_eq!(blob_path(Path::new("/d"), "a\u{e9}"), None);
    assert_eq!(blob_path(Path::new("/d"), "ab"), Some(PathBuf::from("/d/ab/ab")));
    assert_eq!(
        blob_path(Path::new("/d"), "\u{e9}x"),
        Some(PathBuf::from("/d/\u{e9}/\u{e9}x"))
    );
}

#[test]
fn a_blob_is_written_beside_its_place_first() {
    let name = name_content(b"x");
    let snapshot = place_snapshot(name.clone(), 1, Path::new("/d"));
    let shelf = Path::new("/d").join(&name[..2]);
    assert_eq!(snapshot.shelf, shelf);
    assert_eq!(snapshot.blob_path, shelf.join(&name));
    assert_eq!(snapshot.tmp_path, shelf.join(format!("{}.tmp", name)));
    assert_eq!(snapshot.tmp_path, snapshot.blob_path.with_extension("tmp"));
    assert_eq!(snapshot.size, 1);
}

#[test]
fn contents_are_found_again() {
    let blob_dir = Path::new("/d/blobs");
    let mut store = HashMap::new();
    let one = take(&mut store, "one", blob_dir, 100).unwrap_or_else(|_| panic!("one"));
    let two = take(&mut store, "two", blob_dir, 100).unwrap_or_else(|_| panic!("two"));
    assert_ne!(one.hash, two.hash);
    assert_eq!(store[&blob_path(blob_dir, &one.hash).unwrap()], b"one");
    assert_eq!(store[&blob_path(blob_dir, &two.hash).unwrap()], b"two");
}
