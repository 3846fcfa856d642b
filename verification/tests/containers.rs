use doctor_diff::archive::{archive_changes, Archive, FileTree, PatchError};
use doctor_diff::container::pack_archive;
use doctor_diff::patch::{Change, ChangeSet};
use doctor_diff::pathmap::PathMap;
use std::io::{Cursor, Read};
use zip::{CompressionMethod, ZipArchive};

fn sample() -> Archive {
    let mut workspace: FileTree = PathMap::new();
    workspace.insert("a.txt".to_string(), b"hi".to_vec());
    workspace.insert("dir/b.txt".to_string(), b"new".to_vec());
    workspace.insert("empty".to_string(), Vec::new());
    let mut changes: ChangeSet = PathMap::new();
    changes.insert("dir/b.txt".to_string(), Change::Add);
    changes.insert("old.txt".to_string(), Change::Remove);
    changes.insert("a.txt".to_string(), Change::Update);
    changes.insert("empty".to_string(), Change::Add);
    archive_changes(&workspace, &changes).unwrap()
}

#[test]
fn packed_archive_carries_the_metadata_as_its_comment() {
    let bytes = pack_archive(&sample(), &"{\"a.txt\": \"Update\"}".to_string()).unwrap();
    let reader = ZipArchive::new(Cursor::new(bytes)).unwrap();
    assert_eq!(reader.comment(), b"{\"a.txt\": \"Update\"}");
}

#[test]
fn packed_archive_holds_each_blob_under_its_path() {
    let bytes = pack_archive(&sample(), &"meta".to_string()).unwrap();
    let mut reader = ZipArchive::new(Cursor::new(bytes)).unwrap();
    assert_eq!(reader.len(), 3);
    let expected: [(&str, &[u8]); 3] = [("dir/b.txt", b"new"), ("a.txt", b"hi"), ("empty", b"")];
    for (i, (name, data)) in expected.iter().enumerate() {
        let mut entry = reader.by_index(i).unwrap();
        assert_eq!(entry.name(), *name);
        assert_eq!(entry.compression(), CompressionMethod::Stored);
        let mut read = Vec::new();
        entry.read_to_end(&mut read).unwrap();
        assert_eq!(&read[..], *data);
    }
    assert!(reader.by_name("old.txt").is_err());
    let mut read = Vec::new();
    reader.by_name("a.txt").unwrap().read_to_end(&mut read).unwrap();
    assert_eq!(read, b"hi");
}

#[test]
fn packed_archive_without_blobs_is_still_a_container() {
    let archive = Archive { changes: PathMap::new(), blobs: PathMap::new() };
    let bytes = pack_archive(&archive, &"{}".to_string()).unwrap();
    let reader = ZipArchive::new(Cursor::new(bytes)).unwrap();
    assert_eq!(reader.len(), 0);
    assert_eq!(reader.comment(), b"{}");
}

#[test]
fn packing_twice_gives_the_same_bytes() {
    let first = pack_archive(&sample(), &"meta".to_string()).unwrap();
    let second = pack_archive(&sample(), &"meta".to_string()).unwrap();
    assert_eq!(first, second);
    let other = pack_archive(&sample(), &"other".to_string()).unwrap();
    assert_ne!(first, other);
}

#[test]
fn metadata_of_the_longest_kind_is_kept_whole() {
    let metadata = "m".repeat(65535);
    let bytes = pack_archive(&sample(), &metadata).unwrap();
    let reader = ZipArchive::new(Cursor::new(bytes)).unwrap();
    assert_eq!(reader.comment(), metadata.as_bytes());
    assert_eq!(reader.len(), 3);
}

#[test]
fn metadata_too_long_for_the_comment_is_refused() {
    match pack_archive(&sample(), &"m".repeat(65536)) {
        Err(PatchError::MetadataTooLong) => {}
        other => panic!("not refused: {:?}", other.map(|bytes| bytes.len())),
    }
}

#[test]
fn metadata_is_measured_in_bytes() {
    let metadata = "\u{e9}".repeat(40000);
    assert_eq!(metadata.chars().count(), 40000);
    match pack_archive(&sample(), &metadata) {
        Err(PatchError::MetadataTooLong) => {}
        other => panic!("not refused: {:?}", other.map(|bytes| bytes.len())),
    }
    let shorter = "\u{e9}".repeat(30000);
    let bytes = pack_archive(&sample(), &shorter).unwrap();
    let reader = ZipArchive::new(Cursor::new(bytes)).unwrap();
    assert_eq!(reader.comment(), shorter.as_bytes());
}

#[test]
fn a_path_too_long_for_a_name_is_refused() {
    let long = "p".repeat(65536);
    let mut blobs: FileTree = PathMap::new();
    blobs.insert("a".to_string(), b"one".to_vec());
    blobs.insert(long.clone(), b"two".to_vec());
    blobs.insert("q".repeat(70000), b"three".to_vec());
    let archive = Archive { changes: PathMap::new(), blobs };
    match pack_archive(&archive, &"meta".to_string()) {
        Err(PatchError::EntryTooLong(path)) => assert_eq!(path, long),
        other => panic!("not refused: {:?}", other.map(|bytes| bytes.len())),
    }
}

#[test]
fn a_path_of_the_longest_kind_is_kept_whole() {
    let long = "p".repeat(65535);
    let mut blobs: FileTree = PathMap::new();
    blobs.insert(long.clone(), b"two".to_vec());
    let archive = Archive { changes: PathMap::new(), blobs };
    let bytes = pack_archive(&archive, &"meta".to_string()).unwrap();
    let mut reader = ZipArchive::new(Cursor::new(bytes)).unwrap();
    let mut read = Vec::new();
    reader.by_name(&long).unwrap().read_to_end(&mut read).unwrap();
    assert_eq!(read, b"two");
}
