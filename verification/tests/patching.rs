use doctor_diff::archive::{
    archive_changes, is_listed, replay_actions, unarchive_changes, Action, Archive, FileTree,
    PatchError,
};
use doctor_diff::digest::sha256_bytes;
use doctor_diff::hash::HashValue;
use doctor_diff::patch::{
    diff_changes, patch_apply, patch_create, patch_request, Change, ChangeSet, Manifest,
};
use doctor_diff::pathmap::PathMap;
use doctor_diff::snapshot::hash_directory;

fn tree(files: &[(&str, &str)]) -> FileTree {
    let mut tree: FileTree = PathMap::new();
    for (path, data) in files {
        tree.insert(path.to_string(), data.as_bytes().to_vec());
    }
    tree
}

fn manifest(entries: &[(&str, &str)]) -> Manifest {
    let mut manifest: Manifest = PathMap::new();
    for (path, data) in entries {
        manifest.insert(path.to_string(), sha256_bytes(&data.as_bytes().to_vec()));
    }
    manifest
}

fn change_of(changes: &ChangeSet, path: &str) -> Option<Change> {
    changes.get(&path.to_string()).copied()
}

fn data_of(tree: &FileTree, path: &str) -> Option<Vec<u8>> {
    tree.get(&path.to_string()).cloned()
}

fn same_manifest(a: &Manifest, b: &Manifest) -> bool {
    if a.len() != b.len() {
        return false;
    }
    for i in 0..a.len() {
        match b.get(a.path_at(i)) {
            Some(hash) => {
                if hash != a.value_at(i) {
                    return false;
                }
            }
            None => return false,
        }
    }
    true
}

#[test]
fn diff_of_a_manifest_with_itself_is_empty() {
    let m = manifest(&[("a.txt", "hello"), ("dir/b.txt", "there"), ("c", "")]);
    assert_eq!(diff_changes(&m, &m).len(), 0);
    let none = manifest(&[]);
    assert_eq!(diff_changes(&none, &none).len(), 0);
}

#[test]
fn diff_puts_each_path_in_one_class() {
    let current = manifest(&[("same", "1"), ("changed", "2"), ("gone", "3")]);
    let target = manifest(&[("changed", "two"), ("new", "4"), ("same", "1")]);
    let changes = diff_changes(&current, &target);
    assert_eq!(changes.len(), 3);
    assert_eq!(change_of(&changes, "same"), None);
    assert_eq!(change_of(&changes, "changed"), Some(Change::Update));
    assert_eq!(change_of(&changes, "new"), Some(Change::Add));
    assert_eq!(change_of(&changes, "gone"), Some(Change::Remove));
    assert_eq!(change_of(&changes, "elsewhere"), None);
}

#[test]
fn diff_lists_the_target_first_then_what_is_removed() {
    let current = manifest(&[("gone", "3"), ("changed", "2"), ("lost", "5")]);
    let target = manifest(&[("changed", "two"), ("new", "4")]);
    let changes = diff_changes(&current, &target);
    assert_eq!(changes.len(), 4);
    assert_eq!(changes.path_at(0), "changed");
    assert_eq!(changes.path_at(1), "new");
    assert_eq!(changes.path_at(2), "gone");
    assert_eq!(changes.path_at(3), "lost");
}

#[test]
fn diff_twice_gives_the_same_changes() {
    let current = manifest(&[("a", "1"), ("b", "2")]);
    let target = manifest(&[("b", "3"), ("c", "4")]);
    let first = diff_changes(&current, &target);
    let second = diff_changes(&current, &target);
    assert_eq!(first.len(), second.len());
    for i in 0..first.len() {
        assert_eq!(first.path_at(i), second.path_at(i));
        assert_eq!(first.value_at(i), second.value_at(i));
    }
}

#[test]
fn diff_against_nothing_adds_or_removes_everything() {
    let some = manifest(&[("a", "1"), ("b", "2")]);
    let none = manifest(&[]);
    let adds = diff_changes(&none, &some);
    assert_eq!(adds.len(), 2);
    assert_eq!(change_of(&adds, "a"), Some(Change::Add));
    assert_eq!(change_of(&adds, "b"), Some(Change::Add));
    let removes = diff_changes(&some, &none);
    assert_eq!(removes.len(), 2);
    assert_eq!(change_of(&removes, "a"), Some(Change::Remove));
    assert_eq!(change_of(&removes, "b"), Some(Change::Remove));
}

#[test]
fn diff_compares_digests_not_paths_alone() {
    let mut current: Manifest = PathMap::new();
    current.insert("a".to_string(), HashValue(vec![1, 2, 3]));
    let mut target: Manifest = PathMap::new();
    target.insert("a".to_string(), HashValue(vec![1, 2, 3]));
    assert_eq!(diff_changes(&current, &target).len(), 0);
    target.insert("a".to_string(), HashValue(vec![1, 2]));
    assert_eq!(change_of(&diff_changes(&current, &target), "a"), Some(Change::Update));
}

#[test]
fn snapshot_has_one_digest_for_each_file() {
    let files = tree(&[("a.txt", "hello"), ("dir/b.txt", "abc"), ("empty", "")]);
    let m = hash_directory(&files);
    assert_eq!(m.len(), 3);
    assert_eq!(m.path_at(0), "a.txt");
    assert_eq!(m.path_at(1), "dir/b.txt");
    assert_eq!(m.path_at(2), "empty");
    assert_eq!(
        m.get(&"a.txt".to_string()).unwrap().to_string(),
        "2cf24dba5fb0a30e26e83b2ac5b9e29e1b161e5c1fa7425e73043362938b9824"
    );
    assert_eq!(
        m.get(&"dir/b.txt".to_string()).unwrap().to_string(),
        "ba7816bf8f01cfea414140de5dae2223b00361a396177a9cb410ff61f20015ad"
    );
    assert_eq!(
        m.get(&"empty".to_string()).unwrap().to_string(),
        "e3b0c44298fc1c149afbf4c8996fb92427ae41e4649b934ca495991b7852b855"
    );
    assert_eq!(hash_directory(&tree(&[])).len(), 0);
}

#[test]
fn archive_holds_a_blob_for_each_added_or_updated_path() {
    let workspace = tree(&[("a", "alpha"), ("b", "beta"), ("c", "gamma")]);
    let mut changes: ChangeSet = PathMap::new();
    changes.insert("a".to_string(), Change::Add);
    changes.insert("gone".to_string(), Change::Remove);
    changes.insert("b".to_string(), Change::Update);
    let archive = archive_changes(&workspace, &changes).unwrap();
    assert_eq!(archive.changes.len(), 3);
    assert_eq!(archive.changes.path_at(0), "a");
    assert_eq!(archive.changes.path_at(1), "gone");
    assert_eq!(archive.changes.path_at(2), "b");
    assert_eq!(change_of(&archive.changes, "a"), Some(Change::Add));
    assert_eq!(change_of(&archive.changes, "gone"), Some(Change::Remove));
    assert_eq!(change_of(&archive.changes, "b"), Some(Change::Update));
    assert_eq!(archive.blobs.len(), 2);
    assert_eq!(data_of(&archive.blobs, "a"), Some(b"alpha".to_vec()));
    assert_eq!(data_of(&archive.blobs, "b"), Some(b"beta".to_vec()));
    assert_eq!(data_of(&archive.blobs, "c"), None);
    assert_eq!(data_of(&archive.blobs, "gone"), None);
}

#[test]
fn archive_of_no_changes_is_empty() {
    let workspace = tree(&[("a", "alpha")]);
    let changes: ChangeSet = PathMap::new();
    let archive = archive_changes(&workspace, &changes).unwrap();
    assert_eq!(archive.changes.len(), 0);
    assert_eq!(archive.blobs.len(), 0);
}

#[test]
fn archive_fails_on_the_first_missing_file() {
    let workspace = tree(&[("a", "alpha")]);
    let mut changes: ChangeSet = PathMap::new();
    changes.insert("a".to_string(), Change::Add);
    changes.insert("gone".to_string(), Change::Remove);
    changes.insert("x".to_string(), Change::Update);
    changes.insert("y".to_string(), Change::Add);
    match archive_changes(&workspace, &changes) {
        Err(PatchError::MissingFile(path)) => assert_eq!(path, "x"),
        Err(error) => panic!("the wrong failure: {:?}", error),
        Ok(_) => panic!("an archive was made without the file"),
    }
}

#[test]
fn unarchive_replaces_one_file_and_adds_another() {
    let mut workspace = tree(&[("a.txt", "hello")]);
    let reference = tree(&[("a.txt", "hi"), ("b.txt", "new")]);
    let current = hash_directory(&workspace);
    let target = manifest(&[("a.txt", "hi"), ("b.txt", "new")]);
    let changes = diff_changes(&current, &target);
    assert_eq!(changes.len(), 2);
    assert_eq!(change_of(&changes, "a.txt"), Some(Change::Update));
    assert_eq!(change_of(&changes, "b.txt"), Some(Change::Add));
    let archive = archive_changes(&reference, &changes).unwrap();
    let skipped = unarchive_changes(&mut workspace, &archive);
    assert!(skipped.is_empty());
    assert_eq!(workspace.len(), 2);
    assert_eq!(data_of(&workspace, "a.txt"), Some(b"hi".to_vec()));
    assert_eq!(data_of(&workspace, "b.txt"), Some(b"new".to_vec()));
}

#[test]
fn unarchive_removes_what_the_target_omits() {
    let mut workspace = tree(&[("old.txt", "old"), ("keep.txt", "kept")]);
    let reference = tree(&[("keep.txt", "kept")]);
    let changes = diff_changes(&hash_directory(&workspace), &hash_directory(&reference));
    assert_eq!(changes.len(), 1);
    assert_eq!(change_of(&changes, "old.txt"), Some(Change::Remove));
    let archive = archive_changes(&reference, &changes).unwrap();
    assert_eq!(archive.blobs.len(), 0);
    let skipped = patch_apply(&mut workspace, &archive);
    assert!(skipped.is_empty());
    assert_eq!(workspace.len(), 1);
    assert_eq!(data_of(&workspace, "old.txt"), None);
    assert_eq!(data_of(&workspace, "keep.txt"), Some(b"kept".to_vec()));
}

#[test]
fn unarchive_skips_a_path_whose_blob_is_missing() {
    let mut workspace = tree(&[("a", "1"), ("b", "2"), ("old", "3")]);
    let reference = tree(&[("a", "one"), ("b", "two"), ("c", "three")]);
    let changes = diff_changes(&hash_directory(&workspace), &hash_directory(&reference));
    let mut archive = archive_changes(&reference, &changes).unwrap();
    assert!(archive.blobs.remove(&"b".to_string()));
    let skipped = unarchive_changes(&mut workspace, &archive);
    assert_eq!(skipped, vec!["b".to_string()]);
    assert_eq!(workspace.len(), 3);
    assert_eq!(data_of(&workspace, "a"), Some(b"one".to_vec()));
    assert_eq!(data_of(&workspace, "b"), Some(b"2".to_vec()));
    assert_eq!(data_of(&workspace, "c"), Some(b"three".to_vec()));
    assert_eq!(data_of(&workspace, "old"), None);
}

#[test]
fn unarchive_skips_an_added_path_without_blob_and_leaves_it_absent() {
    let mut workspace = tree(&[("a", "1")]);
    let mut changes: ChangeSet = PathMap::new();
    changes.insert("n".to_string(), Change::Add);
    changes.insert("a".to_string(), Change::Update);
    let mut blobs: FileTree = PathMap::new();
    blobs.insert("a".to_string(), b"one".to_vec());
    let archive = Archive { changes, blobs };
    let skipped = unarchive_changes(&mut workspace, &archive);
    assert_eq!(skipped, vec!["n".to_string()]);
    assert_eq!(workspace.len(), 1);
    assert_eq!(data_of(&workspace, "a"), Some(b"one".to_vec()));
}

#[test]
fn unarchive_skips_the_removal_of_an_absent_file() {
    let mut workspace = tree(&[("a", "1")]);
    let mut changes: ChangeSet = PathMap::new();
    changes.insert("nowhere".to_string(), Change::Remove);
    changes.insert("a".to_string(), Change::Remove);
    let archive = Archive { changes, blobs: PathMap::new() };
    let skipped = unarchive_changes(&mut workspace, &archive);
    assert_eq!(skipped, vec!["nowhere".to_string()]);
    assert_eq!(workspace.len(), 0);
}

#[test]
fn unarchive_ignores_blobs_that_no_change_names() {
    let mut workspace = tree(&[("a", "1")]);
    let mut changes: ChangeSet = PathMap::new();
    changes.insert("a".to_string(), Change::Remove);
    let archive = Archive { changes, blobs: tree(&[("a", "one"), ("stray", "x")]) };
    let skipped = unarchive_changes(&mut workspace, &archive);
    assert!(skipped.is_empty());
    assert_eq!(workspace.len(), 0);
}

#[test]
fn round_trip_reaches_the_target_manifest() {
    let mut workspace = tree(&[("same", "s"), ("changed", "c1"), ("gone", "g"), ("d/deep", "x")]);
    let reference = tree(&[("changed", "c2"), ("same", "s"), ("new", "n"), ("d/deep", "y")]);
    let target = hash_directory(&reference);
    let changes = diff_changes(&hash_directory(&workspace), &target);
    let archive = archive_changes(&reference, &changes).unwrap();
    let skipped = unarchive_changes(&mut workspace, &archive);
    assert!(skipped.is_empty());
    assert!(same_manifest(&hash_directory(&workspace), &target));
    assert_eq!(diff_changes(&hash_directory(&workspace), &target).len(), 0);
    assert_eq!(data_of(&workspace, "changed"), Some(b"c2".to_vec()));
    assert_eq!(data_of(&workspace, "gone"), None);
}

#[test]
fn the_three_steps_bring_a_workspace_up_to_date() {
    let mut client = tree(&[("a.txt", "hello"), ("old.txt", "old")]);
    let server = tree(&[("a.txt", "hi"), ("b.txt", "new")]);
    let hashes = patch_request(&client);
    assert_eq!(hashes.len(), 2);
    let archive = match patch_create(&server, &hashes) {
        Ok(archive) => archive,
        Err(error) => panic!("no archive: {:?}", error),
    };
    assert_eq!(change_of(&archive.changes, "a.txt"), Some(Change::Update));
    assert_eq!(change_of(&archive.changes, "b.txt"), Some(Change::Add));
    assert_eq!(change_of(&archive.changes, "old.txt"), Some(Change::Remove));
    assert_eq!(archive.blobs.len(), 2);
    let skipped = patch_apply(&mut client, &archive);
    assert!(skipped.is_empty());
    assert!(same_manifest(&patch_request(&client), &patch_request(&server)));
    assert_eq!(data_of(&client, "a.txt"), Some(b"hi".to_vec()));
    assert_eq!(data_of(&client, "b.txt"), Some(b"new".to_vec()));
    assert_eq!(data_of(&client, "old.txt"), None);
}

#[test]
fn archive_keeps_the_blobs_in_the_order_of_the_changes() {
    let workspace = tree(&[("a", "alpha"), ("b", "beta"), ("c", "gamma")]);
    let mut changes: ChangeSet = PathMap::new();
    changes.insert("c".to_string(), Change::Update);
    changes.insert("gone".to_string(), Change::Remove);
    changes.insert("a".to_string(), Change::Add);
    let archive = archive_changes(&workspace, &changes).unwrap();
    assert_eq!(archive.blobs.len(), 2);
    assert_eq!(archive.blobs.path_at(0), "c");
    assert_eq!(archive.blobs.path_at(1), "a");
    assert_eq!(archive.blobs.value_at(0), &b"gamma".to_vec());
    assert_eq!(archive.blobs.value_at(1), &b"alpha".to_vec());
}

#[test]
fn unarchive_lists_the_skipped_paths_in_the_order_of_the_changes() {
    let mut workspace = tree(&[("kept", "k"), ("a", "1")]);
    let mut changes: ChangeSet = PathMap::new();
    changes.insert("n2".to_string(), Change::Add);
    changes.insert("a".to_string(), Change::Update);
    changes.insert("nowhere".to_string(), Change::Remove);
    changes.insert("n1".to_string(), Change::Update);
    let archive = Archive { changes, blobs: tree(&[("a", "one")]) };
    let skipped = unarchive_changes(&mut workspace, &archive);
    assert_eq!(skipped, vec!["n2".to_string(), "nowhere".to_string(), "n1".to_string()]);
    assert_eq!(workspace.len(), 2);
    assert_eq!(data_of(&workspace, "kept"), Some(b"k".to_vec()));
    assert_eq!(data_of(&workspace, "a"), Some(b"one".to_vec()));
}

#[test]
fn unarchive_creates_a_file_that_was_marked_updated_but_is_absent() {
    let mut workspace = tree(&[]);
    let mut changes: ChangeSet = PathMap::new();
    changes.insert("a".to_string(), Change::Update);
    let archive = Archive { changes, blobs: tree(&[("a", "one")]) };
    let skipped = unarchive_changes(&mut workspace, &archive);
    assert!(skipped.is_empty());
    assert_eq!(data_of(&workspace, "a"), Some(b"one".to_vec()));
}

#[test]
fn snapshot_digests_are_32_bytes_long() {
    let m = hash_directory(&tree(&[("a", "alpha"), ("b", "")]));
    for i in 0..m.len() {
        assert_eq!(m.value_at(i).0.len(), 32);
    }
    let r = patch_request(&tree(&[("a", "alpha")]));
    assert_eq!(r.value_at(0).0.len(), 32);
}

#[test]
fn replay_has_one_action_for_each_change() {
    let mut workspace = tree(&[("a", "1"), ("old", "o")]);
    let mut changes: ChangeSet = PathMap::new();
    changes.insert("n".to_string(), Change::Add);
    changes.insert("old".to_string(), Change::Remove);
    changes.insert("a".to_string(), Change::Update);
    changes.insert("nowhere".to_string(), Change::Remove);
    changes.insert("b".to_string(), Change::Add);
    let archive = Archive { changes, blobs: tree(&[("a", "one"), ("b", "two")]) };
    let skipped = unarchive_changes(&mut workspace, &archive);
    assert_eq!(skipped, vec!["n".to_string(), "nowhere".to_string()]);
    let actions = replay_actions(&archive.changes, &skipped);
    assert_eq!(
        actions,
        vec![Action::Skip, Action::Delete, Action::Write, Action::Skip, Action::Write]
    );
}

#[test]
fn replay_without_skipped_paths_writes_and_deletes() {
    let mut changes: ChangeSet = PathMap::new();
    changes.insert("a".to_string(), Change::Update);
    changes.insert("b".to_string(), Change::Remove);
    changes.insert("c".to_string(), Change::Add);
    let actions = replay_actions(&changes, &Vec::new());
    assert_eq!(actions, vec![Action::Write, Action::Delete, Action::Write]);
    assert!(replay_actions(&PathMap::new(), &vec!["a".to_string()]).is_empty());
}

#[test]
fn lists_name_what_they_hold() {
    let list = vec!["a".to_string(), "b".to_string()];
    assert!(is_listed(&list, &"a".to_string()));
    assert!(is_listed(&list, &"b".to_string()));
    assert!(!is_listed(&list, &"c".to_string()));
    assert!(!is_listed(&Vec::new(), &"a".to_string()));
}
