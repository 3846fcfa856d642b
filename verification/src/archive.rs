use vstd::prelude::*;
use crate::patch::{
    lemma_not_seen, lemma_seen_all, lemma_seen_step, seen, selected, Change, ChangeSet,
};
use crate::pathmap::PathMap;

verus! {

/// The regular files of a directory tree: their bytes, by relative path.
pub type FileTree = PathMap<Vec<u8>>;

/// A change set together with the bytes of the files that it adds or
/// updates: all that is needed to apply it elsewhere.
pub struct Archive {
    /// The instructions.
    pub changes: ChangeSet,
    /// The named blobs, by the path that each is for.
    pub blobs: FileTree,
}

/// Why an archive could not be made.
#[derive(Debug)]
pub enum PatchError {
    /// The change set adds or updates this path, and the workspace has no
    /// such file.
    MissingFile(String),
    /// The serialised change set is too long for the container's comment.
    MetadataTooLong,
    /// The blob of this path is too long for the container, or the path is
    /// too long for an entry's name.
    EntryTooLong(String),
}

/// What replaying one change does to its file in the workspace.
#[derive(Debug, Copy, Clone, PartialEq, Eq, Structural)]
pub enum Action {
    /// The file gets the bytes of the path's blob.
    Write,
    /// The file is deleted.
    Delete,
    /// The file is left as it is.
    Skip,
}

impl Archive {
    /// Both parts are well formed.
    pub open spec fn wf(&self) -> bool {
        self.changes.wf() && self.blobs.wf()
    }
}

/// The files as a map from path to the bytes held.
pub open spec fn contents(t: Map<Seq<char>, Vec<u8>>) -> Map<Seq<char>, Seq<u8>> {
    Map::new(|p: Seq<char>| t.dom().contains(p), |p: Seq<char>| t[p]@)
}

/// Whether the change set has a change for `p` that needs the file's bytes.
pub open spec fn carries_payload(changes: Map<Seq<char>, Change>, p: Seq<char>) -> bool {
    changes.dom().contains(p) && changes[p] != Change::Remove
}

/// Whether the change set needs the bytes of `p` and `files` has no such
/// file.
pub open spec fn is_missing(
    files: Map<Seq<char>, Seq<u8>>,
    changes: Map<Seq<char>, Change>,
    p: Seq<char>,
) -> bool {
    carries_payload(changes, p) && !files.dom().contains(p)
}

/// The blobs of the archive of `changes` made from `files`: the bytes of
/// each path that is added or updated, and nothing for the others.
pub open spec fn archive_blobs(
    files: Map<Seq<char>, Seq<u8>>,
    changes: Map<Seq<char>, Change>,
) -> Map<Seq<char>, Seq<u8>> {
    Map::new(
        |p: Seq<char>| carries_payload(changes, p) && files.dom().contains(p),
        |p: Seq<char>| files[p],
    )
}

/// Whether `p` is a file after the changes were applied to `files`.
pub open spec fn applied_has(
    files: Map<Seq<char>, Seq<u8>>,
    changes: Map<Seq<char>, Change>,
    blobs: Map<Seq<char>, Seq<u8>>,
    p: Seq<char>,
) -> bool {
    if carries_payload(changes, p) {
        blobs.dom().contains(p) || files.dom().contains(p)
    } else {
        !changes.dom().contains(p) && files.dom().contains(p)
    }
}

/// The bytes of `p` after the changes were applied to `files`.
pub open spec fn applied_data(
    files: Map<Seq<char>, Seq<u8>>,
    changes: Map<Seq<char>, Change>,
    blobs: Map<Seq<char>, Seq<u8>>,
    p: Seq<char>,
) -> Seq<u8> {
    if carries_payload(changes, p) && blobs.dom().contains(p) {
        blobs[p]
    } else {
        files[p]
    }
}

/// The workspace after the changes were applied: an added or updated path
/// holds its blob, or stays as it was where the blob is absent; a removed
/// path is gone; every other path stays as it was.
pub open spec fn apply_spec(
    files: Map<Seq<char>, Seq<u8>>,
    changes: Map<Seq<char>, Change>,
    blobs: Map<Seq<char>, Seq<u8>>,
) -> Map<Seq<char>, Seq<u8>> {
    Map::new(
        |p: Seq<char>| applied_has(files, changes, blobs, p),
        |p: Seq<char>| applied_data(files, changes, blobs, p),
    )
}

/// Whether the change for `p` cannot be carried out: its blob is absent, or
/// the file to remove is.
pub open spec fn is_skipped(
    files: Map<Seq<char>, Seq<u8>>,
    changes: Map<Seq<char>, Change>,
    blobs: Map<Seq<char>, Seq<u8>>,
    p: Seq<char>,
) -> bool {
    changes.dom().contains(p) && if changes[p] != Change::Remove {
        !blobs.dom().contains(p)
    } else {
        !files.dom().contains(p)
    }
}

/// The paths for which the change set needs the file's bytes.
pub open spec fn payload_of(changes: Map<Seq<char>, Change>) -> spec_fn(Seq<char>) -> bool {
    |p: Seq<char>| carries_payload(changes, p)
}

/// The paths whose change cannot be carried out.
pub open spec fn skipped_of(
    files: Map<Seq<char>, Seq<u8>>,
    changes: Map<Seq<char>, Change>,
    blobs: Map<Seq<char>, Seq<u8>>,
) -> spec_fn(Seq<char>) -> bool {
    |p: Seq<char>| is_skipped(files, changes, blobs, p)
}

/// The paths that the list names, in its order.
pub open spec fn names(list: Seq<String>) -> Seq<Seq<char>> {
    Seq::new(list.len(), |k: int| list[k]@)
}

/// The action for a path of the change set: none where the path was
/// skipped, else the deletion of a removed path and the writing of an added
/// or updated one.
pub open spec fn action_of(changes: Map<Seq<char>, Change>, p: Seq<char>, skipped: bool) -> Action {
    if skipped {
        Action::Skip
    } else if changes[p] == Change::Remove {
        Action::Delete
    } else {
        Action::Write
    }
}

/// Whether the list names `p`.
pub open spec fn listed(list: Seq<String>, p: Seq<char>) -> bool {
    exists|k: int| 0 <= k < list.len() && list[k]@ == p
}

proof fn lemma_listed_push(list: Seq<String>, s: String)
    ensures
        forall|p: Seq<char>| #[trigger] listed(list.push(s), p) <==> listed(list, p) || p == s@,
{
    let longer = list.push(s);
    assert forall|p: Seq<char>| #[trigger] listed(longer, p) <==> listed(list, p) || p == s@ by {
        if listed(longer, p) {
            let k = choose|k: int| 0 <= k < longer.len() && longer[k]@ == p;
            if k < list.len() {
                assert(list[k]@ == p);
            }
        }
        if listed(list, p) {
            let k = choose|k: int| 0 <= k < list.len() && list[k]@ == p;
            assert(longer[k]@ == p);
        }
        if p == s@ {
            assert(longer[list.len() as int]@ == p);
        }
    }
}

/// Packs a change set with the bytes that it needs. The archive holds the
/// change set as given and, for each path that is added or updated, the
/// file's bytes from `workspace`; a removed path gets no blob. Where the
/// workspace lacks such a file no archive is made, and the error names the
/// first such path in the change set's order.
pub fn archive_changes(workspace: &FileTree, changes: &ChangeSet) -> (r: Result<
    Archive,
    PatchError,
>)
    requires
        workspace.wf(),
        changes.wf(),
    ensures
        match r {
            Ok(archive) => {
                &&& archive.wf()
                &&& forall|p: Seq<char>| !is_missing(contents(workspace@), changes@, p)
                &&& archive.changes@ == changes@
                &&& archive.changes.order() == changes.order()
                &&& contents(archive.blobs@) == archive_blobs(contents(workspace@), changes@)
                &&& archive.blobs.order() == selected(
                    changes.order(),
                    changes.order().len() as int,
                    payload_of(changes@),
                )
                &&& forall|p: Seq<char>| #[trigger]
                    carries_payload(changes@, p) ==> archive.blobs@.dom().contains(p)
            },
            Err(PatchError::MetadataTooLong) => false,
            Err(PatchError::EntryTooLong(_)) => false,
            Err(PatchError::MissingFile(path)) => exists|k: int|
                {
                    &&& 0 <= k < changes.order().len()
                    &&& changes.order()[k] == path@
                    &&& is_missing(contents(workspace@), changes@, path@)
                    &&& forall|j: int|
                        0 <= j < k ==> !is_missing(
                            contents(workspace@),
                            changes@,
                            #[trigger] changes.order()[j],
                        )
                },
        },
{
    let ghost files = contents(workspace@);
    let ghost order = changes.order();
    let mut copy: ChangeSet = PathMap::new();
    let mut blobs: FileTree = PathMap::new();
    let mut i: usize = 0;
    proof {
        changes.lemma_order();
        lemma_seen_all(order);
    }
    while i < changes.len()
        invariant
            workspace.wf(),
            changes.wf(),
            copy.wf(),
            blobs.wf(),
            files == contents(workspace@),
            order == changes.order(),
            order.no_duplicates(),
            i <= order.len(),
            copy.order() == order.take(i as int),
            blobs.order() == selected(order, i as int, payload_of(changes@)),
            forall|p: Seq<char>| #[trigger] copy@.dom().contains(p) <==> seen(order, i as int, p),
            forall|p: Seq<char>| #[trigger] copy@.dom().contains(p) ==> copy@[p] == changes@[p],
            forall|p: Seq<char>| #[trigger]
                blobs@.dom().contains(p) <==> seen(order, i as int, p) && carries_payload(
                    changes@,
                    p,
                ),
            forall|p: Seq<char>| #[trigger]
                blobs@.dom().contains(p) ==> workspace@.dom().contains(p) && blobs@[p]@
                    == workspace@[p]@,
            forall|j: int| 0 <= j < i ==> !is_missing(files, changes@, #[trigger] order[j]),
        decreases order.len() - i,
    {
        let path = changes.path_at(i);
        let change = *changes.value_at(i);
        proof {
            lemma_seen_step(order, i as int);
            lemma_not_seen(order, i as int);
        }
        match change {
            Change::Remove => {},
            _ => {
                match workspace.get(path) {
                    Some(data) => {
                        blobs.insert(path.clone(), data.clone());
                    },
                    None => {
                        return Err(PatchError::MissingFile(path.clone()));
                    },
                }
            },
        }
        copy.insert(path.clone(), change);
        assert(order.take(i as int).push(path@) =~= order.take(i as int + 1));
        i += 1;
    }
    proof {
        assert(order.take(i as int) =~= order);
        assert(copy@ =~= changes@);
        assert(contents(blobs@) =~= archive_blobs(files, changes@));
        assert forall|p: Seq<char>| !is_missing(files, changes@, p) by {
            if changes@.dom().contains(p) {
                let k = choose|k: int| 0 <= k < order.len() && order[k] == p;
                assert(!is_missing(files, changes@, order[k]));
            }
        }
    }
    Ok(Archive { changes: copy, blobs })
}

/// Replays an archive's change set on a workspace. An added or updated path
/// gets the bytes of its blob, whether the file existed or not; where the
/// archive has no blob for it, the path is skipped and stays as it was. A
/// removed path is deleted; where the workspace has no such file, it is
/// skipped. No skipped path stops the others. The result lists the skipped
/// paths, each once.
pub fn unarchive_changes(workspace: &mut FileTree, archive: &Archive) -> (skipped: Vec<String>)
    requires
        old(workspace).wf(),
        archive.wf(),
    ensures
        final(workspace).wf(),
        contents(final(workspace)@) == apply_spec(
            contents(old(workspace)@),
            archive.changes@,
            contents(archive.blobs@),
        ),
        forall|p: Seq<char>| #[trigger]
            listed(skipped@, p) <==> is_skipped(
                contents(old(workspace)@),
                archive.changes@,
                contents(archive.blobs@),
                p,
            ),
        forall|a: int, b: int| 0 <= a < b < skipped@.len() ==> skipped@[a]@ != skipped@[b]@,
        names(skipped@) == selected(
            archive.changes.order(),
            archive.changes.order().len() as int,
            skipped_of(contents(old(workspace)@), archive.changes@, contents(archive.blobs@)),
        ),
{
    let ghost files = contents(workspace@);
    let ghost changes = archive.changes@;
    let ghost blobs = contents(archive.blobs@);
    let ghost order = archive.changes.order();
    let mut skipped: Vec<String> = Vec::new();
    let mut i: usize = 0;
    proof {
        archive.changes.lemma_order();
        lemma_seen_all(order);
    }
    while i < archive.changes.len()
        invariant
            workspace.wf(),
            archive.wf(),
            changes == archive.changes@,
            blobs == contents(archive.blobs@),
            order == archive.changes.order(),
            order.no_duplicates(),
            forall|p: Seq<char>| changes.dom().contains(p) <==> order.contains(p),
            i <= order.len(),
            forall|p: Seq<char>| #[trigger]
                workspace@.dom().contains(p) <==> if seen(order, i as int, p) {
                    applied_has(files, changes, blobs, p)
                } else {
                    files.dom().contains(p)
                },
            forall|p: Seq<char>| #[trigger]
                workspace@.dom().contains(p) ==> workspace@[p]@ == if seen(order, i as int, p) {
                    applied_data(files, changes, blobs, p)
                } else {
                    files[p]
                },
            forall|p: Seq<char>| #[trigger]
                listed(skipped@, p) <==> seen(order, i as int, p) && is_skipped(
                    files,
                    changes,
                    blobs,
                    p,
                ),
            forall|a: int, b: int| 0 <= a < b < skipped@.len() ==> skipped@[a]@ != skipped@[b]@,
            names(skipped@) == selected(order, i as int, skipped_of(files, changes, blobs)),
        decreases order.len() - i,
    {
        let path = archive.changes.path_at(i);
        let change = *archive.changes.value_at(i);
        proof {
            lemma_seen_step(order, i as int);
            lemma_not_seen(order, i as int);
        }
        let done = match change {
            Change::Remove => workspace.remove(path),
            _ => {
                match archive.blobs.get(path) {
                    Some(data) => {
                        workspace.insert(path.clone(), data.clone());
                        true
                    },
                    None => false,
                }
            },
        };
        if !done {
            let name = path.clone();
            proof {
                lemma_listed_push(skipped@, name);
                assert(!listed(skipped@, path@));
                assert(names(skipped@.push(name)) =~= names(skipped@).push(name@));
            }
            skipped.push(name);
        }
        i += 1;
    }
    proof {
        assert(contents(workspace@) =~= apply_spec(files, changes, blobs));
    }
    skipped
}

/// Without the blob of a path that is added or updated, the archive still
/// does to every other path what it did with the blob, that path stays as
/// it was in the workspace, and it is the one path skipped beyond those
/// skipped before.
pub proof fn lemma_missing_blob(
    files: Map<Seq<char>, Seq<u8>>,
    changes: Map<Seq<char>, Change>,
    blobs: Map<Seq<char>, Seq<u8>>,
    missing: Seq<char>,
)
    requires
        carries_payload(changes, missing),
        blobs.dom().contains(missing),
    ensures
        forall|p: Seq<char>|
            p != missing ==> (apply_spec(files, changes, blobs.remove(missing)).dom().contains(p)
                <==> #[trigger] apply_spec(files, changes, blobs).dom().contains(p)),
        forall|p: Seq<char>|
            p != missing && #[trigger] apply_spec(files, changes, blobs).dom().contains(p)
                ==> apply_spec(files, changes, blobs.remove(missing))[p] == apply_spec(
                files,
                changes,
                blobs,
            )[p],
        apply_spec(files, changes, blobs.remove(missing)).dom().contains(missing)
            <==> files.dom().contains(missing),
        files.dom().contains(missing) ==> apply_spec(files, changes, blobs.remove(missing))[missing]
            == files[missing],
        !is_skipped(files, changes, blobs, missing),
        is_skipped(files, changes, blobs.remove(missing), missing),
        forall|p: Seq<char>|
            p != missing ==> (#[trigger] is_skipped(files, changes, blobs.remove(missing), p)
                <==> is_skipped(files, changes, blobs, p)),
{
}

/// Whether `list` names `path`.
pub fn is_listed(list: &Vec<String>, path: &String) -> (r: bool)
    ensures
        r == listed(list@, path@),
{
    let mut i: usize = 0;
    while i < list.len()
        invariant
            i <= list@.len(),
            forall|k: int| 0 <= k < i ==> list@[k]@ != path@,
        decreases list@.len() - i,
    {
        if list[i] == *path {
            return true;
        }
        i += 1;
    }
    false
}

/// The actions that carry a change set out on the files of a workspace, one
/// for each path, in the change set's order: nothing for a path that
/// `skipped` names, a deletion for a removed path, a write of the path's
/// blob for an added or updated one.
pub fn replay_actions(changes: &ChangeSet, skipped: &Vec<String>) -> (actions: Vec<Action>)
    requires
        changes.wf(),
    ensures
        actions@.len() == changes.order().len(),
        forall|k: int|
            0 <= k < actions@.len() ==> #[trigger] actions@[k] == action_of(
                changes@,
                changes.order()[k],
                listed(skipped@, changes.order()[k]),
            ),
{
    let mut actions: Vec<Action> = Vec::new();
    let mut i: usize = 0;
    while i < changes.len()
        invariant
            changes.wf(),
            i <= changes.order().len(),
            actions@.len() == i,
            forall|k: int|
                0 <= k < i ==> #[trigger] actions@[k] == action_of(
                    changes@,
                    changes.order()[k],
                    listed(skipped@, changes.order()[k]),
                ),
        decreases changes.order().len() - i,
    {
        let path = changes.path_at(i);
        let change = *changes.value_at(i);
        let action = if is_listed(skipped, path) {
            Action::Skip
        } else {
            match change {
                Change::Remove => Action::Delete,
                _ => Action::Write,
            }
        };
        actions.push(action);
        i += 1;
    }
    actions
}

/// The actions for the paths that applying the changes skips bring each
/// file to its state after the changes: a written path has a blob and ends
/// with its bytes, a deleted path was a file and is none any more, and a
/// skipped path stays as it was.
pub proof fn lemma_actions_apply(
    files: Map<Seq<char>, Seq<u8>>,
    changes: Map<Seq<char>, Change>,
    blobs: Map<Seq<char>, Seq<u8>>,
    p: Seq<char>,
)
    requires
        changes.dom().contains(p),
    ensures
        ({
            let action = action_of(changes, p, is_skipped(files, changes, blobs, p));
            let after = apply_spec(files, changes, blobs);
            &&& action == Action::Write ==> blobs.dom().contains(p) && after.dom().contains(p)
                && after[p] == blobs[p]
            &&& action == Action::Delete ==> files.dom().contains(p) && !after.dom().contains(p)
            &&& action == Action::Skip ==> (after.dom().contains(p) <==> files.dom().contains(p))
                && (files.dom().contains(p) ==> after[p] == files[p])
        }),
{
}

} // verus!
