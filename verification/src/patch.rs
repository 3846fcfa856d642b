use vstd::prelude::*;
use crate::archive::{
    apply_spec, archive_blobs, archive_changes, contents, is_missing, is_skipped, listed, names,
    payload_of, skipped_of, unarchive_changes, Archive, FileTree, PatchError,
};
use crate::hash::HashValue;
use crate::pathmap::PathMap;
use crate::snapshot::{hash_directory, hashable, snapshot_spec};

verus! {

/// What has to happen to one path of the workspace to bring it to the
/// target state.
#[derive(Debug, Copy, Clone, PartialEq, Eq, Structural)]
pub enum Change {
    /// The target state has the path, the current state has not.
    Add,
    /// Both states have the path, with different digests.
    Update,
    /// The current state has the path, the target state has not.
    Remove,
}

/// The digest of every regular file under a root, by relative path.
pub type Manifest = PathMap<HashValue>;

/// The changes that lead from one manifest to another, by relative path.
pub type ChangeSet = PathMap<Change>;

/// The manifest as a map from path to the digest's bytes.
pub open spec fn digests(m: Map<Seq<char>, HashValue>) -> Map<Seq<char>, Seq<u8>> {
    Map::new(|p: Seq<char>| m.dom().contains(p), |p: Seq<char>| m[p]@)
}

/// The target state has `p` and the current state has not.
pub open spec fn is_added(
    current: Map<Seq<char>, Seq<u8>>,
    target: Map<Seq<char>, Seq<u8>>,
    p: Seq<char>,
) -> bool {
    target.dom().contains(p) && !current.dom().contains(p)
}

/// Both states have `p`, with different digests.
pub open spec fn is_updated(
    current: Map<Seq<char>, Seq<u8>>,
    target: Map<Seq<char>, Seq<u8>>,
    p: Seq<char>,
) -> bool {
    target.dom().contains(p) && current.dom().contains(p) && current[p] != target[p]
}

/// The current state has `p` and the target state has not.
pub open spec fn is_removed(
    current: Map<Seq<char>, Seq<u8>>,
    target: Map<Seq<char>, Seq<u8>>,
    p: Seq<char>,
) -> bool {
    current.dom().contains(p) && !target.dom().contains(p)
}

/// Both states have `p`, with the same digest.
pub open spec fn is_unchanged(
    current: Map<Seq<char>, Seq<u8>>,
    target: Map<Seq<char>, Seq<u8>>,
    p: Seq<char>,
) -> bool {
    target.dom().contains(p) && current.dom().contains(p) && current[p] == target[p]
}

/// The change, if any, that `p` needs on the way from `current` to `target`.
pub open spec fn classify(
    current: Map<Seq<char>, Seq<u8>>,
    target: Map<Seq<char>, Seq<u8>>,
    p: Seq<char>,
) -> Option<Change> {
    if is_added(current, target, p) {
        Some(Change::Add)
    } else if is_updated(current, target, p) {
        Some(Change::Update)
    } else if is_removed(current, target, p) {
        Some(Change::Remove)
    } else {
        None
    }
}

/// The difference between two manifests: every path that needs a change,
/// with that change. A path that both hold with one digest has no entry.
pub open spec fn diff_spec(
    current: Map<Seq<char>, Seq<u8>>,
    target: Map<Seq<char>, Seq<u8>>,
) -> Map<Seq<char>, Change> {
    Map::new(
        |p: Seq<char>| classify(current, target, p).is_some(),
        |p: Seq<char>| classify(current, target, p).unwrap(),
    )
}

/// Whether `p` is one of the first `n` paths of `order`.
pub open spec fn seen(order: Seq<Seq<char>>, n: int, p: Seq<char>) -> bool {
    exists|k: int| 0 <= k < n && k < order.len() && order[k] == p
}

/// The paths among the first `n` of `order` that `keep` holds of, in their
/// order.
pub open spec fn selected(
    order: Seq<Seq<char>>,
    n: int,
    keep: spec_fn(Seq<char>) -> bool,
) -> Seq<Seq<char>>
    decreases n,
{
    if n <= 0 || n > order.len() {
        Seq::<Seq<char>>::empty()
    } else if keep(order[n - 1]) {
        selected(order, n - 1, keep).push(order[n - 1])
    } else {
        selected(order, n - 1, keep)
    }
}

/// The paths that need a change on the way from `current` to `target`.
pub open spec fn needs_change(
    current: Map<Seq<char>, Seq<u8>>,
    target: Map<Seq<char>, Seq<u8>>,
) -> spec_fn(Seq<char>) -> bool {
    |p: Seq<char>| classify(current, target, p).is_some()
}

/// The paths that `target` does not have.
pub open spec fn absent_from(target: Map<Seq<char>, Seq<u8>>) -> spec_fn(Seq<char>) -> bool {
    |p: Seq<char>| !target.dom().contains(p)
}

/// The order in which the difference lists its paths: those of the target
/// that are added or updated, as the target has them, then those removed, as
/// the current state has them.
pub open spec fn diff_order(
    current: Map<Seq<char>, Seq<u8>>,
    current_order: Seq<Seq<char>>,
    target: Map<Seq<char>, Seq<u8>>,
    target_order: Seq<Seq<char>>,
) -> Seq<Seq<char>> {
    selected(target_order, target_order.len() as int, needs_change(current, target)) + selected(
        current_order,
        current_order.len() as int,
        absent_from(target),
    )
}

/// A path of an order without repetition is not among those before it.
pub proof fn lemma_not_seen(order: Seq<Seq<char>>, n: int)
    requires
        order.no_duplicates(),
        0 <= n < order.len(),
    ensures
        !seen(order, n, order[n]),
{
    if seen(order, n, order[n]) {
        let k = choose|k: int| 0 <= k < n && k < order.len() && order[k] == order[n];
        assert(order[k] == order[n]);
    }
}

/// One more path of the order is seen with each step.
pub proof fn lemma_seen_step(order: Seq<Seq<char>>, n: int)
    requires
        0 <= n < order.len(),
    ensures
        forall|p: Seq<char>| #[trigger] seen(order, n + 1, p) <==> seen(order, n, p) || p == order[n],
{
    assert forall|p: Seq<char>| #[trigger] seen(order, n + 1, p) <==> seen(order, n, p) || p == order[n] by {
        if seen(order, n + 1, p) {
            let k = choose|k: int| 0 <= k < n + 1 && k < order.len() && order[k] == p;
            if k < n {
                assert(seen(order, n, p));
            }
        }
        if seen(order, n, p) {
            let k = choose|k: int| 0 <= k < n && k < order.len() && order[k] == p;
            assert(0 <= k < n + 1 && k < order.len() && order[k] == p);
        }
        if p == order[n] {
            assert(0 <= n < n + 1 && n < order.len() && order[n] == p);
        }
    }
}

/// At the end of the order, its paths are those seen; at its start, none is.
pub proof fn lemma_seen_all(order: Seq<Seq<char>>)
    ensures
        forall|p: Seq<char>| #[trigger] seen(order, order.len() as int, p) <==> order.contains(p),
        forall|p: Seq<char>| !seen(order, 0, p),
{
    assert forall|p: Seq<char>| #[trigger] seen(order, order.len() as int, p) <==> order.contains(p) by {
        if seen(order, order.len() as int, p) {
            let k = choose|k: int| 0 <= k < order.len() && k < order.len() && order[k] == p;
            assert(order[k] == p);
        }
        if order.contains(p) {
            let k = choose|k: int| 0 <= k < order.len() && order[k] == p;
            assert(0 <= k < order.len() && k < order.len() && order[k] == p);
        }
    }
}

/// The difference of a manifest with itself is empty.
pub proof fn lemma_diff_same(m: Map<Seq<char>, Seq<u8>>)
    ensures
        diff_spec(m, m) == Map::<Seq<char>, Change>::empty(),
{
    assert(diff_spec(m, m) =~= Map::<Seq<char>, Change>::empty());
}

/// Every path of either manifest is added, updated, removed or unchanged,
/// and never two of these. The difference holds the path in the first three
/// cases, with that change, and not in the fourth. It holds no path that is
/// in neither manifest.
pub proof fn lemma_diff_partition(
    current: Map<Seq<char>, Seq<u8>>,
    target: Map<Seq<char>, Seq<u8>>,
    p: Seq<char>,
)
    ensures
        current.dom().contains(p) || target.dom().contains(p) ==> {
            let n_add: int = if is_added(current, target, p) { 1 } else { 0 };
            let n_update: int = if is_updated(current, target, p) { 1 } else { 0 };
            let n_remove: int = if is_removed(current, target, p) { 1 } else { 0 };
            let n_same: int = if is_unchanged(current, target, p) { 1 } else { 0 };
            n_add + n_update + n_remove + n_same == 1
        },
        is_added(current, target, p) <==> diff_spec(current, target).dom().contains(p)
            && diff_spec(current, target)[p] == Change::Add,
        is_updated(current, target, p) <==> diff_spec(current, target).dom().contains(p)
            && diff_spec(current, target)[p] == Change::Update,
        is_removed(current, target, p) <==> diff_spec(current, target).dom().contains(p)
            && diff_spec(current, target)[p] == Change::Remove,
        is_unchanged(current, target, p) ==> !diff_spec(current, target).dom().contains(p),
        !current.dom().contains(p) && !target.dom().contains(p) ==> !diff_spec(
            current,
            target,
        ).dom().contains(p),
{
}

/// Compares two manifests. A path that only `server_hashes` (the target
/// state) has is added; one that both have with different digests is
/// updated; one that only `client_hashes` (the current state) has is removed;
/// one that both have with the same digest gets no entry. The entries come
/// in the order of `server_hashes`, then those removed in the order of
/// `client_hashes`.
pub fn diff_changes(client_hashes: &Manifest, server_hashes: &Manifest) -> (changes: ChangeSet)
    requires
        client_hashes.wf(),
        server_hashes.wf(),
    ensures
        changes.wf(),
        changes@ == diff_spec(digests(client_hashes@), digests(server_hashes@)),
        changes.order() == diff_order(
            digests(client_hashes@),
            client_hashes.order(),
            digests(server_hashes@),
            server_hashes.order(),
        ),
{
    let ghost current = digests(client_hashes@);
    let ghost target = digests(server_hashes@);
    let ghost full = diff_spec(current, target);
    let mut result: ChangeSet = PathMap::new();
    let mut i: usize = 0;
    proof {
        server_hashes.lemma_order();
        client_hashes.lemma_order();
    }
    while i < server_hashes.len()
        invariant
            client_hashes.wf(),
            server_hashes.wf(),
            result.wf(),
            current == digests(client_hashes@),
            target == digests(server_hashes@),
            full == diff_spec(current, target),
            i <= server_hashes.order().len(),
            server_hashes.order().no_duplicates(),
            result.order() == selected(
                server_hashes.order(),
                i as int,
                needs_change(current, target),
            ),
            forall|p: Seq<char>|
                #[trigger] result@.dom().contains(p) <==> full.dom().contains(p) && seen(
                    server_hashes.order(),
                    i as int,
                    p,
                ),
            forall|p: Seq<char>| #[trigger] result@.dom().contains(p) ==> result@[p] == full[p],
        decreases server_hashes.order().len() - i,
    {
        let path = server_hashes.path_at(i);
        let server_hash = server_hashes.value_at(i);
        proof {
            lemma_not_seen(server_hashes.order(), i as int);
        }
        match client_hashes.get(path) {
            None => {
                result.insert(path.clone(), Change::Add);
            },
            Some(client_hash) => {
                if !client_hash.equals(server_hash) {
                    result.insert(path.clone(), Change::Update);
                }
            },
        }
        proof {
            lemma_seen_step(server_hashes.order(), i as int);
        }
        i += 1;
    }
    proof {
        lemma_seen_all(server_hashes.order());
    }
    let ghost first = result.order();
    let mut j: usize = 0;
    while j < client_hashes.len()
        invariant
            client_hashes.wf(),
            server_hashes.wf(),
            result.wf(),
            current == digests(client_hashes@),
            target == digests(server_hashes@),
            full == diff_spec(current, target),
            j <= client_hashes.order().len(),
            client_hashes.order().no_duplicates(),
            result.order() == first + selected(
                client_hashes.order(),
                j as int,
                absent_from(target),
            ),
            forall|p: Seq<char>|
                #[trigger] result@.dom().contains(p) <==> full.dom().contains(p) && (
                server_hashes@.dom().contains(p) || seen(client_hashes.order(), j as int, p)),
            forall|p: Seq<char>| #[trigger] result@.dom().contains(p) ==> result@[p] == full[p],
        decreases client_hashes.order().len() - j,
    {
        let path = client_hashes.path_at(j);
        let ghost kept = selected(client_hashes.order(), j as int, absent_from(target));
        proof {
            lemma_not_seen(client_hashes.order(), j as int);
        }
        if !server_hashes.contains_path(path) {
            result.insert(path.clone(), Change::Remove);
            assert((first + kept).push(path@) =~= first + kept.push(path@));
        }
        proof {
            lemma_seen_step(client_hashes.order(), j as int);
        }
        j += 1;
    }
    proof {
        lemma_seen_all(client_hashes.order());
        assert(result@ =~= full);
    }
    result
}

/// The first step of a synchronisation, on the side that wants to be
/// brought up to date: the manifest of its workspace.
pub fn patch_request(workspace: &FileTree) -> (hashes: Manifest)
    requires
        workspace.wf(),
        hashable(contents(workspace@)),
    ensures
        hashes.wf(),
        digests(hashes@) == snapshot_spec(contents(workspace@)),
        hashes.order() == workspace.order(),
        forall|p: Seq<char>| #[trigger] hashes@.dom().contains(p) ==> hashes@[p]@.len() == 32,
{
    hash_directory(workspace)
}

/// The second step, on the side that holds the reference state: the archive
/// that leads from the state that `hashes` describes to the state of
/// `workspace`. The manifest received is the current state and the
/// workspace here the target, so the bytes archived are this workspace's,
/// and none can be missing.
pub fn patch_create(workspace: &FileTree, hashes: &Manifest) -> (r: Result<Archive, PatchError>)
    requires
        workspace.wf(),
        hashes.wf(),
        hashable(contents(workspace@)),
    ensures
        match r {
            Ok(archive) => {
                &&& archive.wf()
                &&& archive.changes@ == diff_spec(
                    digests(hashes@),
                    snapshot_spec(contents(workspace@)),
                )
                &&& archive.changes.order() == diff_order(
                    digests(hashes@),
                    hashes.order(),
                    snapshot_spec(contents(workspace@)),
                    workspace.order(),
                )
                &&& contents(archive.blobs@) == archive_blobs(
                    contents(workspace@),
                    archive.changes@,
                )
                &&& archive.blobs.order() == selected(
                    archive.changes.order(),
                    archive.changes.order().len() as int,
                    payload_of(archive.changes@),
                )
            },
            Err(_) => false,
        },
{
    let local_hashes = hash_directory(workspace);
    let changes = diff_changes(hashes, &local_hashes);
    let r = archive_changes(workspace, &changes);
    proof {
        assert forall|p: Seq<char>| !is_missing(contents(workspace@), changes@, p) by {
            assert(digests(local_hashes@).dom().contains(p) <==> contents(workspace@).dom().contains(p));
        }
    }
    r
}

/// The third step, back on the first side: the archive's changes replayed
/// on the workspace. The result lists the paths that were skipped.
pub fn patch_apply(workspace: &mut FileTree, archive: &Archive) -> (skipped: Vec<String>)
    requires
        old(workspace).wf(),
        archive.wf(),
    ensures
        final(workspace).wf(),
        contents(final(workspace)@) == apply_spec(
            contents(old(workspace)@),
            archive.changes@,
            contents(archive.blobs@),
        ),
        forall|p: Seq<char>| #[trigger]
            listed(skipped@, p) <==> is_skipped(
                contents(old(workspace)@),
                archive.changes@,
                contents(archive.blobs@),
                p,
            ),
        forall|a: int, b: int| 0 <= a < b < skipped@.len() ==> skipped@[a]@ != skipped@[b]@,
        names(skipped@) == selected(
            archive.changes.order(),
            archive.changes.order().len() as int,
            skipped_of(contents(old(workspace)@), archive.changes@, contents(archive.blobs@)),
        ),
{
    unarchive_changes(workspace, archive)
}

/// A workspace brought from its own state towards a target state, by the
/// archive of the difference between their manifests made from the target's
/// files, has the target's manifest: the same paths with the same digests.
/// On the way no file is missing for the archive and no path is skipped.
pub proof fn lemma_round_trip(
    current_files: Map<Seq<char>, Seq<u8>>,
    target_files: Map<Seq<char>, Seq<u8>>,
)
    ensures
        ({
            let changes = diff_spec(snapshot_spec(current_files), snapshot_spec(target_files));
            let blobs = archive_blobs(target_files, changes);
            &&& forall|p: Seq<char>| !is_missing(target_files, changes, p)
            &&& forall|p: Seq<char>| !is_skipped(current_files, changes, blobs, p)
            &&& snapshot_spec(apply_spec(current_files, changes, blobs)) == snapshot_spec(
                target_files,
            )
        }),
{
    let changes = diff_spec(snapshot_spec(current_files), snapshot_spec(target_files));
    let blobs = archive_blobs(target_files, changes);
    assert(snapshot_spec(apply_spec(current_files, changes, blobs)) =~= snapshot_spec(
        target_files,
    ));
}

} // verus!
