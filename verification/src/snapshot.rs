use vstd::prelude::*;
use crate::archive::{contents, FileTree};
use crate::digest::{sha256, sha256_bytes, MAX_INPUT_LEN};
use crate::patch::{digests, lemma_seen_all, lemma_seen_step, seen, Manifest};
use crate::pathmap::PathMap;

verus! {

/// The manifest of a set of files: the same paths, each with the digest of
/// the file's bytes.
pub open spec fn snapshot_spec(files: Map<Seq<char>, Seq<u8>>) -> Map<Seq<char>, Seq<u8>> {
    Map::new(|p: Seq<char>| files.dom().contains(p), |p: Seq<char>| sha256(files[p]))
}

/// Whether every file is short enough for one digest computation.
pub open spec fn hashable(files: Map<Seq<char>, Seq<u8>>) -> bool {
    forall|p: Seq<char>| #[trigger] files.dom().contains(p) ==> files[p].len() < MAX_INPUT_LEN
}

/// The manifest of a directory tree: one entry for each regular file, under
/// the file's relative path, with the digest of its bytes. The entries come
/// in the order of the files.
pub fn hash_directory(tree: &FileTree) -> (manifest: Manifest)
    requires
        tree.wf(),
        hashable(contents(tree@)),
    ensures
        manifest.wf(),
        digests(manifest@) == snapshot_spec(contents(tree@)),
        manifest.order() == tree.order(),
        forall|p: Seq<char>| #[trigger] manifest@.dom().contains(p) ==> manifest@[p]@.len() == 32,
{
    let ghost order = tree.order();
    let mut result: Manifest = PathMap::new();
    let mut i: usize = 0;
    proof {
        tree.lemma_order();
        lemma_seen_all(order);
    }
    while i < tree.len()
        invariant
            tree.wf(),
            result.wf(),
            hashable(contents(tree@)),
            order == tree.order(),
            order.no_duplicates(),
            i <= order.len(),
            result.order() == order.take(i as int),
            forall|p: Seq<char>| #[trigger] result@.dom().contains(p) <==> seen(order, i as int, p),
            forall|p: Seq<char>| #[trigger]
                result@.dom().contains(p) ==> tree@.dom().contains(p) && result@[p]@ == sha256(
                    tree@[p]@,
                ) && result@[p]@.len() == 32,
        decreases order.len() - i,
    {
        let path = tree.path_at(i);
        let data = tree.value_at(i);
        proof {
            lemma_seen_step(order, i as int);
            assert(contents(tree@).dom().contains(path@));
            assert(contents(tree@)[path@] == data@);
            if seen(order, i as int, path@) {
                let k = choose|k: int| 0 <= k < i as int && k < order.len() && order[k] == path@;
                assert(order[k] == order[i as int]);
            }
        }
        let hash = sha256_bytes(data);
        result.insert(path.clone(), hash);
        assert(order.take(i as int).push(path@) =~= order.take(i as int + 1));
        i += 1;
    }
    proof {
        assert(order.take(i as int) =~= order);
        assert(digests(result@) =~= snapshot_spec(contents(tree@)));
    }
    result
}

} // verus!
