use vstd::prelude::*;
use vstd::utf8::encode_utf8;
use crate::archive::{contents, Archive, PatchError};

verus! {

/// A zip file in the making, in memory: a `zip::ZipWriter` over a
/// `std::io::Cursor` on a byte vector. What it holds is spoken of by
/// `writer_comment` and `writer_entries`.
#[verifier::external_body]
pub struct BlobWriter {
    inner: zip::ZipWriter<std::io::Cursor<Vec<u8>>>,
}

/// The comment that a zip writer has been given.
pub uninterp spec fn writer_comment(w: BlobWriter) -> Seq<char>;

/// The entries that a zip writer has been given so far, each with its name
/// and the bytes written to it, in the order in which they were started.
pub uninterp spec fn writer_entries(w: BlobWriter) -> Seq<(Seq<char>, Seq<u8>)>;

/// Whether a zip writer is open. It is from its making on; a write that
/// takes an entry past `MAX_ENTRY_LEN` bytes closes it for good, and a closed
/// writer starts no entry and finishes no file.
pub uninterp spec fn writer_open(w: BlobWriter) -> bool;

/// The bytes of the zip file with this comment and these stored entries.
/// Every entry is written with the default options, which hold a fixed date
/// as long as the `zip` crate is built without its `time` feature, so
/// nothing but the comment and the entries goes into the bytes.
pub uninterp spec fn zip_bytes(comment: Seq<char>, entries: Seq<(Seq<char>, Seq<u8>)>) -> Seq<u8>;

/// `zip::ZipWriter::new` over an empty buffer in memory: the writer is open
/// and has no comment and no entry.
#[verifier::external_body]
fn writer_new() -> (w: BlobWriter)
    ensures
        writer_open(w),
        writer_comment(w) == Seq::<char>::empty(),
        writer_entries(w) == Seq::<(Seq<char>, Seq<u8>)>::empty(),
{
    BlobWriter { inner: zip::ZipWriter::new(std::io::Cursor::new(Vec::new())) }
}

/// `zip::ZipWriter::set_comment`: the writer then has this comment, and the
/// entries that it had; it is open if it was.
#[verifier::external_body]
fn writer_set_comment(w: &mut BlobWriter, comment: &str)
    ensures
        writer_open(*final(w)) == writer_open(*old(w)),
        writer_comment(*final(w)) == comment@,
        writer_entries(*final(w)) == writer_entries(*old(w)),
{
    w.inner.set_comment(comment)
}

/// `zip::ZipWriter::start_file` with the default options and no compression,
/// and whether it returned `Ok`: it does so on an open writer, which stays
/// open, and on no other. The writer then has one more entry, of this name
/// and without bytes yet, after those that it had.
#[verifier::external_body]
fn writer_start_stored(w: &mut BlobWriter, name: &str) -> (ok: bool)
    ensures
        ok == writer_open(*old(w)),
        ok ==> writer_open(*final(w)),
        ok ==> writer_entries(*final(w)) == writer_entries(*old(w)).push(
            (name@, Seq::<u8>::empty()),
        ),
        ok ==> writer_comment(*final(w)) == writer_comment(*old(w)),
{
    let options = zip::write::FileOptions::default();
    w.inner.start_file(name, options.compression_method(zip::CompressionMethod::Stored)).is_ok()
}

/// `std::io::Write::write_all` on a `zip::ZipWriter`, and whether it returned
/// `Ok`: it does so on an open writer with an entry, as long as the entry
/// stays within `MAX_ENTRY_LEN` bytes. The bytes then stand at the end of the
/// last entry, and nothing else has changed. (Without an entry only an empty
/// write returns `Ok`.)
#[verifier::external_body]
fn writer_write_all(w: &mut BlobWriter, data: &[u8]) -> (ok: bool)
    ensures
        writer_open(*old(w)) && writer_entries(*old(w)).len() > 0 && writer_entries(
            *old(w),
        ).last().1.len() + data@.len() <= MAX_ENTRY_LEN ==> ok,
        ok ==> writer_open(*final(w)) == writer_open(*old(w)),
        ok ==> writer_entries(*final(w)) == if writer_entries(*old(w)).len() > 0 {
            writer_entries(*old(w)).drop_last().push(
                (writer_entries(*old(w)).last().0, writer_entries(*old(w)).last().1 + data@),
            )
        } else {
            writer_entries(*old(w))
        },
        ok ==> writer_comment(*final(w)) == writer_comment(*old(w)),
{
    std::io::Write::write_all(&mut w.inner, data).is_ok()
}

/// `zip::ZipWriter::finish` and the buffer out of the cursor that it returns:
/// on an open writer it returns `Ok`, and where it does, the bytes are those
/// of the zip file with the writer's comment and entries.
#[verifier::external_body]
fn writer_finish(w: BlobWriter) -> (bytes: Option<Vec<u8>>)
    ensures
        writer_open(w) ==> bytes.is_some(),
        bytes.is_some() ==> bytes.unwrap()@ == zip_bytes(writer_comment(w), writer_entries(w)),
{
    let mut w = w;
    match w.inner.finish() {
        Ok(cursor) => Some(cursor.into_inner()),
        Err(_) => None,
    }
}

/// The most bytes that the comment of a zip file, or the name of an entry,
/// can have: the container writes their lengths in 16 bits.
pub const MAX_TEXT_LEN: usize = 0xFFFF;

/// The most bytes that one entry can have in a zip file of this kind.
pub const MAX_ENTRY_LEN: usize = 0xFFFF_FFFF;

/// Whether the container takes `metadata` as its comment.
pub open spec fn metadata_fits(metadata: Seq<char>) -> bool {
    encode_utf8(metadata).len() <= MAX_TEXT_LEN
}

/// Whether the container takes the blob of `p` as an entry: the path no
/// longer than a name can be, the bytes no more than an entry can hold.
pub open spec fn entry_fits(blobs: Map<Seq<char>, Seq<u8>>, p: Seq<char>) -> bool {
    encode_utf8(p).len() <= MAX_TEXT_LEN && blobs[p].len() <= MAX_ENTRY_LEN
}

/// The blobs as entries of a container: each path with its bytes, in the
/// order of the blobs.
pub open spec fn blob_entries(order: Seq<Seq<char>>, blobs: Map<Seq<char>, Seq<u8>>) -> Seq<
    (Seq<char>, Seq<u8>),
> {
    Seq::new(order.len(), |i: int| (order[i], blobs[order[i]]))
}

/// Writes an archive as one artifact: a zip file that carries `metadata`,
/// the serialised change set, as its comment and each blob as a stored entry
/// under its path, in the order of the blobs. Metadata, a path or a blob too
/// long for the container is refused: a metadata or a path longer than
/// `MAX_TEXT_LEN` bytes would be cut short in the file. The error names the
/// first blob that does not fit.
pub fn pack_archive(archive: &Archive, metadata: &String) -> (r: Result<Vec<u8>, PatchError>)
    requires
        archive.wf(),
    ensures
        match r {
            Ok(bytes) => {
                &&& metadata_fits(metadata@)
                &&& forall|k: int|
                    0 <= k < archive.blobs.order().len() ==> entry_fits(
                        contents(archive.blobs@),
                        #[trigger] archive.blobs.order()[k],
                    )
                &&& bytes@ == zip_bytes(
                    metadata@,
                    blob_entries(archive.blobs.order(), contents(archive.blobs@)),
                )
            },
            Err(PatchError::MetadataTooLong) => !metadata_fits(metadata@),
            Err(PatchError::EntryTooLong(path)) => metadata_fits(metadata@) && exists|k: int|
                {
                    &&& 0 <= k < archive.blobs.order().len()
                    &&& archive.blobs.order()[k] == path@
                    &&& !entry_fits(contents(archive.blobs@), path@)
                    &&& forall|j: int|
                        0 <= j < k ==> entry_fits(
                            contents(archive.blobs@),
                            #[trigger] archive.blobs.order()[j],
                        )
                },
            Err(PatchError::MissingFile(_)) => false,
        },
{
    let ghost order = archive.blobs.order();
    let ghost blobs = contents(archive.blobs@);
    if metadata.as_str().as_bytes().len() > MAX_TEXT_LEN {
        return Err(PatchError::MetadataTooLong);
    }
    let mut writer = writer_new();
    writer_set_comment(&mut writer, metadata.as_str());
    let mut i: usize = 0;
    while i < archive.blobs.len()
        invariant
            archive.wf(),
            order == archive.blobs.order(),
            blobs == contents(archive.blobs@),
            i <= order.len(),
            metadata_fits(metadata@),
            writer_open(writer),
            writer_comment(writer) == metadata@,
            writer_entries(writer) == blob_entries(order.take(i as int), blobs),
            forall|j: int| 0 <= j < i ==> entry_fits(blobs, #[trigger] order[j]),
        decreases order.len() - i,
    {
        let path = archive.blobs.path_at(i);
        let data = archive.blobs.value_at(i);
        if path.as_str().as_bytes().len() > MAX_TEXT_LEN || data.len() > MAX_ENTRY_LEN {
            return Err(PatchError::EntryTooLong(path.clone()));
        }
        let ghost before = writer_entries(writer);
        let started = writer_start_stored(&mut writer, path.as_str());
        assert(started);
        let written = writer_write_all(&mut writer, data.as_slice());
        proof {
            assert(before.push((path@, Seq::<u8>::empty())).drop_last() =~= before);
            assert(Seq::<u8>::empty() + data@ =~= data@);
            assert(written);
            assert(writer_entries(writer) =~= blob_entries(order.take(i as int + 1), blobs));
        }
        i += 1;
    }
    assert(order.take(i as int) =~= order);
    let bytes = writer_finish(writer);
    Ok(bytes.unwrap())
}

} // verus!
