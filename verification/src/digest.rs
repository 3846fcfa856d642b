use vstd::prelude::*;
use crate::hash::HashValue;

verus! {

/// The largest number of bytes that one digest computation takes, and one
/// more: the length in bits has to fit in 64 bits.
pub const MAX_INPUT_LEN: u64 = 0x2000_0000_0000_0000;

#[verifier::external_type_specification]
#[verifier::external_body]
pub struct ExContext(ring::digest::Context);

/// The SHA-256 digest of a byte sequence, as `ring` computes it.
pub uninterp spec fn sha256(data: Seq<u8>) -> Seq<u8>;

/// The bytes that a digest context has been fed so far, in order.
pub uninterp spec fn absorbed(ctx: ring::digest::Context) -> Seq<u8>;

/// `ring::digest::Context::new` with the SHA-256 algorithm: the new context
/// has been fed nothing.
#[verifier::external_body]
fn context_new() -> (ctx: ring::digest::Context)
    ensures
        absorbed(ctx) == Seq::<u8>::empty(),
{
    ring::digest::Context::new(&ring::digest::SHA256)
}

/// `ring::digest::Context::update`: the context has then been fed `data`
/// after all that it had been fed before. It accepts input of any length.
#[verifier::external_body]
fn context_update(ctx: &mut ring::digest::Context, data: &[u8])
    ensures
        absorbed(*final(ctx)) == absorbed(*old(ctx)) + data@,
{
    ctx.update(data)
}

/// `ring::digest::Context::finish`, the digest copied out of
/// `ring::digest::Digest::as_ref`: the SHA-256 digest of all that the context
/// was fed, 32 bytes long. `finish` panics where the input's length in bits
/// does not fit in 64 bits, so such a context is not accepted.
#[verifier::external_body]
fn context_finish(ctx: ring::digest::Context) -> (out: Vec<u8>)
    requires
        absorbed(ctx).len() < MAX_INPUT_LEN,
    ensures
        out@ == sha256(absorbed(ctx)),
        out@.len() == 32,
{
    ctx.finish().as_ref().to_vec()
}

/// All the chunks one after the other, as one byte sequence.
pub open spec fn concat_chunks(chunks: Seq<Vec<u8>>) -> Seq<u8>
    decreases chunks.len(),
{
    if chunks.len() == 0 {
        Seq::<u8>::empty()
    } else {
        concat_chunks(chunks.drop_last()) + chunks.last()@
    }
}

/// The digest of one block of bytes.
pub fn sha256_bytes(data: &Vec<u8>) -> (hash: HashValue)
    requires
        data@.len() < MAX_INPUT_LEN,
    ensures
        hash@ == sha256(data@),
        hash@.len() == 32,
{
    let mut ctx = context_new();
    context_update(&mut ctx, data.as_slice());
    assert(absorbed(ctx) =~= data@);
    HashValue(context_finish(ctx))
}

/// The digest of a stream that arrives in chunks: that of the chunks'
/// bytes in order, wherever the stream was cut.
pub fn sha256_stream(chunks: &Vec<Vec<u8>>) -> (hash: HashValue)
    requires
        concat_chunks(chunks@).len() < MAX_INPUT_LEN,
    ensures
        hash@ == sha256(concat_chunks(chunks@)),
        hash@.len() == 32,
{
    let mut ctx = context_new();
    let mut i: usize = 0;
    while i < chunks.len()
        invariant
            i <= chunks.len(),
            absorbed(ctx) == concat_chunks(chunks@.take(i as int)),
        decreases chunks.len() - i,
    {
        context_update(&mut ctx, chunks[i].as_slice());
        proof {
            let next = chunks@.take(i as int + 1);
            assert(next.drop_last() =~= chunks@.take(i as int));
            assert(next.last() == chunks@[i as int]);
        }
        i += 1;
    }
    assert(chunks@.take(i as int) =~= chunks@);
    HashValue(context_finish(ctx))
}

/// A digest computation that takes its input piece by piece, so that a
/// caller can hash a stream of any length through a buffer of fixed size.
pub struct Sha256Stream {
    ctx: ring::digest::Context,
    taken: u64,
}

impl Sha256Stream {
    /// The count of bytes taken is kept, up to the limit of one computation.
    pub closed spec fn wf(&self) -> bool {
        self.taken == if absorbed(self.ctx).len() < MAX_INPUT_LEN {
            absorbed(self.ctx).len()
        } else {
            MAX_INPUT_LEN as nat
        }
    }

    /// All the bytes taken so far, in order.
    pub closed spec fn input(&self) -> Seq<u8> {
        absorbed(self.ctx)
    }

    /// A computation that has taken nothing yet.
    pub fn new() -> (stream: Sha256Stream)
        ensures
            stream.wf(),
            stream.input() == Seq::<u8>::empty(),
    {
        Sha256Stream { ctx: context_new(), taken: 0 }
    }

    /// Takes one more piece of the input.
    pub fn update(&mut self, chunk: &[u8])
        requires
            old(self).wf(),
        ensures
            final(self).wf(),
            final(self).input() == old(self).input() + chunk@,
    {
        context_update(&mut self.ctx, chunk);
        let room: u64 = MAX_INPUT_LEN - self.taken;
        if chunk.len() as u64 >= room {
            self.taken = MAX_INPUT_LEN;
        } else {
            self.taken = self.taken + chunk.len() as u64;
        }
    }

    /// The digest of all the input taken, or nothing where the input was too
    /// long for one computation.
    pub fn finish(self) -> (r: Option<HashValue>)
        requires
            self.wf(),
        ensures
            r.is_some() <==> self.input().len() < MAX_INPUT_LEN,
            r.is_some() ==> r.unwrap()@ == sha256(self.input()) && r.unwrap()@.len() == 32,
    {
        if self.taken < MAX_INPUT_LEN {
            Some(HashValue(context_finish(self.ctx)))
        } else {
            None
        }
    }
}

} // verus!
