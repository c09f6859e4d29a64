//! Legacy message digests (MD2, MD4) behind one streaming interface.
//!
//! An engine is fed a message in any number of pieces, finalized once, and
//! then read. What each operation does is stated over the message fed so
//! far, a plain sequence of bytes, and over the digest function of the
//! algorithm, which each engine module defines from first principles.

use vstd::prelude::*;

pub mod blocks;
pub mod md2;
pub mod md4;

verus! {

/// The buffer offered to [`HashFunction::get_output`] cannot hold a digest.
#[derive(Debug, Clone, Copy, PartialEq, Eq)]
pub struct InsufficientBufferError {
    /// Bytes a digest takes.
    pub needed: usize,
    /// Bytes the buffer has.
    pub given: usize,
}

/// A streaming hash engine.
///
/// An engine holds a message: the bytes fed to it since it was made or
/// reset. `hash` fixes the digest of that message; after that the engine
/// is finalized, and the next `set_input` starts a new message.
pub trait HashFunction: Sized {
    /// The engine's fields are consistent with the message it holds; in
    /// particular the pending bytes never fill a whole block, so that
    /// finalization always has room for its padding. Every operation keeps
    /// this; a fresh engine has it.
    spec fn wf(&self) -> bool;

    /// The bytes fed since construction or since the message was started
    /// anew.
    spec fn message(&self) -> Seq<u8>;

    /// Whether `hash` has fixed the digest of the message.
    spec fn finalized(&self) -> bool;

    /// The digest bytes the engine holds now. They mean something only
    /// once the engine is finalized.
    spec fn output(&self) -> Seq<u8>;

    /// The digest function of the algorithm.
    spec fn digest(message: Seq<u8>) -> Seq<u8>;

    /// Bytes in one block of the algorithm.
    spec fn blocksize() -> nat;

    /// Bits in a digest of the algorithm.
    spec fn output_bits() -> nat;

    /// A digest has `output_bits() / 8` bytes, whatever the message.
    proof fn lemma_digest_len(message: Seq<u8>)
        ensures
            Self::output_bits() % 8 == 0,
            Self::digest(message).len() == Self::output_bits() / 8,
    ;

    /// What an engine holds in place of the digest has the length of a
    /// digest at any time.
    proof fn lemma_output_len(&self)
        ensures
            self.output().len() == Self::output_bits() / 8,
    ;

    /// A finalized engine holds the digest of its message.
    proof fn lemma_finalized_output(&self)
        requires
            self.wf(),
            self.finalized(),
        ensures
            self.output() == Self::digest(self.message()),
    ;

    /// Appends `input` to the message. On a finalized engine the message
    /// is started anew first, so that it becomes `input` alone.
    fn set_input(&mut self, input: &[u8])
        requires
            old(self).wf(),
        ensures
            final(self).wf(),
            !final(self).finalized(),
            final(self).message() == if old(self).finalized() {
                input@
            } else {
                old(self).message() + input@
            },
    ;

    /// Fixes the digest of the message. To be called once per message.
    fn hash(&mut self)
        requires
            old(self).wf(),
            !old(self).finalized(),
        ensures
            final(self).wf(),
            final(self).finalized(),
            final(self).message() == old(self).message(),
            final(self).output() == Self::digest(old(self).message()),
    ;

    /// Copies the digest to the front of `output`, which must have room
    /// for it; the bytes behind the digest stay as they are. A buffer that
    /// is too short is refused and left untouched. The engine is the same
    /// afterwards either way.
    fn get_output(&mut self, output: &mut [u8]) -> (r: Result<(), InsufficientBufferError>)
        requires
            old(self).wf(),
        ensures
            *final(self) == *old(self),
            r is Ok <==> old(output)@.len() >= Self::output_bits() / 8,
            r is Ok ==> final(output)@ == old(self).output() + old(output)@.skip(
                (Self::output_bits() / 8) as int,
            ),
            r is Err ==> final(output)@ == old(output)@,
            r is Err ==> r->Err_0 == (InsufficientBufferError {
                needed: (Self::output_bits() / 8) as usize,
                given: old(output)@.len() as usize,
            }),
    ;

    /// Bytes in one block.
    fn get_blocksize(&self) -> (r: usize)
        ensures
            r == Self::blocksize(),
    ;

    /// Bits in a digest.
    fn get_output_length_in_bits(&self) -> (r: usize)
        ensures
            r == Self::output_bits(),
    ;

    /// Bytes in a digest.
    fn get_output_length(&self) -> (r: usize)
        ensures
            r == Self::output_bits() / 8,
    {
        self.get_output_length_in_bits() / 8
    }
}

/// The message an engine holds once `chunks` have been fed to it one
/// after another, where it held `start` before.
pub open spec fn fed(start: Seq<u8>, chunks: Seq<Seq<u8>>) -> Seq<u8>
    decreases chunks.len(),
{
    if chunks.len() == 0 {
        start
    } else {
        fed(start, chunks.drop_last()) + chunks.last()
    }
}

/// Feeding in pieces is feeding the pieces joined.
pub proof fn lemma_fed_is_joined(start: Seq<u8>, chunks: Seq<Seq<u8>>)
    ensures
        fed(start, chunks) == start + chunks.flatten(),
    decreases chunks.len(),
{
    chunks.lemma_flatten_and_flatten_alt_are_equivalent();
    if chunks.len() == 0 {
        assert(start + Seq::<u8>::empty() == start);
    } else {
        let front = chunks.drop_last();
        lemma_fed_is_joined(start, front);
        front.lemma_flatten_and_flatten_alt_are_equivalent();
        assert(start + front.flatten() + chunks.last() == start + (front.flatten()
            + chunks.last()));
    }
}

/// Chunk boundaries do not matter: however a message is cut into chunks,
/// empty ones included, an engine fed the chunks in order holds the
/// message that an engine fed all of it at once holds, and so the same
/// digest comes out.
pub proof fn lemma_chunk_boundary_independence<H: HashFunction>(
    message: Seq<u8>,
    chunks: Seq<Seq<u8>>,
)
    requires
        chunks.flatten() == message,
    ensures
        fed(Seq::empty(), chunks) == fed(Seq::empty(), seq![message]),
        H::digest(fed(Seq::empty(), chunks)) == H::digest(message),
{
    lemma_fed_is_joined(Seq::empty(), chunks);
    assert(Seq::<u8>::empty() + message == message);
    assert(seq![message].drop_last() == Seq::<Seq<u8>>::empty());
    assert(fed(Seq::empty(), seq![message]) == fed(Seq::empty(), Seq::<Seq<u8>>::empty())
        + message);
}

/// The digest is a function of the message alone: two finalized engines
/// of one algorithm that hold the same message hold the same digest.
pub proof fn lemma_deterministic<H: HashFunction>(a: &H, b: &H)
    requires
        a.wf(),
        b.wf(),
        a.finalized(),
        b.finalized(),
        a.message() == b.message(),
    ensures
        a.output() == b.output(),
{
    a.lemma_finalized_output();
    b.lemma_finalized_output();
}

} // verus!
