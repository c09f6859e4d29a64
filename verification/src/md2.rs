//! The MD2 message digest as a streaming engine.
//!
//! The first half of this module is the mathematical definition of MD2 over
//! sequences of bytes; the second half is the engine, whose contracts are
//! stated against that definition.

use crate::blocks::{fold_blocks, lemma_fold_filled, lemma_fold_partial, pending};
use crate::{HashFunction, InsufficientBufferError};
use vstd::prelude::*;

pub mod sbox;

use sbox::{sbox, substitute};

verus! {

/// The transformation buffer once `block` has been loaded into it: the
/// running hash stays in `[0, 16)`, the block goes to `[16, 32)`, and
/// `[32, 48)` holds the exclusive-or of the two.
pub open spec fn load_block(x: Seq<u8>, block: Seq<u8>) -> Seq<u8> {
    Seq::new(
        48,
        |i: int|
            if i < 16 {
                x[i]
            } else if i < 32 {
                block[i - 16]
            } else {
                x[i - 32] ^ block[i - 32]
            },
    )
}

/// One mixing round cut off after its first `n` bytes. Byte `i` becomes
/// `x[i] ^ S[t]`, where `t` is the byte written just before it (`t` itself
/// for the first byte). Yields the buffer and the last byte written.
pub open spec fn mix_bytes(x: Seq<u8>, t: u8, n: nat) -> (Seq<u8>, u8)
    decreases n,
{
    if n == 0 {
        (x, t)
    } else {
        let prev = mix_bytes(x, t, (n - 1) as nat);
        let b = prev.0[n - 1] ^ sbox(prev.1);
        (prev.0.update(n - 1, b), b)
    }
}

/// The first `r` mixing rounds. Round `j` (counted from zero) runs over all
/// 48 bytes and then hands `(t + j) mod 256` to the next round; the first
/// round starts from `t = 0`.
pub open spec fn mix_rounds(x: Seq<u8>, r: nat) -> (Seq<u8>, u8)
    decreases r,
{
    if r == 0 {
        (x, 0u8)
    } else {
        let prev = mix_rounds(x, (r - 1) as nat);
        let round = mix_bytes(prev.0, prev.1, 48);
        (round.0, ((round.1 + (r - 1)) % 256) as u8)
    }
}

/// The MD2 transformation: what the 48-byte buffer `x` becomes when the
/// 16-byte `block` is compressed into it.
pub open spec fn compress(x: Seq<u8>, block: Seq<u8>) -> Seq<u8> {
    mix_rounds(load_block(x, block), 18).0
}

/// The checksum after the first `n` bytes of `block` went into it:
/// `c[i] ^= S[block[i] ^ l]`, where `l` is the checksum byte written just
/// before (`c[15]` of the incoming checksum for the first byte). The block
/// byte is combined with `l` before the table is consulted.
pub open spec fn checksum_bytes(c: Seq<u8>, block: Seq<u8>, n: nat) -> Seq<u8>
    decreases n,
{
    if n == 0 {
        c
    } else {
        let prev = checksum_bytes(c, block, (n - 1) as nat);
        let l = if n == 1 {
            c[15]
        } else {
            prev[n - 2]
        };
        prev.update(n - 1, prev[n - 1] ^ sbox(block[n - 1] ^ l))
    }
}

/// The 16-byte checksum `c` after `block` went into it.
pub open spec fn update_checksum(c: Seq<u8>, block: Seq<u8>) -> Seq<u8> {
    checksum_bytes(c, block, 16)
}

/// The part of the engine that block processing changes.
pub struct Chaining {
    /// The 48-byte transformation buffer.
    pub x: Seq<u8>,
    /// The 16-byte checksum.
    pub checksum: Seq<u8>,
}

/// The chaining value of a fresh engine: all zero.
pub open spec fn initial() -> Chaining {
    Chaining { x: Seq::new(48, |i: int| 0u8), checksum: Seq::new(16, |i: int| 0u8) }
}

/// The chaining value after one more block: the block is compressed into
/// the buffer and goes into the checksum.
pub open spec fn absorb_block(s: Chaining, block: Seq<u8>) -> Chaining {
    Chaining { x: compress(s.x, block), checksum: update_checksum(s.checksum, block) }
}

/// `absorb_block` as a value, for folding.
pub open spec fn block_step() -> spec_fn(Chaining, Seq<u8>) -> Chaining {
    |s: Chaining, block: Seq<u8>| absorb_block(s, block)
}

/// The chaining value after all whole blocks of `data`, taken in order
/// from a fresh engine. A tail shorter than a block is not looked at.
pub open spec fn absorb_blocks(data: Seq<u8>) -> Chaining {
    fold_blocks(block_step(), initial(), 16, data)
}

/// The padding of a message of `len` bytes: `k` bytes of value `k`, where
/// `k` in `[1, 16]` brings the length to a multiple of 16.
pub open spec fn padding(len: nat) -> Seq<u8> {
    let k = 16 - len % 16;
    Seq::new(k as nat, |i: int| k as u8)
}

/// The MD2 digest of `message`: pad, absorb every block, compress the
/// checksum as one more block (which does not go into the checksum), and
/// take the first 16 bytes of the buffer.
pub open spec fn md2(message: Seq<u8>) -> Seq<u8> {
    let s = absorb_blocks(message + padding(message.len()));
    compress(s.x, s.checksum).take(16)
}

/// What feeding `chunk` does when it fits into the pending block: the
/// pending bytes grow by it, and once they are a whole block the chaining
/// value absorbs them and nothing is pending.
proof fn lemma_feed(message: Seq<u8>, chunk: Seq<u8>)
    requires
        message.len() % 16 + chunk.len() <= 16,
    ensures
        ({
            let longer = message + chunk;
            let filled = pending(16, message) + chunk;
            if filled.len() < 16 {
                &&& longer.len() % 16 == filled.len()
                &&& pending(16, longer) == filled
                &&& absorb_blocks(longer) == absorb_blocks(message)
            } else {
                &&& longer.len() % 16 == 0
                &&& pending(16, longer) == Seq::<u8>::empty()
                &&& absorb_blocks(longer) == absorb_block(absorb_blocks(message), filled)
            }
        }),
{
    if message.len() % 16 + chunk.len() < 16 {
        lemma_fold_partial(block_step(), initial(), 16, message, chunk);
    } else {
        lemma_fold_filled(block_step(), initial(), 16, message, chunk);
    }
}

/// State of an MD2 computation.
pub struct MD2 {
    /// Running checksum over the blocks absorbed so far.
    check_sum: [u8; 16],
    /// Transformation buffer; its first 16 bytes are the running hash.
    x: [u8; 48],
    /// Bytes waiting for a whole block, in `[0, cur_len)`.
    buffer: [u8; 16],
    /// Number of bytes waiting, always below the block size.
    cur_len: usize,
    /// Whether `hash` has run on the message.
    finalized: bool,
    /// The message fed so far.
    message: Ghost<Seq<u8>>,
}

/// Compresses the pending block into the transformation buffer.
fn md2_compress(state: &mut MD2)
    ensures
        final(state).x@ == compress(old(state).x@, old(state).buffer@),
        final(state).check_sum == old(state).check_sum,
        final(state).buffer == old(state).buffer,
        final(state).cur_len == old(state).cur_len,
        final(state).finalized == old(state).finalized,
        final(state).message == old(state).message,
{
    let mut i: usize = 0;
    while i < 16
        invariant
            i <= 16,
            state.check_sum == old(state).check_sum,
            state.buffer == old(state).buffer,
            state.cur_len == old(state).cur_len,
            state.finalized == old(state).finalized,
            state.message == old(state).message,
            forall|j: int| 0 <= j < 16 ==> state.x@[j] == old(state).x@[j],
            forall|j: int| 16 <= j < 16 + i ==> state.x@[j] == old(state).buffer@[j - 16],
            forall|j: int|
                32 <= j < 32 + i ==> state.x@[j] == old(state).x@[j - 32] ^ old(state).buffer@[j
                    - 32],
        decreases 16 - i,
    {
        state.x[16 + i] = state.buffer[i];
        state.x[32 + i] = state.x[i] ^ state.x[16 + i];
        i += 1;
    }
    let ghost loaded = load_block(old(state).x@, old(state).buffer@);
    assert(state.x@ == loaded);

    let mut t: u8 = 0;
    let mut round: u8 = 0;
    while round < 18
        invariant
            round <= 18,
            state.check_sum == old(state).check_sum,
            state.buffer == old(state).buffer,
            state.cur_len == old(state).cur_len,
            state.finalized == old(state).finalized,
            state.message == old(state).message,
            (state.x@, t) == mix_rounds(loaded, round as nat),
        decreases 18 - round,
    {
        let ghost start = state.x@;
        let ghost t0 = t;
        let mut i: usize = 0;
        while i < 48
            invariant
                i <= 48,
                state.check_sum == old(state).check_sum,
                state.buffer == old(state).buffer,
                state.cur_len == old(state).cur_len,
                state.finalized == old(state).finalized,
                state.message == old(state).message,
                (state.x@, t) == mix_bytes(start, t0, i as nat),
            decreases 48 - i,
        {
            state.x[i] = state.x[i] ^ substitute(t);
            t = state.x[i];
            i += 1;
        }
        t = t.wrapping_add(round);
        round += 1;
    }
}

/// Takes the pending block into the checksum.
fn md2_update_checksum(state: &mut MD2)
    ensures
        final(state).check_sum@ == update_checksum(old(state).check_sum@, old(state).buffer@),
        final(state).x == old(state).x,
        final(state).buffer == old(state).buffer,
        final(state).cur_len == old(state).cur_len,
        final(state).finalized == old(state).finalized,
        final(state).message == old(state).message,
{
    let mut l: u8 = state.check_sum[15];
    let mut i: usize = 0;
    while i < 16
        invariant
            i <= 16,
            state.x == old(state).x,
            state.buffer == old(state).buffer,
            state.cur_len == old(state).cur_len,
            state.finalized == old(state).finalized,
            state.message == old(state).message,
            state.check_sum@ == checksum_bytes(old(state).check_sum@, old(state).buffer@, i as nat),
            l == if i == 0 {
                old(state).check_sum@[15]
            } else {
                state.check_sum@[i - 1]
            },
        decreases 16 - i,
    {
        state.check_sum[i] = state.check_sum[i] ^ substitute(state.buffer[i] ^ l);
        l = state.check_sum[i];
        i += 1;
    }
}

impl MD2 {
    /// A fresh engine: nothing fed, everything zero.
    pub fn new() -> (r: MD2)
        ensures
            r.wf(),
            r.fresh(),
            !r.finalized(),
            r.message() == Seq::<u8>::empty(),
    {
        let r = MD2 {
            check_sum: [0u8; 16],
            x: [0u8; 48],
            buffer: [0u8; 16],
            cur_len: 0,
            finalized: false,
            message: Ghost(Seq::empty()),
        };
        proof {
            assert(r.check_sum@ == Seq::new(16, |i: int| 0u8));
            assert(r.x@ == Seq::new(48, |i: int| 0u8));
            assert(r.buffer@ == Seq::new(16, |i: int| 0u8));
            assert(r.buffer@.take(0) == pending(16, r.message@));
        }
        r
    }

    /// Puts the engine back where `new` leaves it.
    pub fn reset(&mut self)
        ensures
            final(self).wf(),
            final(self).fresh(),
            !final(self).finalized(),
            final(self).message() == Seq::<u8>::empty(),
    {
        self.check_sum = [0u8; 16];
        self.x = [0u8; 48];
        self.buffer = [0u8; 16];
        self.cur_len = 0;
        self.finalized = false;
        self.message = Ghost(Seq::empty());
        proof {
            assert(self.check_sum@ == Seq::new(16, |i: int| 0u8));
            assert(self.x@ == Seq::new(48, |i: int| 0u8));
            assert(self.buffer@ == Seq::new(16, |i: int| 0u8));
            assert(self.buffer@.take(0) == pending(16, self.message@));
        }
    }

    /// The engine is as `new` makes it: checksum, transformation buffer,
    /// pending block and pending length are all zero.
    pub closed spec fn fresh(&self) -> bool {
        &&& self.check_sum@ == Seq::new(16, |i: int| 0u8)
        &&& self.x@ == Seq::new(48, |i: int| 0u8)
        &&& self.buffer@ == Seq::new(16, |i: int| 0u8)
        &&& self.cur_len == 0
    }

    /// The chaining value the engine holds.
    spec fn chaining(&self) -> Chaining {
        Chaining { x: self.x@, checksum: self.check_sum@ }
    }
}

impl HashFunction for MD2 {
    /// Fewer than 16 bytes are pending, and they are the end of the
    /// message; checksum and transformation buffer are what the whole
    /// blocks before them give. Once finalized, the front of the
    /// transformation buffer is the digest of the message.
    closed spec fn wf(&self) -> bool {
        &&& self.cur_len < 16
        &&& self.cur_len == self.message@.len() % 16
        &&& if self.finalized {
            self.x@.take(16) == md2(self.message@)
        } else {
            &&& self.chaining() == absorb_blocks(self.message@)
            &&& self.buffer@.take(self.cur_len as int) == pending(16, self.message@)
        }
    }

    closed spec fn message(&self) -> Seq<u8> {
        self.message@
    }

    closed spec fn finalized(&self) -> bool {
        self.finalized
    }

    closed spec fn output(&self) -> Seq<u8> {
        self.x@.take(16)
    }

    open spec fn digest(message: Seq<u8>) -> Seq<u8> {
        md2(message)
    }

    open spec fn blocksize() -> nat {
        16
    }

    open spec fn output_bits() -> nat {
        128
    }

    proof fn lemma_digest_len(message: Seq<u8>) {
        let s = absorb_blocks(message + padding(message.len()));
        lemma_compress_len(s.x, s.checksum);
    }

    proof fn lemma_output_len(&self) {
    }

    proof fn lemma_finalized_output(&self) {
    }

    fn set_input(&mut self, input: &[u8]) {
        if self.finalized {
            self.reset();
        }
        let ghost base = self.message@;
        let mut index: usize = 0;
        let mut in_len: usize = input.len();
        while in_len > 0
            invariant
                index + in_len == input@.len(),
                input@.len() <= usize::MAX,
                self.wf(),
                !self.finalized,
                self.message@ == base + input@.take(index as int),
            decreases in_len,
        {
            let room: usize = 16 - self.cur_len;
            let n: usize = if in_len < room {
                in_len
            } else {
                room
            };
            let ghost before = *self;
            let mut i: usize = 0;
            while i < n
                invariant
                    i <= n,
                    index + n <= input@.len(),
                    before.cur_len + n <= 16,
                    self.cur_len == before.cur_len,
                    self.check_sum == before.check_sum,
                    self.x == before.x,
                    self.finalized == before.finalized,
                    self.message == before.message,
                    forall|j: int| 0 <= j < before.cur_len ==> self.buffer@[j] == before.buffer@[j],
                    forall|j: int|
                        before.cur_len <= j < before.cur_len + i ==> self.buffer@[j] == input@[index
                            + j - before.cur_len],
                decreases n - i,
            {
                self.buffer[self.cur_len + i] = input[index + i];
                i += 1;
            }
            let ghost chunk = input@.subrange(index as int, index + n);
            let ghost longer = before.message@ + chunk;
            proof {
                let filled = before.buffer@.take(before.cur_len as int) + chunk;
                assert(self.buffer@.take(before.cur_len + n) == filled);
                assert(base + input@.take(index as int) + chunk == base + input@.take(index + n));
                lemma_feed(before.message@, chunk);
            }
            self.cur_len += n;
            index += n;
            in_len -= n;
            self.message = Ghost(longer);
            if self.cur_len == 16 {
                assert(self.buffer@.take(16) == self.buffer@);
                md2_compress(self);
                md2_update_checksum(self);
                self.cur_len = 0;
                assert(self.buffer@.take(0) == Seq::<u8>::empty());
            }
        }
        assert(input@.take(index as int) == input@);
    }

    fn hash(&mut self) {
        let k: u8 = (16 - self.cur_len) as u8;
        let ghost before = *self;
        let mut i: usize = self.cur_len;
        while i < 16
            invariant
                before.cur_len <= i <= 16,
                k == 16 - before.cur_len,
                self.cur_len == before.cur_len,
                self.check_sum == before.check_sum,
                self.x == before.x,
                self.finalized == before.finalized,
                self.message == before.message,
                forall|j: int| 0 <= j < before.cur_len ==> self.buffer@[j] == before.buffer@[j],
                forall|j: int| before.cur_len <= j < i ==> self.buffer@[j] == k,
            decreases 16 - i,
        {
            self.buffer[i] = k;
            i += 1;
        }
        let ghost padded = before.message@ + padding(before.message@.len());
        proof {
            let m = before.message@;
            assert(self.buffer@ == pending(16, m) + padding(m.len()));
            lemma_feed(m, padding(m.len()));
        }
        md2_compress(self);
        md2_update_checksum(self);

        let mut i: usize = 0;
        while i < 16
            invariant
                i <= 16,
                self.cur_len == before.cur_len,
                self.x@ == absorb_blocks(padded).x,
                self.check_sum@ == absorb_blocks(padded).checksum,
                self.message == before.message,
                forall|j: int| 0 <= j < i ==> self.buffer@[j] == self.check_sum@[j],
            decreases 16 - i,
        {
            self.buffer[i] = self.check_sum[i];
            i += 1;
        }
        assert(self.buffer@ == self.check_sum@);
        md2_compress(self);
        self.finalized = true;
    }

    fn get_output(&mut self, output: &mut [u8]) -> (r: Result<(), InsufficientBufferError>) {
        if output.len() < 16 {
            return Err(InsufficientBufferError { needed: 16, given: output.len() });
        }
        let mut i: usize = 0;
        while i < 16
            invariant
                i <= 16,
                *self == *old(self),
                output@.len() == old(output)@.len(),
                output@.len() >= 16,
                forall|j: int| 0 <= j < i ==> output@[j] == self.x@[j],
                forall|j: int| i <= j < output@.len() ==> output@[j] == old(output)@[j],
            decreases 16 - i,
        {
            output[i] = self.x[i];
            i += 1;
        }
        assert(output@ == self.x@.take(16) + old(output)@.skip(16));
        Ok(())
    }

    fn get_blocksize(&self) -> (r: usize) {
        16
    }

    fn get_output_length_in_bits(&self) -> (r: usize) {
        128
    }
}

/// Compression keeps the buffer at 48 bytes.
proof fn lemma_compress_len(x: Seq<u8>, block: Seq<u8>)
    ensures
        compress(x, block).len() == 48,
{
    lemma_mix_rounds_len(load_block(x, block), 18);
}

proof fn lemma_mix_bytes_len(x: Seq<u8>, t: u8, n: nat)
    requires
        n <= x.len(),
    ensures
        mix_bytes(x, t, n).0.len() == x.len(),
    decreases n,
{
    if n > 0 {
        lemma_mix_bytes_len(x, t, (n - 1) as nat);
    }
}

proof fn lemma_mix_rounds_len(x: Seq<u8>, r: nat)
    requires
        x.len() == 48,
    ensures
        mix_rounds(x, r).0.len() == x.len(),
    decreases r,
{
    if r > 0 {
        lemma_mix_rounds_len(x, (r - 1) as nat);
        let prev = mix_rounds(x, (r - 1) as nat);
        lemma_mix_bytes_len(prev.0, prev.1, 48);
    }
}

} // verus!
