//! The MD4 message digest as a streaming engine.
//!
//! The first half of this module is the mathematical definition of MD4 over
//! sequences of bytes; the second half is the engine, whose contracts are
//! stated against that definition.

use crate::blocks::{fold_blocks, lemma_fold_filled, lemma_fold_partial, pending};
use crate::{HashFunction, InsufficientBufferError};
use vstd::arithmetic::div_mod::lemma_add_mod_noop_right;
use vstd::prelude::*;

pub mod schedule;

use schedule::{shift, shift_at, word_index, word_index_at};

verus! {

/// Bitwise choice: where a bit of `x` is set the bit of `y`, elsewhere the
/// bit of `z`.
pub open spec fn select(x: u32, y: u32, z: u32) -> u32 {
    z ^ (x & (y ^ z))
}

/// Bitwise majority of the three words.
pub open spec fn majority(x: u32, y: u32, z: u32) -> u32 {
    (x & y) | (z & (x | y))
}

/// Bitwise parity of the three words.
pub open spec fn parity(x: u32, y: u32, z: u32) -> u32 {
    x ^ y ^ z
}

/// Addition modulo 2^32.
pub open spec fn add32(a: u32, b: u32) -> u32 {
    ((a + b) % 0x1_0000_0000) as u32
}

/// `x` rotated left by `s` bits, for `0 < s < 32`.
pub open spec fn rotl(x: u32, s: u32) -> u32 {
    (x << s) | (x >> ((32 - s) as u32))
}

/// Word `k` of a block: four bytes, least significant first.
pub open spec fn word(block: Seq<u8>, k: int) -> u32 {
    (block[4 * k] + 0x100 * block[4 * k + 1] + 0x1_0000 * block[4 * k + 2] + 0x100_0000 * block[4
        * k + 3]) as u32
}

/// Byte `j` of `v`, counted from the least significant.
pub open spec fn le_byte(v: u64, j: u64) -> u8 {
    ((v >> ((8 * j) as u64)) & 0xff) as u8
}

/// The four state words.
pub struct Registers {
    pub a: u32,
    pub b: u32,
    pub c: u32,
    pub d: u32,
}

/// The state words of a fresh engine.
pub open spec fn initial() -> Registers {
    Registers { a: 0x67452301, b: 0xefcdab89, c: 0x98badcfe, d: 0x10325476 }
}

/// The function that step `i` mixes the registers with: `select` in the
/// first round, `majority` in the second, `parity` in the third.
pub open spec fn round_function(i: int, x: u32, y: u32, z: u32) -> u32 {
    if i < 16 {
        select(x, y, z)
    } else if i < 32 {
        majority(x, y, z)
    } else {
        parity(x, y, z)
    }
}

/// The constant that step `i` adds: none in the first round.
pub open spec fn round_constant(i: int) -> u32 {
    if i < 16 {
        0
    } else if i < 32 {
        0x5A827999
    } else {
        0x6ED9EBA1
    }
}

/// Step `i` of the 48: `a` takes up the mix of the other three, a message
/// word and the round constant, is rotated, and the registers move on by
/// one place.
pub open spec fn step(r: Registers, block: Seq<u8>, i: int) -> Registers {
    let sum = add32(
        add32(add32(r.a, round_function(i, r.b, r.c, r.d)), word(block, word_index(i))),
        round_constant(i),
    );
    Registers { a: r.d, b: rotl(sum, shift(i)), c: r.b, d: r.c }
}

/// The first `n` steps.
pub open spec fn steps(r: Registers, block: Seq<u8>, n: nat) -> Registers
    decreases n,
{
    if n == 0 {
        r
    } else {
        step(steps(r, block, (n - 1) as nat), block, n - 1)
    }
}

/// The state words after one more 64-byte block: all 48 steps, and what
/// comes out is added to what went in.
pub open spec fn compress(r: Registers, block: Seq<u8>) -> Registers {
    let t = steps(r, block, 48);
    Registers { a: add32(r.a, t.a), b: add32(r.b, t.b), c: add32(r.c, t.c), d: add32(r.d, t.d) }
}

/// `compress` as a value, for folding.
pub open spec fn block_step() -> spec_fn(Registers, Seq<u8>) -> Registers {
    |r: Registers, block: Seq<u8>| compress(r, block)
}

/// The state words after all whole blocks of `data`, taken in order from
/// a fresh engine. A tail shorter than a block is not looked at.
pub open spec fn absorb_blocks(data: Seq<u8>) -> Registers {
    fold_blocks(block_step(), initial(), 64, data)
}

/// The length of a message of `len` bytes in bits, modulo 2^64.
pub open spec fn bit_length(len: nat) -> u64 {
    ((8 * len) % 0x1_0000_0000_0000_0000) as u64
}

/// The padding of a message of `len` bytes: the byte `0x80`, zero bytes up
/// to 56 modulo 64, and the bit length as eight bytes, least significant
/// first.
pub open spec fn padding(len: nat) -> Seq<u8> {
    let zeros = (119 - len % 64) % 64;
    seq![0x80u8] + Seq::new(zeros as nat, |i: int| 0u8) + Seq::new(
        8,
        |i: int| le_byte(bit_length(len), i as u64),
    )
}

/// The state words as 16 bytes: `a`, `b`, `c`, `d`, each least significant
/// byte first.
pub open spec fn digest_bytes(r: Registers) -> Seq<u8> {
    Seq::new(
        16,
        |i: int|
            le_byte(
                (if i < 4 {
                    r.a
                } else if i < 8 {
                    r.b
                } else if i < 12 {
                    r.c
                } else {
                    r.d
                }) as u64,
                (i % 4) as u64,
            ),
    )
}

/// The MD4 digest of `message`: pad, absorb every block, and write the
/// state words out.
pub open spec fn md4(message: Seq<u8>) -> Seq<u8> {
    digest_bytes(absorb_blocks(message + padding(message.len())))
}

/// What feeding `chunk` does when it fits into the pending block: the
/// pending bytes grow by it, and once they are a whole block the state
/// words absorb them and nothing is pending.
proof fn lemma_feed(message: Seq<u8>, chunk: Seq<u8>)
    requires
        message.len() % 64 + chunk.len() <= 64,
    ensures
        ({
            let longer = message + chunk;
            let filled = pending(64, message) + chunk;
            if filled.len() < 64 {
                &&& longer.len() % 64 == filled.len()
                &&& pending(64, longer) == filled
                &&& absorb_blocks(longer) == absorb_blocks(message)
            } else {
                &&& longer.len() % 64 == 0
                &&& pending(64, longer) == Seq::<u8>::empty()
                &&& absorb_blocks(longer) == compress(absorb_blocks(message), filled)
            }
        }),
{
    if message.len() % 64 + chunk.len() < 64 {
        lemma_fold_partial(block_step(), initial(), 64, message, chunk);
    } else {
        lemma_fold_filled(block_step(), initial(), 64, message, chunk);
    }
}

/// The bytes of the padding, one by one.
proof fn lemma_padding(len: nat)
    ensures
        ({
            let pad = padding(len);
            let c = len % 64;
            &&& pad.len() == if c < 56 {
                64 - c
            } else {
                128 - c
            }
            &&& pad[0] == 0x80
            &&& forall|j: int| 1 <= j < pad.len() - 8 ==> pad[j] == 0
            &&& forall|j: int|
                pad.len() - 8 <= j < pad.len() ==> pad[j] == le_byte(
                    bit_length(len),
                    (j - (pad.len() - 8)) as u64,
                )
        }),
{
}

/// The bytes that finalization hands to compression: what is pending,
/// then the padding. One block, or two where the pending bytes leave no
/// room for the length.
spec fn closing(message: Seq<u8>) -> Seq<u8> {
    pending(64, message) + padding(message.len())
}

/// The closing bytes one by one, and the digest in terms of them.
proof fn lemma_closing(message: Seq<u8>)
    ensures
        ({
            let s = closing(message);
            let c = message.len() % 64;
            let r = absorb_blocks(message);
            &&& s.len() == if c < 56 {
                64nat
            } else {
                128nat
            }
            &&& forall|j: int| 0 <= j < c ==> s[j] == pending(64, message)[j]
            &&& s[c as int] == 0x80
            &&& forall|j: int| c < j < s.len() - 8 ==> s[j] == 0
            &&& forall|j: int|
                s.len() - 8 <= j < s.len() ==> s[j] == le_byte(
                    bit_length(message.len()),
                    (j - (s.len() - 8)) as u64,
                )
            &&& md4(message) == digest_bytes(
                if c < 56 {
                    compress(r, s)
                } else {
                    compress(compress(r, s.take(64)), s.skip(64))
                },
            )
        }),
{
    let pad = padding(message.len());
    let s = closing(message);
    let c = message.len() % 64;
    lemma_padding(message.len());
    if c < 56 {
        lemma_feed(message, pad);
    } else {
        let head = pad.take(64 - c);
        let tail = pad.skip(64 - c);
        lemma_feed(message, head);
        lemma_feed(message + head, tail);
        assert(message + head + tail == message + pad);
        assert(s.take(64) == pending(64, message) + head);
        assert(s.skip(64) == Seq::<u8>::empty() + tail);
    }
}

/// The bit length after `n` more bytes, for the few bytes that fit into
/// a block.
proof fn lemma_bit_length_add(len: nat, n: nat)
    requires
        n <= 64,
    ensures
        bit_length(len + n) == vstd::wrapping::u64_specs::wrapping_add(
            bit_length(len),
            (8 * n) as u64,
        ),
{
    let modulus = 0x1_0000_0000_0000_0000int;
    lemma_add_mod_noop_right((8 * n) as int, (8 * len) as int, modulus);
    assert(8 * (len + n) == 8 * n + 8 * len);
}

/// Round function of the first round: bitwise choice.
pub fn f(x: u32, y: u32, z: u32) -> (r: u32)
    ensures
        r == select(x, y, z),
        r == (x & y) | (!x & z),
{
    assert(z ^ (x & (y ^ z)) == (x & y) | (!x & z)) by (bit_vector);
    z ^ (x & (y ^ z))
}

/// Round function of the second round: bitwise majority.
pub fn g(x: u32, y: u32, z: u32) -> (r: u32)
    ensures
        r == majority(x, y, z),
        r == (x & y) | (x & z) | (y & z),
{
    assert((x & y) | (z & (x | y)) == (x & y) | (x & z) | (y & z)) by (bit_vector);
    (x & y) | (z & (x | y))
}

/// Round function of the third round: bitwise parity.
pub fn h(x: u32, y: u32, z: u32) -> (r: u32)
    ensures
        r == parity(x, y, z),
{
    x ^ y ^ z
}

/// Rotates `x` left by `s` bits.
fn rotate_left(x: u32, s: u32) -> (r: u32)
    requires
        0 < s < 32,
    ensures
        r == rotl(x, s),
{
    (x << s) | (x >> (32 - s))
}

/// Adds modulo 2^32.
fn add_words(a: u32, b: u32) -> (r: u32)
    ensures
        r == add32(a, b),
{
    a.wrapping_add(b)
}

/// Reads word `k` of a block.
fn load_word(block: &[u8; 64], k: usize) -> (w: u32)
    requires
        k < 16,
    ensures
        w == word(block@, k as int),
{
    let b0: u32 = block[4 * k] as u32;
    let b1: u32 = block[4 * k + 1] as u32;
    let b2: u32 = block[4 * k + 2] as u32;
    let b3: u32 = block[4 * k + 3] as u32;
    b0 + 0x100 * b1 + 0x1_0000 * b2 + 0x100_0000 * b3
}

/// Byte `j` of `v`, counted from the least significant.
fn byte_of(v: u64, j: u64) -> (b: u8)
    requires
        j < 8,
    ensures
        b == le_byte(v, j),
{
    let shifted: u64 = v >> (8 * j);
    assert(shifted & 0xff < 0x100) by (bit_vector);
    (shifted & 0xff) as u8
}

/// State of an MD4 computation.
pub struct MD4 {
    /// The four state words.
    state: [u32; 4],
    /// Bytes waiting for a whole block, in `[0, cur_len)`.
    buffer: [u8; 64],
    /// Bits fed so far, modulo 2^64.
    len: u64,
    /// Number of bytes waiting, always below the block size.
    cur_len: usize,
    /// Whether `hash` has run on the message.
    finalized: bool,
    /// The message fed so far.
    message: Ghost<Seq<u8>>,
}

/// Compresses the pending block into the state words.
fn md4_compress(engine: &mut MD4)
    ensures
        final(engine).registers() == compress(old(engine).registers(), old(engine).buffer@),
        final(engine).buffer == old(engine).buffer,
        final(engine).len == old(engine).len,
        final(engine).cur_len == old(engine).cur_len,
        final(engine).finalized == old(engine).finalized,
        final(engine).message == old(engine).message,
{
    let mut x: [u32; 16] = [0u32; 16];
    let mut k: usize = 0;
    while k < 16
        invariant
            k <= 16,
            *engine == *old(engine),
            forall|j: int| 0 <= j < k ==> x@[j] == word(engine.buffer@, j),
        decreases 16 - k,
    {
        x[k] = load_word(&engine.buffer, k);
        k += 1;
    }

    let mut a: u32 = engine.state[0];
    let mut b: u32 = engine.state[1];
    let mut c: u32 = engine.state[2];
    let mut d: u32 = engine.state[3];
    let mut i: usize = 0;
    while i < 48
        invariant
            i <= 48,
            *engine == *old(engine),
            forall|j: int| 0 <= j < 16 ==> x@[j] == word(engine.buffer@, j),
            (Registers { a, b, c, d }) == steps(
                old(engine).registers(),
                old(engine).buffer@,
                i as nat,
            ),
        decreases 48 - i,
    {
        let mixed: u32 = if i < 16 {
            f(b, c, d)
        } else if i < 32 {
            g(b, c, d)
        } else {
            h(b, c, d)
        };
        let constant: u32 = if i < 16 {
            0
        } else if i < 32 {
            0x5A827999
        } else {
            0x6ED9EBA1
        };
        let sum: u32 = add_words(add_words(add_words(a, mixed), x[word_index_at(i)]), constant);
        let rotated: u32 = rotate_left(sum, shift_at(i));
        a = d;
        d = c;
        c = b;
        b = rotated;
        i += 1;
    }
    engine.state[0] = add_words(engine.state[0], a);
    engine.state[1] = add_words(engine.state[1], b);
    engine.state[2] = add_words(engine.state[2], c);
    engine.state[3] = add_words(engine.state[3], d);
}

impl MD4 {
    /// Creates a new MD4 instance: nothing fed, the state words at their
    /// initial values.
    pub fn new() -> (r: MD4)
        ensures
            r.wf(),
            r.fresh(),
            !r.finalized(),
            r.message() == Seq::<u8>::empty(),
    {
        let r = MD4 {
            state: [0x67452301, 0xefcdab89, 0x98badcfe, 0x10325476],
            buffer: [0u8; 64],
            len: 0,
            cur_len: 0,
            finalized: false,
            message: Ghost(Seq::empty()),
        };
        proof {
            assert(r.buffer@ == Seq::new(64, |i: int| 0u8));
            assert(r.buffer@.take(0) == pending(64, r.message@));
        }
        r
    }

    /// Puts the engine back where `new` leaves it.
    pub fn reset(&mut self)
        ensures
            final(self).wf(),
            final(self).fresh(),
            !final(self).finalized(),
            final(self).message() == Seq::<u8>::empty(),
    {
        self.state = [0x67452301, 0xefcdab89, 0x98badcfe, 0x10325476];
        self.buffer = [0u8; 64];
        self.len = 0;
        self.cur_len = 0;
        self.finalized = false;
        self.message = Ghost(Seq::empty());
        proof {
            assert(self.buffer@ == Seq::new(64, |i: int| 0u8));
            assert(self.buffer@.take(0) == pending(64, self.message@));
        }
    }

    /// The engine is as `new` makes it: the state words are at their
    /// initial values; pending block, pending length and bit count are
    /// zero.
    pub closed spec fn fresh(&self) -> bool {
        &&& self.registers() == initial()
        &&& self.buffer@ == Seq::new(64, |i: int| 0u8)
        &&& self.len == 0
        &&& self.cur_len == 0
    }

    /// The state words the engine holds.
    spec fn registers(&self) -> Registers {
        Registers { a: self.state@[0], b: self.state@[1], c: self.state@[2], d: self.state@[3] }
    }
}

impl HashFunction for MD4 {
    /// Fewer than 64 bytes are pending, and they are the end of the
    /// message; the state words are what the whole blocks before them
    /// give, and the bit count is that of the message. Once finalized, the
    /// state words written out are the digest of the message.
    closed spec fn wf(&self) -> bool {
        &&& self.cur_len < 64
        &&& self.cur_len == self.message@.len() % 64
        &&& if self.finalized {
            digest_bytes(self.registers()) == md4(self.message@)
        } else {
            &&& self.len == bit_length(self.message@.len())
            &&& self.registers() == absorb_blocks(self.message@)
            &&& self.buffer@.take(self.cur_len as int) == pending(64, self.message@)
        }
    }

    closed spec fn message(&self) -> Seq<u8> {
        self.message@
    }

    closed spec fn finalized(&self) -> bool {
        self.finalized
    }

    closed spec fn output(&self) -> Seq<u8> {
        digest_bytes(self.registers())
    }

    open spec fn digest(message: Seq<u8>) -> Seq<u8> {
        md4(message)
    }

    open spec fn blocksize() -> nat {
        64
    }

    open spec fn output_bits() -> nat {
        128
    }

    proof fn lemma_digest_len(message: Seq<u8>) {
    }

    proof fn lemma_output_len(&self) {
    }

    proof fn lemma_finalized_output(&self) {
    }

    fn set_input(&mut self, input: &[u8]) {
        if self.finalized {
            self.reset();
        }
        let ghost base = self.message@;
        let mut index: usize = 0;
        let mut in_len: usize = input.len();
        while in_len > 0
            invariant
                index + in_len == input@.len(),
                input@.len() <= usize::MAX,
                self.wf(),
                !self.finalized,
                self.message@ == base + input@.take(index as int),
            decreases in_len,
        {
            let room: usize = 64 - self.cur_len;
            let n: usize = if in_len < room {
                in_len
            } else {
                room
            };
            let ghost before = *self;
            let mut i: usize = 0;
            while i < n
                invariant
                    i <= n,
                    index + n <= input@.len(),
                    before.cur_len + n <= 64,
                    self.cur_len == before.cur_len,
                    self.state == before.state,
                    self.len == before.len,
                    self.finalized == before.finalized,
                    self.message == before.message,
                    forall|j: int| 0 <= j < before.cur_len ==> self.buffer@[j] == before.buffer@[j],
                    forall|j: int|
                        before.cur_len <= j < before.cur_len + i ==> self.buffer@[j] == input@[index
                            + j - before.cur_len],
                decreases n - i,
            {
                self.buffer[self.cur_len + i] = input[index + i];
                i += 1;
            }
            let ghost chunk = input@.subrange(index as int, index + n);
            let ghost longer = before.message@ + chunk;
            proof {
                let filled = before.buffer@.take(before.cur_len as int) + chunk;
                assert(self.buffer@.take(before.cur_len + n) == filled);
                assert(base + input@.take(index as int) + chunk == base + input@.take(index + n));
                lemma_feed(before.message@, chunk);
                lemma_bit_length_add(before.message@.len(), n as nat);
            }
            self.cur_len += n;
            index += n;
            in_len -= n;
            self.len = self.len.wrapping_add(8 * (n as u64));
            self.message = Ghost(longer);
            if self.cur_len == 64 {
                assert(self.buffer@.take(64) == self.buffer@);
                md4_compress(self);
                self.cur_len = 0;
                assert(self.buffer@.take(0) == Seq::<u8>::empty());
            }
        }
        assert(input@.take(index as int) == input@);
    }

    #[verifier::loop_isolation(false)]
    fn hash(&mut self) {
        let bits: u64 = self.len;
        let ghost m = self.message@;
        let ghost c = self.cur_len as int;
        let ghost s = closing(m);
        let ghost offset: int = if c < 56 {
            0
        } else {
            64
        };
        let ghost r = if c < 56 {
            absorb_blocks(m)
        } else {
            compress(absorb_blocks(m), s.take(64))
        };
        proof {
            lemma_closing(m);
        }
        self.buffer[self.cur_len] = 0x80;
        let mut i: usize = self.cur_len + 1;
        if i > 56 {
            while i < 64
                invariant
                    c < i <= 64,
                    self.cur_len == c,
                    self.state == old(self).state,
                    self.message@ == m,
                    !self.finalized,
                    forall|j: int| 0 <= j < i ==> self.buffer@[j] == s[j],
                decreases 64 - i,
            {
                self.buffer[i] = 0;
                i += 1;
            }
            assert(self.buffer@ == s.take(64));
            md4_compress(self);
            i = 0;
        }
        while i < 56
            invariant
                i <= 56,
                offset == 0 ==> c < i,
                self.cur_len == c,
                self.registers() == r,
                self.message@ == m,
                !self.finalized,
                forall|j: int| 0 <= j < i ==> self.buffer@[j] == s[offset + j],
            decreases 56 - i,
        {
            self.buffer[i] = 0;
            i += 1;
        }
        let mut j: usize = 0;
        while j < 8
            invariant
                j <= 8,
                self.cur_len == c,
                self.registers() == r,
                self.message@ == m,
                !self.finalized,
                forall|l: int| 0 <= l < 56 + j ==> self.buffer@[l] == s[offset + l],
            decreases 8 - j,
        {
            self.buffer[56 + j] = byte_of(bits, j as u64);
            j += 1;
        }
        assert(self.buffer@ == s.skip(offset));
        assert(s.skip(0) == s);
        md4_compress(self);
        self.finalized = true;
    }

    fn get_output(&mut self, output: &mut [u8]) -> (r: Result<(), InsufficientBufferError>) {
        if output.len() < 16 {
            return Err(InsufficientBufferError { needed: 16, given: output.len() });
        }
        let ghost digest = digest_bytes(self.registers());
        let mut i: usize = 0;
        while i < 16
            invariant
                i <= 16,
                *self == *old(self),
                output@.len() == old(output)@.len(),
                output@.len() >= 16,
                digest == digest_bytes(self.registers()),
                forall|j: int| 0 <= j < i ==> output@[j] == digest[j],
                forall|j: int| i <= j < output@.len() ==> output@[j] == old(output)@[j],
            decreases 16 - i,
        {
            output[i] = byte_of(self.state[i / 4] as u64, (i % 4) as u64);
            i += 1;
        }
        assert(output@ == digest + old(output)@.skip(16));
        Ok(())
    }

    fn get_blocksize(&self) -> (r: usize) {
        64
    }

    fn get_output_length_in_bits(&self) -> (r: usize) {
        128
    }
}

} // verus!
