//! Messages as sequences of blocks.
//!
//! Both engines take their input in blocks of a fixed size and keep the
//! bytes that do not fill a block yet. This module says what that comes to
//! for a message as a whole, and what happens to it when bytes are added at
//! the end.

use vstd::arithmetic::div_mod::{
    lemma_mod_decreases,
    lemma_mod_pos_bound,
    lemma_mod_self_0,
    lemma_mod_sub_multiples_vanish,
    lemma_small_mod,
};
use vstd::prelude::*;

verus! {

/// The value reached from `state` by applying `f` to every whole block of
/// `data`, first block first. A tail shorter than a block is not looked
/// at.
pub open spec fn fold_blocks<S>(
    f: spec_fn(S, Seq<u8>) -> S,
    state: S,
    size: nat,
    data: Seq<u8>,
) -> S
    recommends
        size > 0,
    decreases data.len(),
{
    if size == 0 || data.len() < size {
        state
    } else {
        fold_blocks(f, f(state, data.take(size as int)), size, data.skip(size as int))
    }
}

/// The bytes of `data` behind its last whole block.
pub open spec fn pending(size: nat, data: Seq<u8>) -> Seq<u8> {
    data.skip(data.len() - data.len() % size)
}

/// Without its first block, a message has the same bytes pending.
proof fn lemma_pending_skip(size: nat, data: Seq<u8>)
    requires
        size > 0,
        data.len() >= size,
    ensures
        data.skip(size as int).len() % size == data.len() % size,
        pending(size, data.skip(size as int)) == pending(size, data),
{
    lemma_mod_sub_multiples_vanish(data.len() as int, size as int);
    lemma_mod_pos_bound(data.len() as int, size as int);
    let rest = data.skip(size as int);
    lemma_mod_decreases(rest.len(), size);
    assert(pending(size, rest) =~= pending(size, data));
}

/// Bytes that do not complete a block change nothing but the pending
/// bytes.
pub proof fn lemma_fold_partial<S>(
    f: spec_fn(S, Seq<u8>) -> S,
    state: S,
    size: nat,
    message: Seq<u8>,
    chunk: Seq<u8>,
)
    requires
        size > 0,
        message.len() % size + chunk.len() < size,
    ensures
        fold_blocks(f, state, size, message + chunk) == fold_blocks(f, state, size, message),
        pending(size, message + chunk) == pending(size, message) + chunk,
        (message + chunk).len() % size == message.len() % size + chunk.len(),
    decreases message.len(),
{
    let longer = message + chunk;
    if message.len() < size {
        lemma_small_mod(message.len(), size);
        lemma_small_mod(longer.len(), size);
        assert(longer.skip(0) == message.skip(0) + chunk);
    } else {
        let rest = message.skip(size as int);
        lemma_pending_skip(size, message);
        lemma_pending_skip(size, longer);
        assert(longer.take(size as int) == message.take(size as int));
        assert(longer.skip(size as int) == rest + chunk);
        lemma_fold_partial(f, f(state, message.take(size as int)), size, rest, chunk);
    }
}

/// Bytes that complete a block have it folded in: the pending bytes
/// followed by the new ones. Nothing is pending afterwards.
pub proof fn lemma_fold_filled<S>(
    f: spec_fn(S, Seq<u8>) -> S,
    state: S,
    size: nat,
    message: Seq<u8>,
    chunk: Seq<u8>,
)
    requires
        size > 0,
        message.len() % size + chunk.len() == size,
    ensures
        fold_blocks(f, state, size, message + chunk) == f(
            fold_blocks(f, state, size, message),
            pending(size, message) + chunk,
        ),
        pending(size, message + chunk) == Seq::<u8>::empty(),
        (message + chunk).len() % size == 0,
    decreases message.len(),
{
    let longer = message + chunk;
    if message.len() < size {
        lemma_small_mod(message.len(), size);
        lemma_mod_self_0(size as int);
        assert(message.skip(0) == message);
        assert(longer.take(size as int) == longer);
        assert(longer.skip(size as int) == Seq::<u8>::empty());
        let next = f(state, longer);
        assert(fold_blocks(f, next, size, Seq::<u8>::empty()) == next);
    } else {
        let rest = message.skip(size as int);
        lemma_pending_skip(size, message);
        lemma_pending_skip(size, longer);
        assert(longer.take(size as int) == message.take(size as int));
        assert(longer.skip(size as int) == rest + chunk);
        lemma_fold_filled(f, f(state, message.take(size as int)), size, rest, chunk);
    }
}

} // verus!
