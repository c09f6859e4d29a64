//! The MD4 step schedule: which message word goes into each of the 48
//! steps, and by how much the step rotates.

use vstd::prelude::*;

verus! {

/// The message word that each step takes. The first round takes the words
/// in order, the second column by column, the third in bit-reversed order.
pub const MD4_WORD_ORDER: [usize; 48] = [
    0, 1, 2, 3, 4, 5, 6, 7, 8, 9, 10, 11, 12, 13, 14, 15,
    0, 4, 8, 12, 1, 5, 9, 13, 2, 6, 10, 14, 3, 7, 11, 15,
    0, 8, 4, 12, 2, 10, 6, 14, 1, 9, 5, 13, 3, 11, 7, 15,
];

/// The left rotation of each step.
pub const MD4_SHIFTS: [u32; 48] = [
    3, 7, 11, 19, 3, 7, 11, 19, 3, 7, 11, 19, 3, 7, 11, 19,
    3, 5, 9, 13, 3, 5, 9, 13, 3, 5, 9, 13, 3, 5, 9, 13,
    3, 9, 11, 15, 3, 9, 11, 15, 3, 9, 11, 15, 3, 9, 11, 15,
];

/// The message word of step `i`.
///
/// The body is kept inside this module, so that proofs about the engine
/// do not carry the tables along; [`lemma_schedule`] hands it out.
pub closed spec fn word_index(i: int) -> int {
    MD4_WORD_ORDER[i] as int
}

/// The rotation of step `i`.
pub closed spec fn shift(i: int) -> u32 {
    MD4_SHIFTS[i]
}

/// The schedule is the two tables; every word index is one of the 16
/// words, and every rotation is a proper one.
pub proof fn lemma_schedule(i: int)
    requires
        0 <= i < 48,
    ensures
        word_index(i) == MD4_WORD_ORDER[i],
        shift(i) == MD4_SHIFTS[i],
        0 <= word_index(i) < 16,
        0 < shift(i) < 32,
{
}

/// Looks up the message word of step `i`.
pub fn word_index_at(i: usize) -> (k: usize)
    requires
        i < 48,
    ensures
        k == word_index(i as int),
        k < 16,
{
    MD4_WORD_ORDER[i]
}

/// Looks up the rotation of step `i`.
pub fn shift_at(i: usize) -> (s: u32)
    requires
        i < 48,
    ensures
        s == shift(i as int),
        0 < s < 32,
{
    MD4_SHIFTS[i]
}

} // verus!
