//! Single bits of a machine word, and pairs of words that hold one delta of
//! -1, 0 or +1 at each bit position.
use vstd::prelude::*;

verus! {

/// The number of bits of a word, and so of query symbols in a block.
pub const WORD_SIZE: usize = 64;

pub open spec fn bit64(w: u64, r: u64) -> bool {
    (w >> r) & 1 == 1
}

/// Whether bit `r` of `w` is set; bit 0 is the lowest.
pub open spec fn bit(w: u64, r: int) -> bool {
    0 <= r < 64 && bit64(w, r as u64)
}

/// The delta that the pair `(p, m)` holds at position `r`: +1 where `p` has
/// the bit, -1 where only `m` has it, else 0.
pub open spec fn delta(p: u64, m: u64, r: int) -> int {
    if bit(p, r) {
        1
    } else if bit(m, r) {
        -1
    } else {
        0
    }
}

pub proof fn lemma_bit_of_small(r: u64)
    by (bit_vector)
    requires
        r < 64,
    ensures
        !bit64(0, r),
        bit64(0xffff_ffff_ffff_ffff, r),
        bit64(1, r) == (r == 0),
{
}

pub proof fn lemma_bit_set(w: u64, r: u64, x: u64)
    by (bit_vector)
    requires
        r < 64,
        x < 64,
    ensures
        bit64(w | (1u64 << r), x) == (bit64(w, x) || x == r),
{
}

/// Reads bit `r` of `w`.
pub fn test_bit(w: u64, r: usize) -> (b: bool)
    requires
        r < 64,
    ensures
        b == bit(w, r as int),
{
    (w >> (r as u64)) & 1 == 1
}

/// `w` with bit `r` set and every other bit as it was.
pub fn with_bit(w: u64, r: usize) -> (v: u64)
    requires
        r < 64,
    ensures
        forall|x: int| #[trigger] bit(v, x) == (bit(w, x) || x == r),
{
    let v = w | (1u64 << (r as u64));
    assert forall|x: int| #[trigger] bit(v, x) == (bit(w, x) || x == r) by {
        if 0 <= x < 64 {
            lemma_bit_set(w, r as u64, x as u64);
        }
    }
    v
}

} // verus!
