//! One step of the word-parallel recurrence: a block of 64 cells of one
//! column, computed from the block's cells in the column before.
use vstd::prelude::*;
use crate::bits::{bit, bit64, delta};
use crate::distance::min3;

verus! {

/// What one step of a block yields: the vertical deltas of the new column
/// (`pv`, `mv`) and the horizontal deltas between the two columns (`ph`, `mh`).
#[derive(Clone, Copy, Debug)]
pub struct BlockStep {
    pub pv: u64,
    pub mv: u64,
    pub ph: u64,
    pub mh: u64,
}

pub open spec fn low_bit(b: bool) -> u64 {
    if b {
        1
    } else {
        0
    }
}

pub open spec fn xh_word(pv: u64, eq: u64, hin_neg: bool) -> u64 {
    let e = eq | low_bit(hin_neg);
    (vstd::wrapping::u64_specs::wrapping_add(e & pv, pv) ^ pv) | e
}

pub open spec fn ph_word(pv: u64, mv: u64, eq: u64, hin_neg: bool) -> u64 {
    mv | !(xh_word(pv, eq, hin_neg) | pv)
}

pub open spec fn mh_word(pv: u64, eq: u64, hin_neg: bool) -> u64 {
    pv & xh_word(pv, eq, hin_neg)
}

pub open spec fn pv_word(pv: u64, mv: u64, eq: u64, hin_pos: bool, hin_neg: bool) -> u64 {
    let ph = (ph_word(pv, mv, eq, hin_neg) << 1) | low_bit(hin_pos);
    let mh = (mh_word(pv, eq, hin_neg) << 1) | low_bit(hin_neg);
    mh | !((eq | mv) | ph)
}

pub open spec fn mv_word(pv: u64, mv: u64, eq: u64, hin_pos: bool, hin_neg: bool) -> u64 {
    let ph = (ph_word(pv, mv, eq, hin_neg) << 1) | low_bit(hin_pos);
    ph & (eq | mv)
}

proof fn lemma_xh_bits(pv: u64, eq: u64, hin_neg: bool, r: u64, below: u64)
    by (bit_vector)
    requires
        r < 64,
        r > 0 ==> below == r - 1,
    ensures
        bit64(xh_word(pv, eq, hin_neg), r) == (bit64(eq, r) || if r == 0 {
            hin_neg
        } else {
            bit64(pv, below) && bit64(xh_word(pv, eq, hin_neg), below)
        }),
{
}

proof fn lemma_h_bits(pv: u64, mv: u64, eq: u64, hin_neg: bool, r: u64)
    by (bit_vector)
    requires
        r < 64,
    ensures
        bit64(ph_word(pv, mv, eq, hin_neg), r) == (bit64(mv, r) || !(bit64(
            xh_word(pv, eq, hin_neg),
            r,
        ) || bit64(pv, r))),
        bit64(mh_word(pv, eq, hin_neg), r) == (bit64(pv, r) && bit64(
            xh_word(pv, eq, hin_neg),
            r,
        )),
{
}

proof fn lemma_v_bits(
    pv: u64,
    mv: u64,
    eq: u64,
    hin_pos: bool,
    hin_neg: bool,
    r: u64,
    below: u64,
)
    by (bit_vector)
    requires
        r < 64,
        r > 0 ==> below == r - 1,
    ensures
        bit64(pv_word(pv, mv, eq, hin_pos, hin_neg), r) == ((if r == 0 {
            hin_neg
        } else {
            bit64(mh_word(pv, eq, hin_neg), below)
        }) || !(bit64(eq, r) || bit64(mv, r) || if r == 0 {
            hin_pos
        } else {
            bit64(ph_word(pv, mv, eq, hin_neg), below)
        })),
        bit64(mv_word(pv, mv, eq, hin_pos, hin_neg), r) == ((if r == 0 {
            hin_pos
        } else {
            bit64(ph_word(pv, mv, eq, hin_neg), below)
        }) && (bit64(eq, r) || bit64(mv, r))),
{
}

proof fn lemma_disjoint_bits(a: u64, b: u64, r: u64)
    by (bit_vector)
    requires
        r < 64,
        a & b == 0,
    ensures
        !(bit64(a, r) && bit64(b, r)),
{
}

proof fn lemma_outputs_disjoint(pv: u64, mv: u64, eq: u64, hin_pos: bool, hin_neg: bool)
    by (bit_vector)
    requires
        pv & mv == 0,
        !(hin_pos && hin_neg),
    ensures
        ph_word(pv, mv, eq, hin_neg) & mh_word(pv, eq, hin_neg) == 0,
        pv_word(pv, mv, eq, hin_pos, hin_neg) & mv_word(pv, mv, eq, hin_pos, hin_neg) == 0,
{
}

/// The cost of pairing the query symbol at position `r` of a block with the
/// target symbol of the column, read from the block's match word.
pub open spec fn bit_cost(eq: u64, r: int) -> int {
    if bit(eq, r) {
        0
    } else {
        1
    }
}

/// The horizontal delta that enters the cell at position `r`: `hin` at the
/// lowest cell, else the horizontal delta that leaves the cell below it.
pub open spec fn entering_delta(hin: int, ph: u64, mh: u64, r: int) -> int {
    if r == 0 {
        hin
    } else {
        delta(ph, mh, r - 1)
    }
}

/// Every cell of the block obeys the recurrence of the matrix, written in deltas:
/// a cell is one more than its upper or left neighbour, or its diagonal
/// neighbour plus the pairing cost, whichever is least.
#[verifier::opaque]
pub open spec fn step_obeys_recurrence(pv: u64, mv: u64, eq: u64, hin: int, out: BlockStep) -> bool {
    forall|r: int|
        0 <= r < 64 ==> {
            let dv = delta(pv, mv, r);
            let dh = entering_delta(hin, out.ph, out.mh, r);
            &&& #[trigger] delta(out.ph, out.mh, r) == min3(1, dh - dv + 1, bit_cost(eq, r) - dv)
            &&& delta(out.pv, out.mv, r) == min3(1, dv - dh + 1, bit_cost(eq, r) - dh)
        }
}

/// Advances one block by one column. `pv` and `mv` hold the vertical deltas of
/// the block in the column before, `eq` the query positions that match the
/// column's symbol, `hin` the horizontal delta just above the block.
pub fn advance_block(pv: u64, mv: u64, eq: u64, hin: i8) -> (out: BlockStep)
    requires
        pv & mv == 0,
        -1 <= hin <= 1,
    ensures
        out.pv & out.mv == 0,
        out.ph & out.mh == 0,
        step_obeys_recurrence(pv, mv, eq, hin as int, out),
{
    let hin_neg: u64 = if hin < 0 { 1 } else { 0 };
    let hin_pos: u64 = if hin > 0 { 1 } else { 0 };
    let e = eq | hin_neg;
    let xv = eq | mv;
    let xh = ((e & pv).wrapping_add(pv) ^ pv) | e;
    let ph = mv | !(xh | pv);
    let mh = pv & xh;
    let ph_in = (ph << 1) | hin_pos;
    let mh_in = (mh << 1) | hin_neg;
    let out = BlockStep { pv: mh_in | !(xv | ph_in), mv: ph_in & xv, ph, mh };
    proof {
        reveal(step_obeys_recurrence);
        let neg = hin < 0;
        let pos = hin > 0;
        assert(xh == xh_word(pv, eq, neg));
        assert(out.ph == ph_word(pv, mv, eq, neg));
        assert(out.mh == mh_word(pv, eq, neg));
        assert(out.pv == pv_word(pv, mv, eq, pos, neg));
        assert(out.mv == mv_word(pv, mv, eq, pos, neg));
        lemma_outputs_disjoint(pv, mv, eq, pos, neg);
        assert forall|r: int| 0 <= r < 64 implies {
            let dv = delta(pv, mv, r);
            let dh = entering_delta(hin as int, out.ph, out.mh, r);
            &&& #[trigger] delta(out.ph, out.mh, r) == min3(1, dh - dv + 1, bit_cost(eq, r) - dv)
            &&& delta(out.pv, out.mv, r) == min3(1, dv - dh + 1, bit_cost(eq, r) - dh)
        } by {
            let below: u64 = if r > 0 { (r - 1) as u64 } else { 0 };
            lemma_xh_bits(pv, eq, neg, r as u64, below);
            lemma_h_bits(pv, mv, eq, neg, r as u64);
            lemma_v_bits(pv, mv, eq, pos, neg, r as u64, below);
            lemma_disjoint_bits(pv, mv, r as u64);
            lemma_disjoint_bits(out.ph, out.mh, r as u64);
            if r > 0 {
                lemma_h_bits(pv, mv, eq, neg, below);
                lemma_disjoint_bits(out.ph, out.mh, below);
            }
        }
    }
    out
}

} // verus!
