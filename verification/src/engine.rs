//! The engine: the last row of the banded matrix, column by column, each
//! column computed block by block with word operations.
use vstd::prelude::*;
use crate::alphabet::Alphabet;
use crate::band::{
    banded_cell, block_count, capped, first_block, last_block, lemma_above_band,
    lemma_banded_bounds, lemma_banded_capped, lemma_below_band, lemma_first_column,
    lemma_inside_band,
};
use crate::distance::{lemma_cell_borders, min2};
use crate::bits::{bit, delta, lemma_bit_of_small, test_bit};
use crate::bitvector::{
    advance_block, bit_cost, entering_delta, step_obeys_recurrence, BlockStep,
};
use crate::distance::{cell, min3};
use crate::edlib::MAX_SEQUENCE_LENGTH;
use crate::profile::{matches_at, QueryProfile};

verus! {

/// What the cell in row `i` adds to the cell above it.
pub open spec fn vertical_delta(
    q: Seq<u8>,
    t: Seq<u8>,
    eqs: Seq<(u8, u8)>,
    free_start: bool,
    k: int,
    i: int,
    j: int,
) -> int {
    banded_cell(q, t, eqs, free_start, k, i, j) - banded_cell(q, t, eqs, free_start, k, i - 1, j)
}

/// What the cell in column `j` adds to the cell left of it.
pub open spec fn horizontal_delta(
    q: Seq<u8>,
    t: Seq<u8>,
    eqs: Seq<(u8, u8)>,
    free_start: bool,
    k: int,
    i: int,
    j: int,
) -> int {
    banded_cell(q, t, eqs, free_start, k, i, j) - banded_cell(q, t, eqs, free_start, k, i, j - 1)
}

/// Whether two words share no bit.
pub open spec fn disjoint(p: u64, m: u64) -> bool {
    p & m == 0
}

/// Whether the pair of words holds the vertical deltas of block `b` in column `j`.
pub open spec fn block_holds_column(
    p: u64,
    m: u64,
    q: Seq<u8>,
    t: Seq<u8>,
    eqs: Seq<(u8, u8)>,
    free_start: bool,
    k: int,
    b: int,
    j: int,
) -> bool {
    forall|r: int|
        0 <= r < 64 && 64 * b + r < q.len() ==> #[trigger] delta(p, m, r) == vertical_delta(
            q,
            t,
            eqs,
            free_start,
            k,
            64 * b + r + 1,
            j,
        )
}

/// Whether the blocks from `from` up to `to` hold the vertical deltas of column `j`.
pub open spec fn blocks_hold_column(
    pv: Seq<u64>,
    mv: Seq<u64>,
    q: Seq<u8>,
    t: Seq<u8>,
    eqs: Seq<(u8, u8)>,
    free_start: bool,
    k: int,
    j: int,
    from: int,
    to: int,
) -> bool {
    forall|b: int|
        from <= b < to ==> #[trigger] block_holds_column(
            pv[b],
            mv[b],
            q,
            t,
            eqs,
            free_start,
            k,
            b,
            j,
        )
}

pub open spec fn all_disjoint(pv: Seq<u64>, mv: Seq<u64>) -> bool {
    forall|b: int| 0 <= b < pv.len() ==> #[trigger] disjoint(pv[b], mv[b])
}

/// One step of a block whose cells obey the recurrence computes the cells of
/// the new column: `prev` and `cur` are the cells of the two columns, from
/// the row just above the block on.
proof fn lemma_block_columns(
    pv: u64,
    mv: u64,
    eq: u64,
    hin: int,
    out: BlockStep,
    prev: Seq<int>,
    cur: Seq<int>,
    rows: int,
)
    requires
        0 <= rows <= 64,
        prev.len() > rows,
        cur.len() > rows,
        step_obeys_recurrence(pv, mv, eq, hin, out),
        hin == cur[0] - prev[0],
        forall|r: int| 0 <= r < rows ==> #[trigger] delta(pv, mv, r) == prev[r + 1] - prev[r],
        forall|x: int|
            1 <= x <= rows ==> #[trigger] cur[x] == min3(
                cur[x - 1] + 1,
                prev[x] + 1,
                prev[x - 1] + bit_cost(eq, x - 1),
            ),
    ensures
        forall|r: int|
            0 <= r < rows ==> #[trigger] delta(out.ph, out.mh, r) == cur[r + 1] - prev[r + 1],
        forall|r: int| 0 <= r < rows ==> #[trigger] delta(out.pv, out.mv, r) == cur[r + 1] - cur[r],
    decreases rows,
{
    reveal(step_obeys_recurrence);
    if rows > 0 {
        lemma_block_columns(pv, mv, eq, hin, out, prev, cur, rows - 1);
        let r = rows - 1;
        let dv = delta(pv, mv, r);
        let dh = entering_delta(hin, out.ph, out.mh, r);
        assert(dv == prev[r + 1] - prev[r]);
        assert(dh == cur[r] - prev[r]) by {
            if r > 0 {
                assert(delta(out.ph, out.mh, r - 1) == cur[r] - prev[r]);
            }
        }
        assert(cur[r + 1] == min3(cur[r] + 1, prev[r + 1] + 1, prev[r] + bit_cost(eq, r)));
        assert(delta(out.ph, out.mh, r) == min3(1, dh - dv + 1, bit_cost(eq, r) - dv));
        assert(delta(out.pv, out.mv, r) == min3(1, dv - dh + 1, bit_cost(eq, r) - dh));
    }
}

/// One step of a block inside the band takes the block from column `j - 1` to
/// column `j` of the banded matrix.
proof fn lemma_block_in_band(
    q: Seq<u8>,
    t: Seq<u8>,
    eqs: Seq<(u8, u8)>,
    free_start: bool,
    k: int,
    b: int,
    j: int,
    pv: u64,
    mv: u64,
    eq: u64,
    hin: int,
    out: BlockStep,
)
    requires
        0 <= k,
        1 <= j <= t.len(),
        0 <= b,
        64 * b < q.len(),
        first_block(free_start, k, j) <= b <= last_block(q.len() as int, k, j),
        step_obeys_recurrence(pv, mv, eq, hin, out),
        hin == horizontal_delta(q, t, eqs, free_start, k, 64 * b, j),
        block_holds_column(pv, mv, q, t, eqs, free_start, k, b, j - 1),
        forall|r: int|
            0 <= r < 64 ==> #[trigger] bit(eq, r) == matches_at(q, eqs, 64 * b + r, t[j - 1]),
    ensures
        block_holds_column(out.pv, out.mv, q, t, eqs, free_start, k, b, j),
        forall|r: int|
            0 <= r < 64 && 64 * b + r < q.len() ==> #[trigger] delta(out.ph, out.mh, r)
                == horizontal_delta(q, t, eqs, free_start, k, 64 * b + r + 1, j),
{
    let rows: int = if q.len() - 64 * b < 64 { q.len() - 64 * b } else { 64 };
    let prev = Seq::new(65, |x: int| banded_cell(q, t, eqs, free_start, k, 64 * b + x, j - 1));
    let cur = Seq::new(65, |x: int| banded_cell(q, t, eqs, free_start, k, 64 * b + x, j));
    assert forall|r: int| 0 <= r < rows implies #[trigger] delta(pv, mv, r) == prev[r + 1]
        - prev[r] by {
        assert(delta(pv, mv, r) == vertical_delta(q, t, eqs, free_start, k, 64 * b + r + 1, j - 1));
    }
    assert forall|x: int| 1 <= x <= rows implies #[trigger] cur[x] == min3(
        cur[x - 1] + 1,
        prev[x] + 1,
        prev[x - 1] + bit_cost(eq, x - 1),
    ) by {
        let i = 64 * b + x;
        assert(bit(eq, x - 1) == matches_at(q, eqs, 64 * b + (x - 1), t[j - 1]));
        assert(64 * first_block(free_start, k, j) < i <= 64 * (last_block(q.len() as int, k, j)
            + 1));
        lemma_inside_band(q, t, eqs, free_start, k, i, j);
    }
    lemma_block_columns(pv, mv, eq, hin, out, prev, cur, rows);
    assert forall|r: int| 0 <= r < 64 && 64 * b + r < q.len() implies #[trigger] delta(
        out.pv,
        out.mv,
        r,
    ) == vertical_delta(q, t, eqs, free_start, k, 64 * b + r + 1, j) by {
        assert(delta(out.pv, out.mv, r) == cur[r + 1] - cur[r]);
    }
    assert forall|r: int| 0 <= r < 64 && 64 * b + r < q.len() implies #[trigger] delta(
        out.ph,
        out.mh,
        r,
    ) == horizontal_delta(q, t, eqs, free_start, k, 64 * b + r + 1, j) by {
        assert(delta(out.ph, out.mh, r) == cur[r + 1] - prev[r + 1]);
    }
}

/// Below the band of a column the vertical deltas are all +1.
proof fn lemma_vertical_delta_below(
    q: Seq<u8>,
    t: Seq<u8>,
    eqs: Seq<(u8, u8)>,
    free_start: bool,
    k: int,
    i: int,
    j: int,
)
    requires
        0 <= k,
        0 <= j,
        0 < i <= q.len(),
        j > 0 ==> i > 64 * (last_block(q.len() as int, k, j) + 1),
    ensures
        vertical_delta(q, t, eqs, free_start, k, i, j) == 1,
{
    lemma_below_band(q, t, eqs, free_start, k, i - 1, i, j);
}

/// The first block of column `j` inside the band.
fn first_block_of(free_start: bool, k: usize, j: usize) -> (b: usize)
    requires
        1 <= j <= MAX_SEQUENCE_LENGTH,
        k <= MAX_SEQUENCE_LENGTH,
    ensures
        b == first_block(free_start, k as int, j as int),
{
    if free_start || j <= k + 1 {
        0
    } else {
        (j - k - 1) / 64
    }
}

/// The last block of column `j` inside the band, for a query of `blocks` blocks.
fn last_block_of(m: usize, blocks: usize, k: usize, j: usize) -> (b: usize)
    requires
        1 <= j <= MAX_SEQUENCE_LENGTH,
        k <= MAX_SEQUENCE_LENGTH,
        1 <= m <= MAX_SEQUENCE_LENGTH,
        blocks == block_count(m as int),
    ensures
        b == last_block(m as int, k as int, j as int),
        b < blocks,
{
    let reach = (j + k - 1) / 64;
    if reach < blocks - 1 {
        reach
    } else {
        blocks - 1
    }
}

/// The horizontal delta that a block hands on: the delta at its position `at`.
fn delta_at(ph: u64, mh: u64, at: usize) -> (d: i8)
    requires
        at < 64,
    ensures
        d == delta(ph, mh, at as int),
{
    if test_bit(ph, at) {
        1
    } else if test_bit(mh, at) {
        -1
    } else {
        0
    }
}

/// The state of a search before its first column: every vertical delta is +1.
fn first_column(
    blocks: usize,
    Ghost(q): Ghost<Seq<u8>>,
    Ghost(t): Ghost<Seq<u8>>,
    Ghost(eqs): Ghost<Seq<(u8, u8)>>,
    Ghost(free_start): Ghost<bool>,
    Ghost(k): Ghost<int>,
) -> (state: (Vec<u64>, Vec<u64>))
    ensures
        state.0.len() == blocks,
        state.1.len() == blocks,
        all_disjoint(state.0@, state.1@),
        blocks_hold_column(state.0@, state.1@, q, t, eqs, free_start, k, 0, 0, blocks as int),
{
    let mut pv: Vec<u64> = Vec::new();
    let mut mv: Vec<u64> = Vec::new();
    let mut b: usize = 0;
    while b < blocks
        invariant
            b <= blocks,
            pv.len() == b,
            mv.len() == b,
            forall|x: int| 0 <= x < b ==> pv[x] == 0xffff_ffff_ffff_ffffu64 && mv[x] == 0,
        decreases blocks - b,
    {
        pv.push(0xffff_ffff_ffff_ffffu64);
        mv.push(0);
        b = b + 1;
    }
    proof {
        assert forall|x: int| 0 <= x < blocks implies #[trigger] disjoint(pv@[x], mv@[x]) by {
            assert(0xffff_ffff_ffff_ffffu64 & 0 == 0) by (bit_vector);
        }
        assert forall|x: int| 0 <= x < blocks implies #[trigger] block_holds_column(
            pv@[x],
            mv@[x],
            q,
            t,
            eqs,
            free_start,
            k,
            x,
            0,
        ) by {
            assert forall|r: int| 0 <= r < 64 && 64 * x + r < q.len() implies #[trigger] delta(
                pv@[x],
                mv@[x],
                r,
            ) == vertical_delta(q, t, eqs, free_start, k, 64 * x + r + 1, 0) by {
                lemma_bit_of_small(r as u64);
                lemma_first_column(q, t, eqs, free_start, k, 64 * x + r + 1);
                lemma_first_column(q, t, eqs, free_start, k, 64 * x + r);
            }
        }
    }
    (pv, mv)
}

/// Takes the blocks `first ..= last` from column `j - 1` to column `j` and
/// returns the horizontal delta at position `at` of the last of them.
fn advance_column(
    alphabet: &Alphabet,
    profile: &QueryProfile,
    symbol: u8,
    pv: &mut Vec<u64>,
    mv: &mut Vec<u64>,
    first: usize,
    last: usize,
    at: usize,
    free_start: bool,
    Ghost(t): Ghost<Seq<u8>>,
    Ghost(k): Ghost<int>,
    Ghost(j): Ghost<int>,
) -> (step: i8)
    requires
        alphabet.wf(),
        profile.wf_for(alphabet),
        (symbol as int) < alphabet.symbols().len(),
        1 <= j <= t.len(),
        0 <= k,
        alphabet.symbols()[symbol as int] == t[j - 1],
        first == first_block(free_start, k, j),
        last == last_block(profile.query().len() as int, k, j),
        first <= last < block_count(profile.query().len() as int),
        at < 64,
        64 * last + at < profile.query().len(),
        old(pv).len() == block_count(profile.query().len() as int),
        old(mv).len() == old(pv).len(),
        all_disjoint(old(pv)@, old(mv)@),
        blocks_hold_column(
            old(pv)@,
            old(mv)@,
            profile.query(),
            t,
            alphabet.equalities(),
            free_start,
            k,
            j - 1,
            first as int,
            old(pv).len() as int,
        ),
    ensures
        final(pv).len() == old(pv).len(),
        final(mv).len() == old(pv).len(),
        all_disjoint(final(pv)@, final(mv)@),
        blocks_hold_column(
            final(pv)@,
            final(mv)@,
            profile.query(),
            t,
            alphabet.equalities(),
            free_start,
            k,
            j,
            first as int,
            last + 1,
        ),
        forall|x: int| last < x < old(pv).len() ==> final(pv)@[x] == old(pv)@[x] && final(mv)@[x] == old(mv)@[x],
        -1 <= step <= 1,
        step == horizontal_delta(
            profile.query(),
            t,
            alphabet.equalities(),
            free_start,
            k,
            64 * last + at + 1,
            j,
        ),
{
    let ghost q = profile.query();
    let ghost eqs = alphabet.equalities();
    let ghost blocks = pv@.len() as int;
    let ghost pv_start = pv@;
    let ghost mv_start = mv@;
    let mut hin: i8 = if free_start { 0 } else { 1 };
    proof {
        lemma_above_band(q, t, eqs, free_start, k, 64 * first, j);
    }
    let mut b: usize = first;
    while b <= last
        invariant
            alphabet.wf(),
            profile.wf_for(alphabet),
            (symbol as int) < alphabet.symbols().len(),
            alphabet.symbols()[symbol as int] == t[j - 1],
            q == profile.query(),
            eqs == alphabet.equalities(),
            1 <= j <= t.len(),
            0 <= k,
            first == first_block(free_start, k, j),
            last == last_block(q.len() as int, k, j),
            last < blocks == block_count(q.len() as int),
            at < 64,
            64 * last + at < q.len(),
            first <= b <= last + 1,
            pv.len() == blocks,
            mv.len() == blocks,
            all_disjoint(pv@, mv@),
            blocks_hold_column(pv@, mv@, q, t, eqs, free_start, k, j, first as int, b as int),
            blocks_hold_column(pv@, mv@, q, t, eqs, free_start, k, j - 1, b as int, blocks),
            forall|x: int| last < x < blocks ==> pv@[x] == pv_start[x] && mv@[x] == mv_start[x],
            -1 <= hin <= 1,
            b <= last ==> hin == horizontal_delta(q, t, eqs, free_start, k, 64 * b, j),
            b == last + 1 ==> hin == horizontal_delta(q, t, eqs, free_start, k, 64 * last + at + 1, j),
        decreases last + 1 - b,
    {
        let eq = profile.word(alphabet, symbol, b);
        let ghost pv_before = pv@;
        let ghost mv_before = mv@;
        assert(disjoint(pv@[b as int], mv@[b as int]));
        assert(block_holds_column(
            pv@[b as int],
            mv@[b as int],
            q,
            t,
            eqs,
            free_start,
            k,
            b as int,
            j - 1,
        ));
        let out = advance_block(pv[b], mv[b], eq, hin);
        proof {
            lemma_block_in_band(
                q,
                t,
                eqs,
                free_start,
                k,
                b as int,
                j,
                pv@[b as int],
                mv@[b as int],
                eq,
                hin as int,
                out,
            );
        }
        pv.set(b, out.pv);
        mv.set(b, out.mv);
        let pos: usize = if b == last { at } else { 63 };
        hin = delta_at(out.ph, out.mh, pos);
        proof {
            assert(delta(out.ph, out.mh, pos as int) == horizontal_delta(
                q,
                t,
                eqs,
                free_start,
                k,
                64 * b + pos + 1,
                j,
            ));
            assert(disjoint(pv@[b as int], mv@[b as int]));
            assert forall|x: int| 0 <= x < pv@.len() implies #[trigger] disjoint(pv@[x], mv@[x]) by {
                if x != b {
                    assert(disjoint(pv_before[x], mv_before[x]));
                }
            }
            assert forall|x: int| first <= x < b + 1 implies #[trigger] block_holds_column(
                pv@[x],
                mv@[x],
                q,
                t,
                eqs,
                free_start,
                k,
                x,
                j,
            ) by {
                if x != b {
                    assert(block_holds_column(
                        pv_before[x],
                        mv_before[x],
                        q,
                        t,
                        eqs,
                        free_start,
                        k,
                        x,
                        j,
                    ));
                }
            }
            assert forall|x: int| b + 1 <= x < blocks implies #[trigger] block_holds_column(
                pv@[x],
                mv@[x],
                q,
                t,
                eqs,
                free_start,
                k,
                x,
                j - 1,
            ) by {
                assert(block_holds_column(
                    pv_before[x],
                    mv_before[x],
                    q,
                    t,
                    eqs,
                    free_start,
                    k,
                    x,
                    j - 1,
                ));
            }
        }
        b = b + 1;
    }
    hin
}

/// The blocks below the band of column `j` hold that column as they held the
/// column before it: every delta is +1.
proof fn lemma_blocks_below_band(
    pv: Seq<u64>,
    mv: Seq<u64>,
    q: Seq<u8>,
    t: Seq<u8>,
    eqs: Seq<(u8, u8)>,
    free_start: bool,
    k: int,
    j: int,
    last: int,
)
    requires
        0 <= k,
        1 <= j,
        last == last_block(q.len() as int, k, j),
        blocks_hold_column(pv, mv, q, t, eqs, free_start, k, j - 1, last + 1, pv.len() as int),
    ensures
        blocks_hold_column(pv, mv, q, t, eqs, free_start, k, j, last + 1, pv.len() as int),
{
    assert forall|x: int| last < x < pv.len() implies #[trigger] block_holds_column(
        pv[x],
        mv[x],
        q,
        t,
        eqs,
        free_start,
        k,
        x,
        j,
    ) by {
        assert(block_holds_column(pv[x], mv[x], q, t, eqs, free_start, k, x, j - 1));
        assert forall|r: int| 0 <= r < 64 && 64 * x + r < q.len() implies #[trigger] delta(
            pv[x],
            mv[x],
            r,
        ) == vertical_delta(q, t, eqs, free_start, k, 64 * x + r + 1, j) by {
            assert(delta(pv[x], mv[x], r) == vertical_delta(
                q,
                t,
                eqs,
                free_start,
                k,
                64 * x + r + 1,
                j - 1,
            ));
            if j > 1 {
                assert(last_block(q.len() as int, k, j - 1) <= last);
            }
            lemma_vertical_delta_below(q, t, eqs, free_start, k, 64 * x + r + 1, j - 1);
            lemma_vertical_delta_below(q, t, eqs, free_start, k, 64 * x + r + 1, j);
        }
    }
}

/// The lowest row of column `j` inside the band, or the last row of the
/// matrix where the band reaches beyond it.
pub open spec fn band_bottom(m: int, k: int, j: int) -> int {
    if j <= 0 {
        0
    } else {
        min2(m, 64 * (last_block(m, k, j) + 1))
    }
}

/// From one column to the next the band does not move up, and below the band
/// of a column the cells grow by one from row to row.
proof fn lemma_band_moves_down(
    q: Seq<u8>,
    t: Seq<u8>,
    eqs: Seq<(u8, u8)>,
    free_start: bool,
    k: int,
    c: int,
)
    requires
        0 <= k,
        0 <= c,
        1 <= q.len(),
    ensures
        0 <= band_bottom(q.len() as int, k, c) <= band_bottom(q.len() as int, k, c + 1) <= q.len(),
        c > 0 ==> first_block(free_start, k, c) <= first_block(free_start, k, c + 1),
        banded_cell(q, t, eqs, free_start, k, band_bottom(q.len() as int, k, c + 1), c)
            == banded_cell(q, t, eqs, free_start, k, band_bottom(q.len() as int, k, c), c) + (
        band_bottom(q.len() as int, k, c + 1) - band_bottom(q.len() as int, k, c)),
        0 <= banded_cell(q, t, eqs, free_start, k, band_bottom(q.len() as int, k, c + 1), c)
            <= q.len() + c,
{
    let m = q.len() as int;
    let bottom = band_bottom(m, k, c);
    let below = band_bottom(m, k, c + 1);
    if c > 0 {
        assert(last_block(m, k, c) <= last_block(m, k, c + 1));
    }
    assert(bottom <= below);
    if bottom < below {
        lemma_below_band(q, t, eqs, free_start, k, bottom, below, c);
    }
    lemma_banded_bounds(q, t, eqs, free_start, k, below, c);
}

/// The last row of column `j`, from the lowest row inside the band.
proof fn lemma_last_row(
    q: Seq<u8>,
    t: Seq<u8>,
    eqs: Seq<(u8, u8)>,
    free_start: bool,
    k: int,
    j: int,
)
    requires
        0 <= k,
        1 <= j,
        1 <= q.len(),
    ensures
        banded_cell(q, t, eqs, free_start, k, q.len() as int, j) == banded_cell(
            q,
            t,
            eqs,
            free_start,
            k,
            band_bottom(q.len() as int, k, j),
            j,
        ) + (q.len() - band_bottom(q.len() as int, k, j)),
        0 <= banded_cell(q, t, eqs, free_start, k, band_bottom(q.len() as int, k, j), j),
        banded_cell(q, t, eqs, free_start, k, q.len() as int, j) <= q.len() + j,
        capped(banded_cell(q, t, eqs, free_start, k, q.len() as int, j), k) == capped(
            cell(q, t, eqs, free_start, q.len() as int, j),
            k,
        ),
{
    let m = q.len() as int;
    let bottom = band_bottom(m, k, j);
    if bottom < m {
        lemma_below_band(q, t, eqs, free_start, k, bottom, m, j);
    }
    lemma_banded_bounds(q, t, eqs, free_start, k, bottom, j);
    lemma_banded_bounds(q, t, eqs, free_start, k, m, j);
    lemma_banded_capped(q, t, eqs, free_start, k, m, j);
}

/// Where the band of a column has left the matrix, the last row grows by one.
proof fn lemma_band_gone(
    q: Seq<u8>,
    t: Seq<u8>,
    eqs: Seq<(u8, u8)>,
    free_start: bool,
    k: int,
    j: int,
)
    requires
        0 <= k,
        1 <= j,
        1 <= q.len(),
        first_block(free_start, k, j) > last_block(q.len() as int, k, j),
    ensures
        band_bottom(q.len() as int, k, j) == q.len(),
        horizontal_delta(q, t, eqs, free_start, k, q.len() as int, j) == 1,
{
    lemma_above_band(q, t, eqs, free_start, k, q.len() as int, j);
}

/// The last row of the matrix of a search bounded by `k`: for each column of
/// the target, the cost of the best alignment of the whole query that ends
/// there, or `k + 1` where that cost is above `k`.
pub fn column_costs(
    alphabet: &Alphabet,
    profile: &QueryProfile,
    target: &[u8],
    free_start: bool,
    k: usize,
) -> (costs: Vec<usize>)
    requires
        alphabet.wf(),
        profile.wf_for(alphabet),
        alphabet.covers(target@),
        target.len() <= MAX_SEQUENCE_LENGTH,
        k <= MAX_SEQUENCE_LENGTH,
    ensures
        costs.len() == target.len(),
        forall|c: int|
            0 <= c < target.len() ==> #[trigger] costs[c] == capped(
                cell(
                    profile.query(),
                    target@,
                    alphabet.equalities(),
                    free_start,
                    profile.query().len() as int,
                    c + 1,
                ),
                k as int,
            ),
{
    let m = profile.len();
    let n = target.len();
    let ghost q = profile.query();
    let ghost t = target@;
    let ghost eqs = alphabet.equalities();
    let ghost kk = k as int;
    let mut costs: Vec<usize> = Vec::new();
    let mut c: usize = 0;
    if m == 0 {
        while c < n
            invariant
                c <= n,
                n == t.len(),
                n <= MAX_SEQUENCE_LENGTH,
                k <= MAX_SEQUENCE_LENGTH,
                q.len() == 0,
                costs.len() == c,
                forall|x: int|
                    0 <= x < c ==> #[trigger] costs[x] == capped(
                        cell(q, t, eqs, free_start, 0, x + 1),
                        k as int,
                    ),
            decreases n - c,
        {
            proof {
                lemma_cell_borders(q, t, eqs, free_start, 0, c + 1);
            }
            let value: usize = if free_start { 0 } else { c + 1 };
            costs.push(if value <= k { value } else { k + 1 });
            c = c + 1;
        }
        return costs;
    }
    let blocks = profile.blocks(alphabet);
    let tids = alphabet.encode(target);
    let (mut pv, mut mv) = first_column(
        blocks,
        Ghost(q),
        Ghost(t),
        Ghost(eqs),
        Ghost(free_start),
        Ghost(kk),
    );
    let mut bottom: usize = 0;
    let mut score: usize = 0;
    proof {
        lemma_first_column(q, t, eqs, free_start, kk, 0);
    }
    while c < n
        invariant
            alphabet.wf(),
            profile.wf_for(alphabet),
            alphabet.encodes(tids@, t),
            q == profile.query(),
            t == target@,
            eqs == alphabet.equalities(),
            kk == k as int,
            k <= MAX_SEQUENCE_LENGTH,
            1 <= m <= MAX_SEQUENCE_LENGTH,
            m == q.len(),
            n == t.len(),
            n <= MAX_SEQUENCE_LENGTH,
            blocks == block_count(m as int),
            c <= n,
            pv.len() == blocks,
            mv.len() == blocks,
            all_disjoint(pv@, mv@),
            blocks_hold_column(
                pv@,
                mv@,
                q,
                t,
                eqs,
                free_start,
                kk,
                c as int,
                if c == 0 {
                    0
                } else {
                    first_block(free_start, kk, c as int)
                },
                blocks as int,
            ),
            bottom == band_bottom(m as int, kk, c as int),
            score == banded_cell(q, t, eqs, free_start, kk, bottom as int, c as int),
            costs.len() == c,
            forall|x: int|
                0 <= x < c ==> #[trigger] costs[x] == capped(
                    cell(q, t, eqs, free_start, m as int, x + 1),
                    kk,
                ),
        decreases n - c,
    {
        let j = c + 1;
        let sym = tids[c];
        let first = first_block_of(free_start, k, j);
        let last = last_block_of(m, blocks, k, j);
        let new_bottom: usize = if (last + 1) * 64 < m { (last + 1) * 64 } else { m };
        proof {
            lemma_band_moves_down(q, t, eqs, free_start, kk, c as int);
            lemma_last_row(q, t, eqs, free_start, kk, j as int);
        }
        let base = score + (new_bottom - bottom);
        let mut step: i8 = 1;
        if first <= last {
            let ghost pv_before = pv@;
            let ghost mv_before = mv@;
            step =
            advance_column(
                alphabet,
                profile,
                sym,
                &mut pv,
                &mut mv,
                first,
                last,
                new_bottom - 64 * last - 1,
                free_start,
                Ghost(t),
                Ghost(kk),
                Ghost(j as int),
            );
            proof {
                assert forall|x: int| last < x < blocks implies #[trigger] block_holds_column(
                    pv@[x],
                    mv@[x],
                    q,
                    t,
                    eqs,
                    free_start,
                    kk,
                    x,
                    c as int,
                ) by {
                    assert(block_holds_column(
                        pv_before[x],
                        mv_before[x],
                        q,
                        t,
                        eqs,
                        free_start,
                        kk,
                        x,
                        c as int,
                    ));
                }
                lemma_blocks_below_band(pv@, mv@, q, t, eqs, free_start, kk, j as int, last as int);
            }
        } else {
            proof {
                lemma_band_gone(q, t, eqs, free_start, kk, j as int);
            }
        }
        score = if step > 0 {
            base + 1
        } else if step < 0 {
            base - 1
        } else {
            base
        };
        bottom = new_bottom;
        let value = score + (m - bottom);
        let ghost costs_before = costs@;
        costs.push(if value <= k { value } else { k + 1 });
        assert forall|x: int| 0 <= x < c + 1 implies #[trigger] costs[x] == capped(
            cell(q, t, eqs, free_start, m as int, x + 1),
            kk,
        ) by {
            if x < c {
                assert(costs_before[x] == costs@[x]);
            }
        }
        c = c + 1;
    }
    costs
}

} // verus!
