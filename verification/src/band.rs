//! The band of a bounded search: for a bound `k`, the blocks of each column
//! that an alignment of cost at most `k` can pass through, and the matrix
//! that the engine computes when it leaves the other blocks out.
use vstd::prelude::*;
use crate::distance::{cell, lemma_cell_bounds, min2, min3, step_cost};

verus! {

/// The number of blocks of 64 rows that hold `m` rows.
pub open spec fn block_count(m: int) -> int {
    (m + 63) / 64
}

/// The first block of column `j` inside the band: the block of row `j - k`.
/// With a free start every block from the first on is inside.
pub open spec fn first_block(free_start: bool, k: int, j: int) -> int {
    if free_start || j - k <= 1 {
        0
    } else {
        (j - k - 1) / 64
    }
}

/// The last block of column `j` inside the band: the block of row `j + k`,
/// or the last block of the matrix where the band reaches beyond it.
pub open spec fn last_block(m: int, k: int, j: int) -> int {
    min2(block_count(m) - 1, (j + k - 1) / 64)
}

/// The matrix that a search bounded by `k` computes. Inside the band it obeys
/// the recurrence of `cell`. A cell above the band is taken as one more than
/// its left neighbour, a cell below the band as one more than its upper
/// neighbour.
#[verifier::opaque]
pub open spec fn banded_cell(
    q: Seq<u8>,
    t: Seq<u8>,
    eqs: Seq<(u8, u8)>,
    free_start: bool,
    k: int,
    i: int,
    j: int,
) -> int
    decreases i + j,
{
    if i <= 0 {
        if free_start || j <= 0 {
            0
        } else {
            j
        }
    } else if j <= 0 {
        i
    } else if i <= 64 * first_block(free_start, k, j) {
        banded_cell(q, t, eqs, free_start, k, i, j - 1) + 1
    } else if i > 64 * (last_block(q.len() as int, k, j) + 1) {
        banded_cell(q, t, eqs, free_start, k, i - 1, j) + 1
    } else {
        min3(
            banded_cell(q, t, eqs, free_start, k, i - 1, j) + 1,
            banded_cell(q, t, eqs, free_start, k, i, j - 1) + 1,
            banded_cell(q, t, eqs, free_start, k, i - 1, j - 1) + step_cost(
                eqs,
                q[i - 1],
                t[j - 1],
            ),
        )
    }
}

/// A cell of the banded matrix is never below the true cell and never above
/// the sum of its row and its column.
pub proof fn lemma_banded_bounds(
    q: Seq<u8>,
    t: Seq<u8>,
    eqs: Seq<(u8, u8)>,
    free_start: bool,
    k: int,
    i: int,
    j: int,
)
    requires
        0 <= i,
        0 <= j,
    ensures
        0 <= cell(q, t, eqs, free_start, i, j) <= banded_cell(q, t, eqs, free_start, k, i, j) <= i
            + j,
    decreases i + j,
{
    reveal(cell);
    reveal(banded_cell);
    lemma_cell_bounds(q, t, eqs, free_start, i, j);
    if i > 0 && j > 0 {
        lemma_banded_bounds(q, t, eqs, free_start, k, i - 1, j);
        lemma_banded_bounds(q, t, eqs, free_start, k, i, j - 1);
        lemma_banded_bounds(q, t, eqs, free_start, k, i - 1, j - 1);
    }
}

/// A row of the matrix whose true cell is within the bound lies inside the band.
pub proof fn lemma_within_bound_is_inside(
    q: Seq<u8>,
    t: Seq<u8>,
    eqs: Seq<(u8, u8)>,
    free_start: bool,
    k: int,
    i: int,
    j: int,
)
    requires
        0 < i <= q.len(),
        0 < j,
        0 <= k,
        cell(q, t, eqs, free_start, i, j) <= k,
    ensures
        64 * first_block(free_start, k, j) < i <= 64 * (last_block(q.len() as int, k, j) + 1),
{
    reveal(cell);
    lemma_cell_bounds(q, t, eqs, free_start, i, j);
}

/// Where the true cell is within the bound, the banded matrix holds it.
pub proof fn lemma_banded_exact(
    q: Seq<u8>,
    t: Seq<u8>,
    eqs: Seq<(u8, u8)>,
    free_start: bool,
    k: int,
    i: int,
    j: int,
)
    requires
        0 <= i <= q.len(),
        0 <= j,
        0 <= k,
        cell(q, t, eqs, free_start, i, j) <= k,
    ensures
        banded_cell(q, t, eqs, free_start, k, i, j) == cell(q, t, eqs, free_start, i, j),
    decreases i + j,
{
    reveal(cell);
    reveal(banded_cell);
    if i > 0 && j > 0 {
        lemma_within_bound_is_inside(q, t, eqs, free_start, k, i, j);
        lemma_banded_bounds(q, t, eqs, free_start, k, i, j);
        lemma_banded_bounds(q, t, eqs, free_start, k, i - 1, j);
        lemma_banded_bounds(q, t, eqs, free_start, k, i, j - 1);
        lemma_banded_bounds(q, t, eqs, free_start, k, i - 1, j - 1);
        let d = cell(q, t, eqs, free_start, i, j);
        if d == cell(q, t, eqs, free_start, i - 1, j) + 1 {
            lemma_banded_exact(q, t, eqs, free_start, k, i - 1, j);
        } else if d == cell(q, t, eqs, free_start, i, j - 1) + 1 {
            lemma_banded_exact(q, t, eqs, free_start, k, i, j - 1);
        } else {
            lemma_banded_exact(q, t, eqs, free_start, k, i - 1, j - 1);
        }
    }
}

/// What a search bounded by `k` reports for a cell: the cell itself where it
/// is within the bound, else `k + 1`.
pub open spec fn capped(value: int, k: int) -> int {
    min2(value, k + 1)
}

/// Capped at the bound, the banded matrix and the true matrix agree.
pub proof fn lemma_banded_capped(
    q: Seq<u8>,
    t: Seq<u8>,
    eqs: Seq<(u8, u8)>,
    free_start: bool,
    k: int,
    i: int,
    j: int,
)
    requires
        0 <= i <= q.len(),
        0 <= j,
        0 <= k,
    ensures
        capped(banded_cell(q, t, eqs, free_start, k, i, j), k) == capped(
            cell(q, t, eqs, free_start, i, j),
            k,
        ),
{
    reveal(cell);
    lemma_banded_bounds(q, t, eqs, free_start, k, i, j);
    if cell(q, t, eqs, free_start, i, j) <= k {
        lemma_banded_exact(q, t, eqs, free_start, k, i, j);
    }
}

/// Below the band of a column, each cell is one more than the cell above it.
pub proof fn lemma_below_band(
    q: Seq<u8>,
    t: Seq<u8>,
    eqs: Seq<(u8, u8)>,
    free_start: bool,
    k: int,
    bottom: int,
    i: int,
    j: int,
)
    requires
        0 <= bottom <= i <= q.len(),
        0 <= j,
        0 <= k,
        j > 0 ==> bottom >= 64 * (last_block(q.len() as int, k, j) + 1),
    ensures
        banded_cell(q, t, eqs, free_start, k, i, j) == banded_cell(
            q,
            t,
            eqs,
            free_start,
            k,
            bottom,
            j,
        ) + (i - bottom),
    decreases i - bottom,
{
    reveal(cell);
    reveal(banded_cell);
    if i > bottom {
        lemma_below_band(q, t, eqs, free_start, k, bottom, i - 1, j);
        if j > 0 {
            // a row of the matrix below the band is not above it
            assert(first_block(free_start, k, j) <= (j + k - 1) / 64);
            assert(64 * block_count(q.len() as int) >= q.len());
            assert(last_block(q.len() as int, k, j) == (j + k - 1) / 64);
        }
    }
}

/// In the first column each cell is its row.
pub proof fn lemma_first_column(
    q: Seq<u8>,
    t: Seq<u8>,
    eqs: Seq<(u8, u8)>,
    free_start: bool,
    k: int,
    i: int,
)
    requires
        0 <= i,
    ensures
        banded_cell(q, t, eqs, free_start, k, i, 0) == i,
{
    reveal(cell);
    reveal(banded_cell);
}

/// In the first row and above the band, a cell is its left neighbour plus the
/// cost of one more target symbol before the alignment.
pub proof fn lemma_above_band(
    q: Seq<u8>,
    t: Seq<u8>,
    eqs: Seq<(u8, u8)>,
    free_start: bool,
    k: int,
    i: int,
    j: int,
)
    requires
        0 < j,
        0 <= i <= 64 * first_block(free_start, k, j),
    ensures
        banded_cell(q, t, eqs, free_start, k, i, j) == banded_cell(
            q,
            t,
            eqs,
            free_start,
            k,
            i,
            j - 1,
        ) + if free_start {
            0int
        } else {
            1int
        },
{
    reveal(cell);
    reveal(banded_cell);
}

/// Inside the band a cell obeys the recurrence.
pub proof fn lemma_inside_band(
    q: Seq<u8>,
    t: Seq<u8>,
    eqs: Seq<(u8, u8)>,
    free_start: bool,
    k: int,
    i: int,
    j: int,
)
    requires
        0 < j,
        0 < i,
        64 * first_block(free_start, k, j) < i <= 64 * (last_block(q.len() as int, k, j) + 1),
    ensures
        banded_cell(q, t, eqs, free_start, k, i, j) == min3(
            banded_cell(q, t, eqs, free_start, k, i - 1, j) + 1,
            banded_cell(q, t, eqs, free_start, k, i, j - 1) + 1,
            banded_cell(q, t, eqs, free_start, k, i - 1, j - 1) + step_cost(
                eqs,
                q[i - 1],
                t[j - 1],
            ),
        ),
{
    reveal(cell);
    reveal(banded_cell);
}

} // verus!
