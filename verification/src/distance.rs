//! The mathematical model: when two symbols match, and the matrix of edit
//! distances between prefixes of a query and prefixes of a target.
use vstd::prelude::*;

verus! {

/// Whether a declared pair holds the two symbols, in either order.
pub open spec fn pair_joins(pair: (u8, u8), a: u8, b: u8) -> bool {
    (pair.0 == a && pair.1 == b) || (pair.0 == b && pair.1 == a)
}

/// Two symbols match when they are equal or when one declared pair holds both.
/// The relation is reflexive and symmetric; it is not closed under chains of pairs.
pub open spec fn symbols_match(eqs: Seq<(u8, u8)>, a: u8, b: u8) -> bool {
    a == b || exists|p: int| 0 <= p < eqs.len() && pair_joins(#[trigger] eqs[p], a, b)
}

/// The cost of aligning symbol `a` of the query with symbol `b` of the target.
pub open spec fn step_cost(eqs: Seq<(u8, u8)>, a: u8, b: u8) -> int {
    if symbols_match(eqs, a, b) {
        0
    } else {
        1
    }
}

pub open spec fn min2(a: int, b: int) -> int {
    if a <= b {
        a
    } else {
        b
    }
}

pub open spec fn min3(a: int, b: int, c: int) -> int {
    min2(a, min2(b, c))
}

pub open spec fn max2(a: int, b: int) -> int {
    if a >= b {
        a
    } else {
        b
    }
}

/// The least cost of aligning the first `i` symbols of `q` with the first `j`
/// symbols of `t`, each unmatched symbol and each mismatch costing one.
/// With `free_start`, symbols of the target before the alignment cost nothing.
#[verifier::opaque]
pub open spec fn cell(
    q: Seq<u8>,
    t: Seq<u8>,
    eqs: Seq<(u8, u8)>,
    free_start: bool,
    i: int,
    j: int,
) -> int
    decreases i + j,
{
    if i <= 0 {
        if free_start || j <= 0 {
            0
        } else {
            j
        }
    } else if j <= 0 {
        i
    } else {
        min3(
            cell(q, t, eqs, free_start, i - 1, j) + 1,
            cell(q, t, eqs, free_start, i, j - 1) + 1,
            cell(q, t, eqs, free_start, i - 1, j - 1) + step_cost(eqs, q[i - 1], t[j - 1]),
        )
    }
}

/// The edit distance between the whole of `q` and the whole of `t`.
pub open spec fn global_distance(q: Seq<u8>, t: Seq<u8>, eqs: Seq<(u8, u8)>) -> int {
    cell(q, t, eqs, false, q.len() as int, t.len() as int)
}

/// A cell is never negative, never above the longer of the two prefixes, and
/// never below the number of query symbols that the target prefix cannot pair.
pub proof fn lemma_cell_bounds(
    q: Seq<u8>,
    t: Seq<u8>,
    eqs: Seq<(u8, u8)>,
    free_start: bool,
    i: int,
    j: int,
)
    requires
        0 <= i,
        0 <= j,
    ensures
        0 <= cell(q, t, eqs, free_start, i, j) <= max2(i, j),
        i - j <= cell(q, t, eqs, free_start, i, j),
        free_start ==> cell(q, t, eqs, free_start, i, j) <= i,
        !free_start ==> j - i <= cell(q, t, eqs, free_start, i, j),
    decreases i + j,
{
    reveal(cell);
    if i > 0 && j > 0 {
        lemma_cell_bounds(q, t, eqs, free_start, i - 1, j);
        lemma_cell_bounds(q, t, eqs, free_start, i, j - 1);
        lemma_cell_bounds(q, t, eqs, free_start, i - 1, j - 1);
    }
}

/// Neighbouring cells differ by at most one, and a cell is never below its
/// diagonal predecessor.
pub proof fn lemma_cell_neighbours(
    q: Seq<u8>,
    t: Seq<u8>,
    eqs: Seq<(u8, u8)>,
    free_start: bool,
    i: int,
    j: int,
)
    requires
        0 <= i,
        0 <= j,
    ensures
        i > 0 ==> cell(q, t, eqs, free_start, i - 1, j) - 1 <= cell(q, t, eqs, free_start, i, j)
            <= cell(q, t, eqs, free_start, i - 1, j) + 1,
        j > 0 ==> cell(q, t, eqs, free_start, i, j - 1) - 1 <= cell(q, t, eqs, free_start, i, j)
            <= cell(q, t, eqs, free_start, i, j - 1) + 1,
        i > 0 && j > 0 ==> cell(q, t, eqs, free_start, i - 1, j - 1) <= cell(
            q,
            t,
            eqs,
            free_start,
            i,
            j,
        ) <= cell(q, t, eqs, free_start, i - 1, j - 1) + 1,
    decreases i + j,
{
    reveal(cell);
    if i > 0 && j > 0 {
        lemma_cell_neighbours(q, t, eqs, free_start, i - 1, j);
        lemma_cell_neighbours(q, t, eqs, free_start, i, j - 1);
    } else if i > 0 {
        assert(cell(q, t, eqs, free_start, i - 1, j) == i - 1);
    } else if j > 0 {
        assert(cell(q, t, eqs, free_start, i, j - 1) == if free_start { 0 } else { j - 1 });
    }
}

/// A cell depends only on the prefixes that it aligns.
pub proof fn lemma_cell_reads_prefixes(
    q: Seq<u8>,
    t: Seq<u8>,
    q2: Seq<u8>,
    t2: Seq<u8>,
    eqs: Seq<(u8, u8)>,
    free_start: bool,
    i: int,
    j: int,
)
    requires
        forall|x: int| 0 <= x < i ==> q[x] == q2[x],
        forall|y: int| 0 <= y < j ==> t[y] == t2[y],
    ensures
        cell(q, t, eqs, free_start, i, j) == cell(q2, t2, eqs, free_start, i, j),
    decreases i + j,
{
    reveal(cell);
    if i > 0 && j > 0 {
        lemma_cell_reads_prefixes(q, t, q2, t2, eqs, free_start, i - 1, j);
        lemma_cell_reads_prefixes(q, t, q2, t2, eqs, free_start, i, j - 1);
        lemma_cell_reads_prefixes(q, t, q2, t2, eqs, free_start, i - 1, j - 1);
    }
}

/// Matching does not depend on the order of the two symbols.
pub proof fn lemma_symbols_match_symmetric(eqs: Seq<(u8, u8)>, a: u8, b: u8)
    ensures
        symbols_match(eqs, a, b) == symbols_match(eqs, b, a),
{
    reveal(cell);
    if symbols_match(eqs, a, b) && a != b {
        let p = choose|p: int| 0 <= p < eqs.len() && pair_joins(#[trigger] eqs[p], a, b);
        assert(pair_joins(eqs[p], b, a));
    }
    if symbols_match(eqs, b, a) && a != b {
        let p = choose|p: int| 0 <= p < eqs.len() && pair_joins(#[trigger] eqs[p], b, a);
        assert(pair_joins(eqs[p], a, b));
    }
}

/// Without a free start, exchanging the two sequences transposes the matrix.
pub proof fn lemma_cell_transposed(q: Seq<u8>, t: Seq<u8>, eqs: Seq<(u8, u8)>, i: int, j: int)
    ensures
        cell(q, t, eqs, false, i, j) == cell(t, q, eqs, false, j, i),
    decreases max2(i, 0) + max2(j, 0),
{
    reveal(cell);
    if i > 0 && j > 0 {
        lemma_cell_transposed(q, t, eqs, i - 1, j);
        lemma_cell_transposed(q, t, eqs, i, j - 1);
        lemma_cell_transposed(q, t, eqs, i - 1, j - 1);
        lemma_symbols_match_symmetric(eqs, q[i - 1], t[j - 1]);
    }
}

/// Aligning a prefix with itself costs nothing.
pub proof fn lemma_cell_diagonal_of_self(a: Seq<u8>, eqs: Seq<(u8, u8)>, i: int)
    requires
        0 <= i,
    ensures
        cell(a, a, eqs, false, i, i) == 0,
    decreases i,
{
    reveal(cell);
    lemma_cell_bounds(a, a, eqs, false, i, i);
    if i > 0 {
        lemma_cell_diagonal_of_self(a, eqs, i - 1);
    }
}

/// A free start never costs more than a charged one.
pub proof fn lemma_free_start_is_cheaper(
    q: Seq<u8>,
    t: Seq<u8>,
    eqs: Seq<(u8, u8)>,
    i: int,
    j: int,
)
    ensures
        cell(q, t, eqs, true, i, j) <= cell(q, t, eqs, false, i, j),
    decreases max2(i, 0) + max2(j, 0),
{
    reveal(cell);
    if i > 0 && j > 0 {
        lemma_free_start_is_cheaper(q, t, eqs, i - 1, j);
        lemma_free_start_is_cheaper(q, t, eqs, i, j - 1);
        lemma_free_start_is_cheaper(q, t, eqs, i - 1, j - 1);
    }
}

/// The first row and the first column of the matrix.
pub proof fn lemma_cell_borders(
    q: Seq<u8>,
    t: Seq<u8>,
    eqs: Seq<(u8, u8)>,
    free_start: bool,
    i: int,
    j: int,
)
    ensures
        i <= 0 ==> cell(q, t, eqs, free_start, i, j) == if free_start || j <= 0 {
            0
        } else {
            j
        },
        i > 0 && j <= 0 ==> cell(q, t, eqs, free_start, i, j) == i,
{
    reveal(cell);
}

/// The recurrence of the matrix away from its borders.
pub proof fn lemma_cell_recurrence(
    q: Seq<u8>,
    t: Seq<u8>,
    eqs: Seq<(u8, u8)>,
    free_start: bool,
    i: int,
    j: int,
)
    requires
        i > 0,
        j > 0,
    ensures
        cell(q, t, eqs, free_start, i, j) == min3(
            cell(q, t, eqs, free_start, i - 1, j) + 1,
            cell(q, t, eqs, free_start, i, j - 1) + 1,
            cell(q, t, eqs, free_start, i - 1, j - 1) + step_cost(eqs, q[i - 1], t[j - 1]),
        ),
{
    reveal(cell);
}

} // verus!
