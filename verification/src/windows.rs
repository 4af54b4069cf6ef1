//! Distances between a stretch of the query and a stretch of the target, and
//! what they say about reversed sequences and about alignments with a free start.
use vstd::prelude::*;
use crate::distance::{cell, global_distance, lemma_cell_bounds, max2, min3, step_cost};

verus! {

/// The edit distance between `q[i0..i]` and `t[j0..j]`.
#[verifier::opaque]
pub open spec fn span_cell(
    q: Seq<u8>,
    t: Seq<u8>,
    eqs: Seq<(u8, u8)>,
    i0: int,
    j0: int,
    i: int,
    j: int,
) -> int
    decreases max2(i - i0, 0) + max2(j - j0, 0),
{
    if i <= i0 {
        if j <= j0 {
            0
        } else {
            j - j0
        }
    } else if j <= j0 {
        i - i0
    } else {
        min3(
            span_cell(q, t, eqs, i0, j0, i - 1, j) + 1,
            span_cell(q, t, eqs, i0, j0, i, j - 1) + 1,
            span_cell(q, t, eqs, i0, j0, i - 1, j - 1) + step_cost(eqs, q[i - 1], t[j - 1]),
        )
    }
}

/// The edit distance between the whole query and the window `t[s..e]` of the target.
pub open spec fn window_distance(q: Seq<u8>, t: Seq<u8>, eqs: Seq<(u8, u8)>, s: int, e: int) -> int {
    global_distance(q, t.subrange(s, e), eqs)
}

pub proof fn lemma_span_from_origin(q: Seq<u8>, t: Seq<u8>, eqs: Seq<(u8, u8)>, i: int, j: int)
    ensures
        span_cell(q, t, eqs, 0, 0, i, j) == cell(q, t, eqs, false, i, j),
    decreases max2(i, 0) + max2(j, 0),
{
    reveal(cell);
    reveal(span_cell);
    if i > 0 && j > 0 {
        lemma_span_from_origin(q, t, eqs, i - 1, j);
        lemma_span_from_origin(q, t, eqs, i, j - 1);
        lemma_span_from_origin(q, t, eqs, i - 1, j - 1);
    }
}

pub proof fn lemma_span_bounds(
    q: Seq<u8>,
    t: Seq<u8>,
    eqs: Seq<(u8, u8)>,
    i0: int,
    j0: int,
    i: int,
    j: int,
)
    requires
        i0 <= i,
        j0 <= j,
    ensures
        0 <= span_cell(q, t, eqs, i0, j0, i, j) <= max2(i - i0, j - j0),
    decreases (i - i0) + (j - j0),
{
    reveal(cell);
    reveal(span_cell);
    if i > i0 && j > j0 {
        lemma_span_bounds(q, t, eqs, i0, j0, i - 1, j);
        lemma_span_bounds(q, t, eqs, i0, j0, i, j - 1);
        lemma_span_bounds(q, t, eqs, i0, j0, i - 1, j - 1);
    }
}

/// The recurrence of a span at its back, for spans that hold a symbol of each sequence.
pub open spec fn span_back_rule(
    q: Seq<u8>,
    t: Seq<u8>,
    eqs: Seq<(u8, u8)>,
    i0: int,
    j0: int,
    i: int,
    j: int,
) -> bool {
    span_cell(q, t, eqs, i0, j0, i, j) == min3(
        span_cell(q, t, eqs, i0, j0, i - 1, j) + 1,
        span_cell(q, t, eqs, i0, j0, i, j - 1) + 1,
        span_cell(q, t, eqs, i0, j0, i - 1, j - 1) + step_cost(eqs, q[i - 1], t[j - 1]),
    )
}

/// The same recurrence at the front of a span.
pub open spec fn span_front_rule(
    q: Seq<u8>,
    t: Seq<u8>,
    eqs: Seq<(u8, u8)>,
    i0: int,
    j0: int,
    i: int,
    j: int,
) -> bool {
    span_cell(q, t, eqs, i0, j0, i, j) == min3(
        span_cell(q, t, eqs, i0 + 1, j0, i, j) + 1,
        span_cell(q, t, eqs, i0, j0 + 1, i, j) + 1,
        span_cell(q, t, eqs, i0 + 1, j0 + 1, i, j) + step_cost(eqs, q[i0], t[j0]),
    )
}

proof fn lemma_span_back(
    q: Seq<u8>,
    t: Seq<u8>,
    eqs: Seq<(u8, u8)>,
    i0: int,
    j0: int,
    i: int,
    j: int,
)
    ensures
        i0 < i && j0 < j ==> span_back_rule(q, t, eqs, i0, j0, i, j),
        i <= i0 && j0 <= j ==> span_cell(q, t, eqs, i0, j0, i, j) == j - j0,
        j <= j0 && i0 <= i ==> span_cell(q, t, eqs, i0, j0, i, j) == i - i0,
{
    reveal(cell);
    reveal(span_cell);
}

/// Taking the least of nine sums by rows or by columns gives the same.
proof fn lemma_min_by_rows_or_columns(
    a1: int,
    a2: int,
    a3: int,
    b1: int,
    b2: int,
    b3: int,
    c1: int,
    c2: int,
    c3: int,
    cf: int,
    cb: int,
)
    ensures
        min3(
            min3(a1 + 1, a2 + 1, a3 + cf) + 1,
            min3(b1 + 1, b2 + 1, b3 + cf) + 1,
            min3(c1 + 1, c2 + 1, c3 + cf) + cb,
        ) == min3(
            min3(a1 + 1, b1 + 1, c1 + cb) + 1,
            min3(a2 + 1, b2 + 1, c2 + cb) + 1,
            min3(a3 + 1, b3 + 1, c3 + cb) + cf,
        ),
{
    reveal(cell);
    reveal(span_cell);
}

/// A span obeys the same recurrence at its front as at its back.
pub proof fn lemma_span_front(
    q: Seq<u8>,
    t: Seq<u8>,
    eqs: Seq<(u8, u8)>,
    i0: int,
    j0: int,
    i: int,
    j: int,
)
    requires
        i0 < i,
        j0 < j,
    ensures
        span_front_rule(q, t, eqs, i0, j0, i, j),
    decreases (i - i0) + (j - j0),
{
    reveal(cell);
    reveal(span_cell);
    let cf = step_cost(eqs, q[i0], t[j0]);
    let cb = step_cost(eqs, q[i - 1], t[j - 1]);
    // the three spans that the back rule reads, each with its own front rule
    lemma_span_back(q, t, eqs, i0, j0, i, j);
    if i0 < i - 1 {
        lemma_span_front(q, t, eqs, i0, j0, i - 1, j);
    }
    if j0 < j - 1 {
        lemma_span_front(q, t, eqs, i0, j0, i, j - 1);
    }
    if i0 < i - 1 && j0 < j - 1 {
        lemma_span_front(q, t, eqs, i0, j0, i - 1, j - 1);
    }
    lemma_span_back(q, t, eqs, i0, j0, i - 1, j);
    lemma_span_back(q, t, eqs, i0, j0, i, j - 1);
    lemma_span_back(q, t, eqs, i0, j0, i - 1, j - 1);
    // the three spans that the front rule reads, each by its back rule
    lemma_span_back(q, t, eqs, i0 + 1, j0, i, j);
    lemma_span_back(q, t, eqs, i0, j0 + 1, i, j);
    lemma_span_back(q, t, eqs, i0 + 1, j0 + 1, i, j);
    let a1 = span_cell(q, t, eqs, i0 + 1, j0, i - 1, j);
    let a2 = span_cell(q, t, eqs, i0, j0 + 1, i - 1, j);
    let a3 = span_cell(q, t, eqs, i0 + 1, j0 + 1, i - 1, j);
    let b1 = span_cell(q, t, eqs, i0 + 1, j0, i, j - 1);
    let b2 = span_cell(q, t, eqs, i0, j0 + 1, i, j - 1);
    let b3 = span_cell(q, t, eqs, i0 + 1, j0 + 1, i, j - 1);
    let c1 = span_cell(q, t, eqs, i0 + 1, j0, i - 1, j - 1);
    let c2 = span_cell(q, t, eqs, i0, j0 + 1, i - 1, j - 1);
    let c3 = span_cell(q, t, eqs, i0 + 1, j0 + 1, i - 1, j - 1);
    lemma_span_back(q, t, eqs, i0 + 1, j0, i - 1, j);
    lemma_span_back(q, t, eqs, i0, j0 + 1, i - 1, j);
    lemma_span_back(q, t, eqs, i0 + 1, j0 + 1, i - 1, j);
    lemma_span_back(q, t, eqs, i0 + 1, j0, i, j - 1);
    lemma_span_back(q, t, eqs, i0, j0 + 1, i, j - 1);
    lemma_span_back(q, t, eqs, i0 + 1, j0 + 1, i, j - 1);
    lemma_span_back(q, t, eqs, i0 + 1, j0, i - 1, j - 1);
    lemma_span_back(q, t, eqs, i0, j0 + 1, i - 1, j - 1);
    lemma_span_back(q, t, eqs, i0 + 1, j0 + 1, i - 1, j - 1);
    if i0 < i - 1 && j0 < j - 1 {
        lemma_min_by_rows_or_columns(a1, a2, a3, b1, b2, b3, c1, c2, c3, cf, cb);
    }
}

/// Reversing both sequences maps each span onto the mirrored span.
pub proof fn lemma_span_mirrored(
    q: Seq<u8>,
    t: Seq<u8>,
    eqs: Seq<(u8, u8)>,
    i0: int,
    j0: int,
    i: int,
    j: int,
)
    requires
        0 <= i0 <= i <= q.len(),
        0 <= j0 <= j <= t.len(),
    ensures
        span_cell(q, t, eqs, i0, j0, i, j) == span_cell(
            q.reverse(),
            t.reverse(),
            eqs,
            q.len() - i,
            t.len() - j,
            q.len() - i0,
            t.len() - j0,
        ),
    decreases (i - i0) + (j - j0),
{
    reveal(cell);
    reveal(span_cell);
    if i0 < i && j0 < j {
        lemma_span_front(q, t, eqs, i0, j0, i, j);
        lemma_span_mirrored(q, t, eqs, i0 + 1, j0, i, j);
        lemma_span_mirrored(q, t, eqs, i0, j0 + 1, i, j);
        lemma_span_mirrored(q, t, eqs, i0 + 1, j0 + 1, i, j);
        assert(q.reverse()[q.len() - i0 - 1] == q[i0]);
        assert(t.reverse()[t.len() - j0 - 1] == t[j0]);
    }
}

/// The edit distance between two sequences is that between their reversals.
pub proof fn lemma_distance_of_reversed(q: Seq<u8>, t: Seq<u8>, eqs: Seq<(u8, u8)>)
    ensures
        global_distance(q.reverse(), t.reverse(), eqs) == global_distance(q, t, eqs),
{
    reveal(cell);
    reveal(span_cell);
    lemma_span_mirrored(q, t, eqs, 0, 0, q.len() as int, t.len() as int);
    lemma_span_from_origin(q, t, eqs, q.len() as int, t.len() as int);
    lemma_span_from_origin(q.reverse(), t.reverse(), eqs, q.len() as int, t.len() as int);
}

/// A span is the matrix of the two stretches taken on their own.
pub proof fn lemma_span_is_cell_of_stretches(
    q: Seq<u8>,
    t: Seq<u8>,
    eqs: Seq<(u8, u8)>,
    i0: int,
    j0: int,
    i1: int,
    j1: int,
    i: int,
    j: int,
)
    requires
        0 <= i0 <= i <= i1 <= q.len(),
        0 <= j0 <= j <= j1 <= t.len(),
    ensures
        span_cell(q, t, eqs, i0, j0, i, j) == cell(
            q.subrange(i0, i1),
            t.subrange(j0, j1),
            eqs,
            false,
            i - i0,
            j - j0,
        ),
    decreases (i - i0) + (j - j0),
{
    reveal(cell);
    reveal(span_cell);
    if i0 < i && j0 < j {
        lemma_span_is_cell_of_stretches(q, t, eqs, i0, j0, i1, j1, i - 1, j);
        lemma_span_is_cell_of_stretches(q, t, eqs, i0, j0, i1, j1, i, j - 1);
        lemma_span_is_cell_of_stretches(q, t, eqs, i0, j0, i1, j1, i - 1, j - 1);
        assert(q.subrange(i0, i1)[i - i0 - 1] == q[i - 1]);
        assert(t.subrange(j0, j1)[j - j0 - 1] == t[j - 1]);
    }
}

/// The distance to a window of the target, as a span.
pub proof fn lemma_window_is_span(q: Seq<u8>, t: Seq<u8>, eqs: Seq<(u8, u8)>, s: int, e: int)
    requires
        0 <= s <= e <= t.len(),
    ensures
        window_distance(q, t, eqs, s, e) == span_cell(q, t, eqs, 0, s, q.len() as int, e),
{
    reveal(cell);
    reveal(span_cell);
    lemma_span_is_cell_of_stretches(q, t, eqs, 0, s, q.len() as int, e, q.len() as int, e);
    assert(q.subrange(0, q.len() as int) =~= q);
}

/// With a free start, a cell is at most the distance to any window that ends at its column.
pub proof fn lemma_free_start_below_spans(
    q: Seq<u8>,
    t: Seq<u8>,
    eqs: Seq<(u8, u8)>,
    s: int,
    i: int,
    j: int,
)
    requires
        0 <= i,
        0 <= s <= j,
    ensures
        cell(q, t, eqs, true, i, j) <= span_cell(q, t, eqs, 0, s, i, j),
    decreases i + j,
{
    reveal(cell);
    reveal(span_cell);
    lemma_cell_bounds(q, t, eqs, true, i, j);
    lemma_span_bounds(q, t, eqs, 0, s, i, j);
    if i > 0 && j > s {
        lemma_free_start_below_spans(q, t, eqs, s, i - 1, j);
        lemma_free_start_below_spans(q, t, eqs, s, i, j - 1);
        lemma_free_start_below_spans(q, t, eqs, s, i - 1, j - 1);
    }
}

/// Where one best alignment with a free start, ending at column `j`, begins in the target.
pub open spec fn free_start_origin(
    q: Seq<u8>,
    t: Seq<u8>,
    eqs: Seq<(u8, u8)>,
    i: int,
    j: int,
) -> int
    decreases max2(i, 0) + max2(j, 0),
{
    if i <= 0 {
        max2(j, 0)
    } else if j <= 0 {
        0
    } else if cell(q, t, eqs, true, i, j) == cell(q, t, eqs, true, i - 1, j) + 1 {
        free_start_origin(q, t, eqs, i - 1, j)
    } else if cell(q, t, eqs, true, i, j) == cell(q, t, eqs, true, i, j - 1) + 1 {
        free_start_origin(q, t, eqs, i, j - 1)
    } else {
        free_start_origin(q, t, eqs, i - 1, j - 1)
    }
}

/// With a free start, a cell is the distance to some window that ends at its column.
pub proof fn lemma_free_start_reaches_span(
    q: Seq<u8>,
    t: Seq<u8>,
    eqs: Seq<(u8, u8)>,
    i: int,
    j: int,
)
    requires
        0 <= i,
        0 <= j,
    ensures
        0 <= free_start_origin(q, t, eqs, i, j) <= j,
        span_cell(q, t, eqs, 0, free_start_origin(q, t, eqs, i, j), i, j) == cell(
            q,
            t,
            eqs,
            true,
            i,
            j,
        ),
    decreases i + j,
{
    reveal(cell);
    reveal(span_cell);
    let s = free_start_origin(q, t, eqs, i, j);
    if i > 0 && j > 0 {
        lemma_free_start_reaches_span(q, t, eqs, i - 1, j);
        lemma_free_start_reaches_span(q, t, eqs, i, j - 1);
        lemma_free_start_reaches_span(q, t, eqs, i - 1, j - 1);
        lemma_free_start_below_spans(q, t, eqs, s, i, j);
        if cell(q, t, eqs, true, i, j) == cell(q, t, eqs, true, i - 1, j) + 1 {
            if s == j {
                assert(span_cell(q, t, eqs, 0, s, i, j) == i);
                assert(span_cell(q, t, eqs, 0, s, i - 1, j) == i - 1);
            }
        }
    } else if i > 0 {
        assert(span_cell(q, t, eqs, 0, 0, i, j) == i);
    } else {
        assert(span_cell(q, t, eqs, 0, j, i, j) == 0);
    }
}

} // verus!
