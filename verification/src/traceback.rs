//! The path of one best alignment: the matrix of the query against a window
//! of the target, and the walk back through it from the last cell to the first.
use vstd::prelude::*;
use crate::alphabet::Alphabet;
use crate::distance::{
    cell, lemma_cell_borders, lemma_cell_bounds, lemma_cell_neighbours, lemma_cell_recurrence,
    max2, symbols_match,
};
use crate::edlib::{EdlibEdopRs, MAX_SEQUENCE_LENGTH};

verus! {

/// The edit operations of the best alignment of the first `i` symbols of `q`
/// with the first `j` symbols of `w` that the walk back from cell `(i, j)`
/// finds, in the order of the sequences. At each cell the walk takes the first
/// step that the recurrence allows, of: a match, a mismatch, a deletion from
/// the target, an insertion to the target.
pub open spec fn traceback(
    q: Seq<u8>,
    w: Seq<u8>,
    eqs: Seq<(u8, u8)>,
    i: int,
    j: int,
) -> Seq<EdlibEdopRs>
    decreases max2(i, 0) + max2(j, 0),
{
    if i <= 0 && j <= 0 {
        Seq::empty()
    } else if i <= 0 {
        traceback(q, w, eqs, i, j - 1).push(EdlibEdopRs::EDLIB_EDOP_INSERT)
    } else if j <= 0 {
        traceback(q, w, eqs, i - 1, j).push(EdlibEdopRs::EDLIB_EDOP_DELETE)
    } else if symbols_match(eqs, q[i - 1], w[j - 1]) && cell(q, w, eqs, false, i - 1, j - 1)
        == cell(q, w, eqs, false, i, j) {
        traceback(q, w, eqs, i - 1, j - 1).push(EdlibEdopRs::EDLIB_EDOP_MATCH)
    } else if cell(q, w, eqs, false, i - 1, j - 1) + 1 == cell(q, w, eqs, false, i, j) {
        traceback(q, w, eqs, i - 1, j - 1).push(EdlibEdopRs::EDLIB_EDOP_MISMATCH)
    } else if cell(q, w, eqs, false, i - 1, j) + 1 == cell(q, w, eqs, false, i, j) {
        traceback(q, w, eqs, i - 1, j).push(EdlibEdopRs::EDLIB_EDOP_DELETE)
    } else {
        traceback(q, w, eqs, i, j - 1).push(EdlibEdopRs::EDLIB_EDOP_INSERT)
    }
}

/// The whole path of the query against the window.
pub open spec fn best_path(q: Seq<u8>, w: Seq<u8>, eqs: Seq<(u8, u8)>) -> Seq<EdlibEdopRs> {
    traceback(q, w, eqs, q.len() as int, w.len() as int)
}

/// A path is no longer than the two prefixes together.
pub proof fn lemma_traceback_length(q: Seq<u8>, w: Seq<u8>, eqs: Seq<(u8, u8)>, i: int, j: int)
    requires
        0 <= i,
        0 <= j,
    ensures
        max2(i, j) <= traceback(q, w, eqs, i, j).len() <= i + j,
    decreases i + j,
{
    if i > 0 && j > 0 {
        lemma_traceback_length(q, w, eqs, i - 1, j - 1);
        lemma_traceback_length(q, w, eqs, i - 1, j);
        lemma_traceback_length(q, w, eqs, i, j - 1);
    } else if i > 0 {
        lemma_traceback_length(q, w, eqs, i - 1, j);
    } else if j > 0 {
        lemma_traceback_length(q, w, eqs, i, j - 1);
    }
}

/// Whether `rows` holds the matrix of `q` against `w` down to row `upto - 1`.
pub open spec fn holds_matrix(
    rows: Seq<Vec<u32>>,
    q: Seq<u8>,
    w: Seq<u8>,
    eqs: Seq<(u8, u8)>,
    upto: int,
) -> bool {
    &&& rows.len() == upto
    &&& forall|i: int| 0 <= i < upto ==> (#[trigger] rows[i])@.len() == w.len() + 1
    &&& forall|i: int, j: int|
        0 <= i < upto && 0 <= j <= w.len() ==> #[trigger] rows[i]@[j] == cell(
            q,
            w,
            eqs,
            false,
            i,
            j,
        )
}

/// The first row of the matrix.
fn first_row(len: usize, Ghost(q): Ghost<Seq<u8>>, Ghost(w): Ghost<Seq<u8>>, Ghost(eqs): Ghost<
    Seq<(u8, u8)>,
>) -> (row: Vec<u32>)
    requires
        len == w.len(),
        len <= MAX_SEQUENCE_LENGTH,
    ensures
        row@.len() == len + 1,
        forall|j: int| 0 <= j <= len ==> #[trigger] row@[j] == cell(q, w, eqs, false, 0, j),
{
    let mut row: Vec<u32> = Vec::new();
    let mut j: usize = 0;
    while j <= len
        invariant
            j <= len + 1,
            len <= MAX_SEQUENCE_LENGTH,
            row@.len() == j,
            forall|x: int| 0 <= x < j ==> #[trigger] row@[x] == cell(q, w, eqs, false, 0, x),
        decreases len + 1 - j,
    {
        proof {
            lemma_cell_borders(q, w, eqs, false, 0, j as int);
        }
        row.push(j as u32);
        j = j + 1;
    }
    row
}

/// Row `i` of the matrix, from the row above it.
fn next_row(
    alphabet: &Alphabet,
    qids: &Vec<u8>,
    wids: &Vec<u8>,
    above: &Vec<u32>,
    i: usize,
    Ghost(q): Ghost<Seq<u8>>,
    Ghost(w): Ghost<Seq<u8>>,
) -> (row: Vec<u32>)
    requires
        alphabet.wf(),
        alphabet.encodes(qids@, q),
        alphabet.encodes(wids@, w),
        1 <= i <= q.len() <= MAX_SEQUENCE_LENGTH,
        w.len() <= MAX_SEQUENCE_LENGTH,
        above@.len() == w.len() + 1,
        forall|j: int|
            0 <= j <= w.len() ==> #[trigger] above@[j] == cell(
                q,
                w,
                alphabet.equalities(),
                false,
                i - 1,
                j,
            ),
    ensures
        row@.len() == w.len() + 1,
        forall|j: int|
            0 <= j <= w.len() ==> #[trigger] row@[j] == cell(
                q,
                w,
                alphabet.equalities(),
                false,
                i as int,
                j,
            ),
{
    let ghost eqs = alphabet.equalities();
    let len = wids.len();
    let mut row: Vec<u32> = Vec::new();
    proof {
        lemma_cell_borders(q, w, eqs, false, i as int, 0);
    }
    row.push(i as u32);
    let mut j: usize = 1;
    while j <= len
        invariant
            alphabet.wf(),
            alphabet.encodes(qids@, q),
            alphabet.encodes(wids@, w),
            eqs == alphabet.equalities(),
            1 <= i <= q.len() <= MAX_SEQUENCE_LENGTH,
            len == w.len(),
            len <= MAX_SEQUENCE_LENGTH,
            above@.len() == len + 1,
            forall|x: int|
                0 <= x <= len ==> #[trigger] above@[x] == cell(q, w, eqs, false, i - 1, x),
            1 <= j <= len + 1,
            row@.len() == j,
            forall|x: int| 0 <= x < j ==> #[trigger] row@[x] == cell(q, w, eqs, false, i as int, x),
        decreases len + 1 - j,
    {
        proof {
            lemma_cell_recurrence(q, w, eqs, false, i as int, j as int);
            lemma_cell_bounds(q, w, eqs, false, i - 1, j as int);
            lemma_cell_bounds(q, w, eqs, false, i as int, j - 1);
            lemma_cell_bounds(q, w, eqs, false, i - 1, j - 1);
            assert(alphabet.symbols()[qids@[i - 1] as int] == q[i - 1]);
            assert(alphabet.symbols()[wids@[j - 1] as int] == w[j - 1]);
        }
        let up = above[j] + 1;
        let left = row[j - 1] + 1;
        let diagonal = if alphabet.matches(qids[i - 1], wids[j - 1]) {
            above[j - 1]
        } else {
            above[j - 1] + 1
        };
        let mut least = if up <= left { up } else { left };
        if diagonal < least {
            least = diagonal;
        }
        row.push(least);
        j = j + 1;
    }
    row
}

/// The matrix of the query against the window, row by row.
fn score_matrix(
    alphabet: &Alphabet,
    qids: &Vec<u8>,
    wids: &Vec<u8>,
    Ghost(q): Ghost<Seq<u8>>,
    Ghost(w): Ghost<Seq<u8>>,
) -> (rows: Vec<Vec<u32>>)
    requires
        alphabet.wf(),
        alphabet.encodes(qids@, q),
        alphabet.encodes(wids@, w),
        q.len() <= MAX_SEQUENCE_LENGTH,
        w.len() <= MAX_SEQUENCE_LENGTH,
    ensures
        holds_matrix(rows@, q, w, alphabet.equalities(), (q.len() + 1) as int),
{
    let ghost eqs = alphabet.equalities();
    let m = qids.len();
    let mut rows: Vec<Vec<u32>> = Vec::new();
    rows.push(first_row(wids.len(), Ghost(q), Ghost(w), Ghost(eqs)));
    let mut i: usize = 1;
    while i <= m
        invariant
            alphabet.wf(),
            alphabet.encodes(qids@, q),
            alphabet.encodes(wids@, w),
            eqs == alphabet.equalities(),
            m == q.len(),
            m <= MAX_SEQUENCE_LENGTH,
            w.len() <= MAX_SEQUENCE_LENGTH,
            1 <= i <= m + 1,
            holds_matrix(rows@, q, w, eqs, i as int),
        decreases m + 1 - i,
    {
        let ghost before = rows@;
        assert forall|j: int| 0 <= j <= w.len() implies #[trigger] rows@[i - 1]@[j] == cell(
            q,
            w,
            eqs,
            false,
            i - 1,
            j,
        ) by {}
        let row = next_row(alphabet, qids, wids, &rows[i - 1], i, Ghost(q), Ghost(w));
        rows.push(row);
        proof {
            assert forall|x: int| 0 <= x < i + 1 implies (#[trigger] rows@[x])@.len() == w.len()
                + 1 by {
                if x < i {
                    assert(rows@[x] == before[x]);
                }
            }
            assert forall|x: int, j: int| 0 <= x < i + 1 && 0 <= j <= w.len() implies #[trigger] rows@[x]@[j]
                == cell(q, w, eqs, false, x, j) by {
                if x < i {
                    assert(rows@[x] == before[x]);
                    assert(before[x]@[j] == cell(q, w, eqs, false, x, j));
                }
            }
        }
        i = i + 1;
    }
    rows
}

/// The edit operations of one best alignment of the whole query with the
/// whole window, in the order of the sequences.
pub fn alignment_path(alphabet: &Alphabet, query: &[u8], window: &[u8]) -> (path: Vec<EdlibEdopRs>)
    requires
        alphabet.wf(),
        alphabet.covers(query@),
        alphabet.covers(window@),
        query.len() <= MAX_SEQUENCE_LENGTH,
        window.len() <= MAX_SEQUENCE_LENGTH,
    ensures
        path@ == best_path(query@, window@, alphabet.equalities()),
{
    let ghost q = query@;
    let ghost w = window@;
    let ghost eqs = alphabet.equalities();
    let qids = alphabet.encode(query);
    let wids = alphabet.encode(window);
    let rows = score_matrix(alphabet, &qids, &wids, Ghost(q), Ghost(w));
    let mut back: Vec<EdlibEdopRs> = Vec::new();
    let mut i: usize = query.len();
    let mut j: usize = window.len();
    assert(traceback(q, w, eqs, i as int, j as int) + back@.reverse() =~= best_path(q, w, eqs));
    while i > 0 || j > 0
        invariant
            alphabet.wf(),
            alphabet.encodes(qids@, q),
            alphabet.encodes(wids@, w),
            eqs == alphabet.equalities(),
            q.len() <= MAX_SEQUENCE_LENGTH,
            w.len() <= MAX_SEQUENCE_LENGTH,
            holds_matrix(rows@, q, w, eqs, (q.len() + 1) as int),
            i <= q.len(),
            j <= w.len(),
            back@.len() + i + j <= 2 * (q.len() + w.len()),
            traceback(q, w, eqs, i as int, j as int) + back@.reverse() == best_path(q, w, eqs),
        decreases i + j,
    {
        let ghost here = traceback(q, w, eqs, i as int, j as int);
        let ghost back_before = back@;
        let op: EdlibEdopRs;
        if i == 0 {
            op = EdlibEdopRs::EDLIB_EDOP_INSERT;
            j = j - 1;
        } else if j == 0 {
            op = EdlibEdopRs::EDLIB_EDOP_DELETE;
            i = i - 1;
        } else {
            proof {
                assert(alphabet.symbols()[qids@[i - 1] as int] == q[i - 1]);
                assert(alphabet.symbols()[wids@[j - 1] as int] == w[j - 1]);
                assert(rows@[i as int]@[j as int] == cell(q, w, eqs, false, i as int, j as int));
                assert(rows@[i - 1]@[j - 1] == cell(q, w, eqs, false, i - 1, j - 1));
                assert(rows@[i - 1]@[j as int] == cell(q, w, eqs, false, i - 1, j as int));
                lemma_cell_bounds(q, w, eqs, false, i - 1, j - 1);
                lemma_cell_bounds(q, w, eqs, false, i - 1, j as int);
            }
            let here_cost = rows[i][j];
            let diagonal = rows[i - 1][j - 1];
            if diagonal == here_cost && alphabet.matches(qids[i - 1], wids[j - 1]) {
                op = EdlibEdopRs::EDLIB_EDOP_MATCH;
                i = i - 1;
                j = j - 1;
            } else if diagonal + 1 == here_cost {
                op = EdlibEdopRs::EDLIB_EDOP_MISMATCH;
                i = i - 1;
                j = j - 1;
            } else if rows[i - 1][j] + 1 == here_cost {
                op = EdlibEdopRs::EDLIB_EDOP_DELETE;
                i = i - 1;
            } else {
                op = EdlibEdopRs::EDLIB_EDOP_INSERT;
                j = j - 1;
            }
        }
        back.push(op);
        proof {
            assert(here == traceback(q, w, eqs, i as int, j as int).push(op));
            assert(back@.reverse() =~= seq![op] + back_before.reverse());
            assert(traceback(q, w, eqs, i as int, j as int) + back@.reverse() =~= here
                + back_before.reverse());
        }
    }
    let mut path: Vec<EdlibEdopRs> = Vec::new();
    let mut r: usize = back.len();
    while r > 0
        invariant
            r <= back.len(),
            path@.len() == back.len() - r,
            forall|x: int| 0 <= x < path@.len() ==> path@[x] == back@[back.len() - 1 - x],
        decreases r,
    {
        r = r - 1;
        path.push(back[r]);
    }
    assert(path@ =~= back@.reverse());
    assert(traceback(q, w, eqs, 0, 0) + back@.reverse() =~= back@.reverse());
    path
}

/// What an edit operation costs: nothing for a match, one for any other.
pub open spec fn op_cost(op: EdlibEdopRs) -> int {
    if op == EdlibEdopRs::EDLIB_EDOP_MATCH {
        0
    } else {
        1
    }
}

/// The cost of a path: the number of its operations that are no match.
pub open spec fn path_cost(ops: Seq<EdlibEdopRs>) -> int
    decreases ops.len(),
{
    if ops.len() == 0 {
        0
    } else {
        path_cost(ops.drop_last()) + op_cost(ops.last())
    }
}

/// The number of operations of a path that take a symbol of the query:
/// matches, mismatches and deletions from the target.
pub open spec fn query_taken(ops: Seq<EdlibEdopRs>) -> int
    decreases ops.len(),
{
    if ops.len() == 0 {
        0
    } else {
        query_taken(ops.drop_last()) + if ops.last() == EdlibEdopRs::EDLIB_EDOP_INSERT {
            0int
        } else {
            1int
        }
    }
}

/// The number of operations of a path that take a symbol of the target:
/// matches, mismatches and insertions to the target.
pub open spec fn target_taken(ops: Seq<EdlibEdopRs>) -> int
    decreases ops.len(),
{
    if ops.len() == 0 {
        0
    } else {
        target_taken(ops.drop_last()) + if ops.last() == EdlibEdopRs::EDLIB_EDOP_DELETE {
            0int
        } else {
            1int
        }
    }
}

/// Whether `ops` is an alignment of the first `i` symbols of `q` with the
/// first `j` symbols of `w`: its operations take exactly those symbols, in
/// order, a match pairs two symbols that match and a mismatch two that do not.
pub open spec fn aligns(
    ops: Seq<EdlibEdopRs>,
    q: Seq<u8>,
    w: Seq<u8>,
    eqs: Seq<(u8, u8)>,
    i: int,
    j: int,
) -> bool
    decreases ops.len(),
{
    if ops.len() == 0 {
        i == 0 && j == 0
    } else {
        match ops.last() {
            EdlibEdopRs::EDLIB_EDOP_MATCH => i > 0 && j > 0 && symbols_match(
                eqs,
                q[i - 1],
                w[j - 1],
            ) && aligns(ops.drop_last(), q, w, eqs, i - 1, j - 1),
            EdlibEdopRs::EDLIB_EDOP_MISMATCH => i > 0 && j > 0 && !symbols_match(
                eqs,
                q[i - 1],
                w[j - 1],
            ) && aligns(ops.drop_last(), q, w, eqs, i - 1, j - 1),
            EdlibEdopRs::EDLIB_EDOP_INSERT => j > 0 && aligns(ops.drop_last(), q, w, eqs, i, j - 1),
            EdlibEdopRs::EDLIB_EDOP_DELETE => i > 0 && aligns(ops.drop_last(), q, w, eqs, i - 1, j),
        }
    }
}

/// The sequence that `ops` makes of the first `i` symbols of `q`: a match
/// keeps the symbol of the query, a mismatch and an insertion put the symbol of
/// the target, a deletion drops the symbol of the query.
pub open spec fn replay(ops: Seq<EdlibEdopRs>, q: Seq<u8>, w: Seq<u8>, i: int, j: int) -> Seq<u8>
    decreases ops.len(),
{
    if ops.len() == 0 {
        Seq::empty()
    } else {
        match ops.last() {
            EdlibEdopRs::EDLIB_EDOP_MATCH => replay(ops.drop_last(), q, w, i - 1, j - 1).push(
                q[i - 1],
            ),
            EdlibEdopRs::EDLIB_EDOP_MISMATCH => replay(ops.drop_last(), q, w, i - 1, j - 1).push(
                w[j - 1],
            ),
            EdlibEdopRs::EDLIB_EDOP_INSERT => replay(ops.drop_last(), q, w, i, j - 1).push(w[j - 1]),
            EdlibEdopRs::EDLIB_EDOP_DELETE => replay(ops.drop_last(), q, w, i - 1, j),
        }
    }
}

/// The path that the walk back finds is an alignment, and its cost is the cell
/// that the walk starts from.
pub proof fn lemma_traceback_aligns(q: Seq<u8>, w: Seq<u8>, eqs: Seq<(u8, u8)>, i: int, j: int)
    requires
        0 <= i,
        0 <= j,
    ensures
        aligns(traceback(q, w, eqs, i, j), q, w, eqs, i, j),
        path_cost(traceback(q, w, eqs, i, j)) == cell(q, w, eqs, false, i, j),
    decreases i + j,
{
    let path = traceback(q, w, eqs, i, j);
    lemma_cell_borders(q, w, eqs, false, i, j);
    if i > 0 && j > 0 {
        lemma_cell_recurrence(q, w, eqs, false, i, j);
        lemma_cell_neighbours(q, w, eqs, false, i, j);
        lemma_cell_neighbours(q, w, eqs, false, i - 1, j);
        lemma_cell_neighbours(q, w, eqs, false, i, j - 1);
        lemma_traceback_aligns(q, w, eqs, i - 1, j - 1);
        lemma_traceback_aligns(q, w, eqs, i - 1, j);
        lemma_traceback_aligns(q, w, eqs, i, j - 1);
        let d = cell(q, w, eqs, false, i, j);
        if symbols_match(eqs, q[i - 1], w[j - 1]) && cell(q, w, eqs, false, i - 1, j - 1) == d {
            assert(path.drop_last() =~= traceback(q, w, eqs, i - 1, j - 1));
        } else if cell(q, w, eqs, false, i - 1, j - 1) + 1 == d {
            assert(path.drop_last() =~= traceback(q, w, eqs, i - 1, j - 1));
        } else if cell(q, w, eqs, false, i - 1, j) + 1 == d {
            assert(path.drop_last() =~= traceback(q, w, eqs, i - 1, j));
        } else {
            assert(path.drop_last() =~= traceback(q, w, eqs, i, j - 1));
        }
    } else if i > 0 {
        lemma_traceback_aligns(q, w, eqs, i - 1, j);
        lemma_cell_borders(q, w, eqs, false, i - 1, j);
        assert(path.drop_last() =~= traceback(q, w, eqs, i - 1, j));
    } else if j > 0 {
        lemma_traceback_aligns(q, w, eqs, i, j - 1);
        lemma_cell_borders(q, w, eqs, false, i, j - 1);
        assert(path.drop_last() =~= traceback(q, w, eqs, i, j - 1));
    }
}

/// An alignment takes each symbol of the two prefixes once, and costs no less
/// than the cell of the two prefixes.
pub proof fn lemma_alignment_counts(
    ops: Seq<EdlibEdopRs>,
    q: Seq<u8>,
    w: Seq<u8>,
    eqs: Seq<(u8, u8)>,
    i: int,
    j: int,
)
    requires
        aligns(ops, q, w, eqs, i, j),
    ensures
        0 <= i,
        0 <= j,
        query_taken(ops) == i,
        target_taken(ops) == j,
        path_cost(ops) >= cell(q, w, eqs, false, i, j),
    decreases ops.len(),
{
    lemma_cell_borders(q, w, eqs, false, i, j);
    if ops.len() > 0 {
        let rest = ops.drop_last();
        match ops.last() {
            EdlibEdopRs::EDLIB_EDOP_MATCH => {
                lemma_alignment_counts(rest, q, w, eqs, i - 1, j - 1);
                lemma_cell_recurrence(q, w, eqs, false, i, j);
            },
            EdlibEdopRs::EDLIB_EDOP_MISMATCH => {
                lemma_alignment_counts(rest, q, w, eqs, i - 1, j - 1);
                lemma_cell_recurrence(q, w, eqs, false, i, j);
            },
            EdlibEdopRs::EDLIB_EDOP_INSERT => {
                lemma_alignment_counts(rest, q, w, eqs, i, j - 1);
                lemma_cell_borders(q, w, eqs, false, i, j - 1);
                if i > 0 {
                    lemma_cell_recurrence(q, w, eqs, false, i, j);
                }
            },
            EdlibEdopRs::EDLIB_EDOP_DELETE => {
                lemma_alignment_counts(rest, q, w, eqs, i - 1, j);
                lemma_cell_borders(q, w, eqs, false, i - 1, j);
                if j > 0 {
                    lemma_cell_recurrence(q, w, eqs, false, i, j);
                }
            },
        }
    }
}

/// Replaying an alignment rebuilds the prefix of the target, symbol by symbol
/// up to matching; where only equal symbols match, it rebuilds it exactly.
pub proof fn lemma_replay_rebuilds(
    ops: Seq<EdlibEdopRs>,
    q: Seq<u8>,
    w: Seq<u8>,
    eqs: Seq<(u8, u8)>,
    i: int,
    j: int,
)
    requires
        aligns(ops, q, w, eqs, i, j),
        j <= w.len(),
    ensures
        replay(ops, q, w, i, j).len() == j,
        forall|x: int|
            0 <= x < j ==> symbols_match(eqs, #[trigger] replay(ops, q, w, i, j)[x], w[x]),
        eqs.len() == 0 ==> replay(ops, q, w, i, j) == w.take(j),
    decreases ops.len(),
{
    lemma_alignment_counts(ops, q, w, eqs, i, j);
    let out = replay(ops, q, w, i, j);
    if ops.len() > 0 {
        let rest = ops.drop_last();
        match ops.last() {
            EdlibEdopRs::EDLIB_EDOP_MATCH => {
                lemma_replay_rebuilds(rest, q, w, eqs, i - 1, j - 1);
                let before = replay(rest, q, w, i - 1, j - 1);
                assert forall|x: int| 0 <= x < j implies symbols_match(
                    eqs,
                    #[trigger] out[x],
                    w[x],
                ) by {
                    if x < j - 1 {
                        assert(out[x] == before[x]);
                    }
                }
                if eqs.len() == 0 {
                    assert(out =~= w.take(j));
                }
            },
            EdlibEdopRs::EDLIB_EDOP_MISMATCH => {
                lemma_replay_rebuilds(rest, q, w, eqs, i - 1, j - 1);
                let before = replay(rest, q, w, i - 1, j - 1);
                assert forall|x: int| 0 <= x < j implies symbols_match(
                    eqs,
                    #[trigger] out[x],
                    w[x],
                ) by {
                    if x < j - 1 {
                        assert(out[x] == before[x]);
                    }
                }
                if eqs.len() == 0 {
                    assert(out =~= w.take(j));
                }
            },
            EdlibEdopRs::EDLIB_EDOP_INSERT => {
                lemma_replay_rebuilds(rest, q, w, eqs, i, j - 1);
                let before = replay(rest, q, w, i, j - 1);
                assert forall|x: int| 0 <= x < j implies symbols_match(
                    eqs,
                    #[trigger] out[x],
                    w[x],
                ) by {
                    if x < j - 1 {
                        assert(out[x] == before[x]);
                    }
                }
                if eqs.len() == 0 {
                    assert(out =~= w.take(j));
                }
            },
            EdlibEdopRs::EDLIB_EDOP_DELETE => {
                lemma_replay_rebuilds(rest, q, w, eqs, i - 1, j);
            },
        }
    } else {
        assert(out =~= w.take(j));
    }
}

} // verus!
