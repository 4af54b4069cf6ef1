//! Laws of the alignment: what holds of the distances, the locations and the
//! path for all sequences.
use vstd::prelude::*;
use crate::distance::{
    global_distance, lemma_cell_borders, lemma_cell_diagonal_of_self, lemma_cell_reads_prefixes,
    lemma_cell_transposed, lemma_free_start_is_cheaper,
};
use crate::alphabet::lemma_alphabet_fits;
use crate::edlib::{
    engine_accepts, expected_outcome, first_path, lemma_first_start, EdlibAlignModeRs,
    EdlibAlignTaskRs, EdlibEdopRs, EDLIB_STATUS_ERROR, MAX_SEQUENCE_LENGTH,
};
use crate::windows::window_distance;
use crate::locate::{least, lemma_first_position, lemma_least};
use crate::search::{
    best_distance, best_ends, best_starts, is_degenerate, last_row, lemma_best_ends,
    lemma_some_window_is_best, starts_free, window_row,
};
use crate::traceback::{
    aligns, best_path, lemma_alignment_counts, lemma_replay_rebuilds, lemma_traceback_aligns,
    path_cost, query_taken, replay, target_taken,
};

verus! {

/// The global distance of two sequences does not depend on their order.
pub proof fn law_global_distance_is_symmetric(a: Seq<u8>, b: Seq<u8>, eqs: Seq<(u8, u8)>)
    ensures
        best_distance(a, b, eqs, EdlibAlignModeRs::EDLIB_MODE_NW) == best_distance(
            b,
            a,
            eqs,
            EdlibAlignModeRs::EDLIB_MODE_NW,
        ),
{
    lemma_cell_transposed(a, b, eqs, a.len() as int, b.len() as int);
}

/// The global distance of a sequence to itself is zero.
pub proof fn law_distance_to_self_is_zero(a: Seq<u8>, eqs: Seq<(u8, u8)>)
    ensures
        best_distance(a, a, eqs, EdlibAlignModeRs::EDLIB_MODE_NW) == 0,
{
    lemma_cell_diagonal_of_self(a, eqs, a.len() as int);
}

/// Two bounds that are both at or above the distance give the same result.
pub proof fn law_enough_bound_is_any_bound(
    q: Seq<u8>,
    t: Seq<u8>,
    k1: int,
    k2: int,
    mode: EdlibAlignModeRs,
    task: EdlibAlignTaskRs,
    eqs: Seq<(u8, u8)>,
)
    requires
        0 <= k1 < k2,
        best_distance(q, t, eqs, mode) <= k1,
    ensures
        expected_outcome(q, t, k1, mode, task, eqs) == expected_outcome(q, t, k2, mode, task, eqs),
{
}

/// If every entry of one row is at most the entry of another, so is its least entry.
proof fn lemma_least_is_monotone(a: Seq<int>, b: Seq<int>)
    requires
        a.len() == b.len(),
        a.len() >= 1,
        forall|i: int| 0 <= i < a.len() ==> a[i] <= b[i],
    ensures
        least(a) <= least(b),
{
    lemma_least(a);
    lemma_least(b);
    let w = choose|i: int| 0 <= i < b.len() && b[i] == least(b);
    assert(least(a) <= a[w]);
}

/// The freer the ends of the target, the smaller the distance: the infix
/// distance is at most the prefix distance, which is at most the global distance.
pub proof fn law_freer_modes_cost_less(q: Seq<u8>, t: Seq<u8>, eqs: Seq<(u8, u8)>)
    ensures
        best_distance(q, t, eqs, EdlibAlignModeRs::EDLIB_MODE_HW) <= best_distance(
            q,
            t,
            eqs,
            EdlibAlignModeRs::EDLIB_MODE_SHW,
        ) <= best_distance(q, t, eqs, EdlibAlignModeRs::EDLIB_MODE_NW),
{
    let m = q.len() as int;
    let n = t.len() as int;
    if is_degenerate(q, t) {
        lemma_cell_borders(q, t, eqs, false, m, n);
    } else {
        let free = last_row(q, t, eqs, true);
        let charged = last_row(q, t, eqs, false);
        assert forall|i: int| 0 <= i < free.len() implies free[i] <= charged[i] by {
            lemma_free_start_is_cheaper(q, t, eqs, m, i + 1);
        }
        lemma_least_is_monotone(free, charged);
        lemma_least(charged);
        assert(least(charged) <= charged[n - 1]);
    }
}

/// The window of the target that the reported path aligns: from the first
/// start to the first end, both included.
pub open spec fn first_window(
    q: Seq<u8>,
    t: Seq<u8>,
    eqs: Seq<(u8, u8)>,
    mode: EdlibAlignModeRs,
) -> Seq<u8> {
    t.subrange(best_starts(q, t, eqs, mode)[0], best_ends(q, t, eqs, mode)[0] + 1)
}

/// The distance of the query to the window between the first start and the
/// first end is the best distance.
pub proof fn law_first_window_has_best_distance(
    q: Seq<u8>,
    t: Seq<u8>,
    eqs: Seq<(u8, u8)>,
    mode: EdlibAlignModeRs,
)
    ensures
        global_distance(q, first_window(q, t, eqs, mode), eqs) == best_distance(q, t, eqs, mode),
{
    let m = q.len() as int;
    let n = t.len() as int;
    let e = best_ends(q, t, eqs, mode)[0];
    let s = best_starts(q, t, eqs, mode)[0];
    let w = first_window(q, t, eqs, mode);
    let d = best_distance(q, t, eqs, mode);
    lemma_best_ends(q, t, eqs, mode);
    lemma_first_start(q, t, eqs, mode);
    if mode == EdlibAlignModeRs::EDLIB_MODE_NW {
        assert(w =~= t);
    } else if is_degenerate(q, t) {
        lemma_cell_borders(q, w, eqs, false, m, 0);
    } else if starts_free(mode) {
        assert(last_row(q, t, eqs, true)[e] == d);
        lemma_some_window_is_best(q, t, eqs, e);
        let x = choose|x: int| 0 <= x <= e && #[trigger] window_row(q, t, eqs, e)[x] == d;
        lemma_first_position(window_row(q, t, eqs, e), d, x);
        assert(window_row(q, t, eqs, e)[s] == d);
    } else {
        assert(last_row(q, t, eqs, false)[e] == d);
        lemma_cell_reads_prefixes(q, t, q, w, eqs, false, m, e + 1);
    }
}

/// The reported path is an alignment of the whole query with the window
/// between the first start and the first end. It takes each symbol of the
/// query and of the window once, and its cost is the best distance.
/// Replaying it on the query rebuilds the window, symbol by symbol up to
/// matching, and exactly where no symbols are declared equal.
pub proof fn law_path_rebuilds_window(
    q: Seq<u8>,
    t: Seq<u8>,
    eqs: Seq<(u8, u8)>,
    mode: EdlibAlignModeRs,
)
    ensures
        ({
            let w = first_window(q, t, eqs, mode);
            let path = first_path(q, t, eqs, mode);
            &&& aligns(path, q, w, eqs, q.len() as int, w.len() as int)
            &&& path_cost(path) == best_distance(q, t, eqs, mode)
            &&& query_taken(path) == q.len()
            &&& target_taken(path) == w.len()
            &&& replay(path, q, w, q.len() as int, w.len() as int).len() == w.len()
            &&& forall|x: int|
                0 <= x < w.len() ==> crate::distance::symbols_match(
                    eqs,
                    #[trigger] replay(path, q, w, q.len() as int, w.len() as int)[x],
                    w[x],
                )
            &&& eqs.len() == 0 ==> replay(path, q, w, q.len() as int, w.len() as int) == w
        }),
{
    let w = first_window(q, t, eqs, mode);
    let path = first_path(q, t, eqs, mode);
    law_first_window_has_best_distance(q, t, eqs, mode);
    lemma_traceback_aligns(q, w, eqs, q.len() as int, w.len() as int);
    lemma_alignment_counts(path, q, w, eqs, q.len() as int, w.len() as int);
    lemma_replay_rebuilds(path, q, w, eqs, q.len() as int, w.len() as int);
    assert(w.take(w.len() as int) =~= w);
}

/// No alignment of the query with a window costs less than their distance.
pub proof fn law_no_alignment_is_cheaper(
    ops: Seq<EdlibEdopRs>,
    q: Seq<u8>,
    w: Seq<u8>,
    eqs: Seq<(u8, u8)>,
)
    requires
        aligns(ops, q, w, eqs, q.len() as int, w.len() as int),
    ensures
        path_cost(ops) >= global_distance(q, w, eqs),
        path_cost(best_path(q, w, eqs)) == global_distance(q, w, eqs),
{
    lemma_alignment_counts(ops, q, w, eqs, q.len() as int, w.len() as int);
    lemma_traceback_aligns(q, w, eqs, q.len() as int, w.len() as int);
}

/// The engine takes every pair of sequences that are not too long: no
/// sequences of bytes hold too many symbols.
pub proof fn law_engine_accepts_by_length(q: Seq<u8>, t: Seq<u8>)
    ensures
        engine_accepts(q, t) <==> q.len() <= MAX_SEQUENCE_LENGTH && t.len() <= MAX_SEQUENCE_LENGTH,
{
    lemma_alphabet_fits(q + t);
}

/// A result is consistent: without a distance it holds no locations and no
/// path; there are as many starts as ends; the counts are those of the lists.
pub proof fn law_outcome_is_consistent(
    q: Seq<u8>,
    t: Seq<u8>,
    k: int,
    mode: EdlibAlignModeRs,
    task: EdlibAlignTaskRs,
    eqs: Seq<(u8, u8)>,
)
    ensures
        ({
            let o = expected_outcome(q, t, k, mode, task, eqs);
            &&& o.status == EDLIB_STATUS_ERROR <==> !engine_accepts(q, t)
            &&& o.distance >= -1
            &&& o.distance == -1 ==> o.ends is None && o.starts is None && o.path is None
            &&& k >= 0 ==> o.distance <= k
            &&& o.ends is None ==> o.locations == 0
            &&& o.ends matches Some(ends) ==> ends.len() == o.locations && ends.len() >= 1
            &&& o.starts matches Some(starts) ==> o.ends is Some && starts.len() == o.locations
            &&& o.path is None ==> o.path_length == 0
            &&& o.path matches Some(path) ==> o.starts is Some && path.len() == o.path_length
        }),
{
    crate::search::lemma_best_distance_bounds(q, t, eqs, mode);
    lemma_best_ends(q, t, eqs, mode);
}

/// The prefix distance is the least distance of the query to a prefix of the
/// target that is not empty, where neither sequence is empty.
pub proof fn law_prefix_distance_is_least_over_prefixes(
    q: Seq<u8>,
    t: Seq<u8>,
    eqs: Seq<(u8, u8)>,
)
    requires
        !is_degenerate(q, t),
    ensures
        forall|e: int|
            0 <= e < t.len() ==> best_distance(q, t, eqs, EdlibAlignModeRs::EDLIB_MODE_SHW)
                <= #[trigger] window_distance(q, t, eqs, 0, e + 1),
        exists|e: int|
            0 <= e < t.len() && #[trigger] window_distance(q, t, eqs, 0, e + 1) == best_distance(
                q,
                t,
                eqs,
                EdlibAlignModeRs::EDLIB_MODE_SHW,
            ),
{
    let m = q.len() as int;
    let row = last_row(q, t, eqs, false);
    lemma_least(row);
    assert forall|e: int| 0 <= e < t.len() implies #[trigger] window_distance(q, t, eqs, 0, e + 1)
        == row[e] by {
        lemma_cell_reads_prefixes(q, t, q, t.subrange(0, e + 1), eqs, false, m, e + 1);
    }
    let w = choose|i: int| 0 <= i < row.len() && row[i] == least(row);
    assert(window_distance(q, t, eqs, 0, w + 1) == least(row));
}

/// The infix distance is the least distance of the query to a window of the
/// target that is not empty, where neither sequence is empty.
pub proof fn law_infix_distance_is_least_over_windows(
    q: Seq<u8>,
    t: Seq<u8>,
    eqs: Seq<(u8, u8)>,
)
    requires
        !is_degenerate(q, t),
    ensures
        forall|s: int, e: int|
            0 <= s <= e < t.len() ==> best_distance(q, t, eqs, EdlibAlignModeRs::EDLIB_MODE_HW)
                <= #[trigger] window_distance(q, t, eqs, s, e + 1),
        exists|s: int, e: int|
            0 <= s <= e < t.len() && #[trigger] window_distance(q, t, eqs, s, e + 1)
                == best_distance(q, t, eqs, EdlibAlignModeRs::EDLIB_MODE_HW),
{
    let row = last_row(q, t, eqs, true);
    lemma_least(row);
    assert forall|s: int, e: int| 0 <= s <= e < t.len() implies least(row)
        <= #[trigger] window_distance(q, t, eqs, s, e + 1) by {
        lemma_some_window_is_best(q, t, eqs, e);
        assert(least(row) <= row[e]);
        assert(window_row(q, t, eqs, e)[s] == window_distance(q, t, eqs, s, e + 1));
    }
    let w = choose|i: int| 0 <= i < row.len() && row[i] == least(row);
    lemma_some_window_is_best(q, t, eqs, w);
    let s = choose|s: int| 0 <= s <= w && #[trigger] window_row(q, t, eqs, w)[s] == row[w];
    assert(window_distance(q, t, eqs, s, w + 1) == least(row));
}

} // verus!
