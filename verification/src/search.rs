//! The search for the best alignments: what the best distance, the end
//! locations and the start locations are, and the bounded searches that find them.
use vstd::prelude::*;
use crate::alphabet::Alphabet;
use crate::band::capped;
use crate::distance::{
    cell, global_distance, lemma_cell_bounds, lemma_cell_reads_prefixes, max2,
};
use crate::edlib::{EdlibAlignModeRs, MAX_SEQUENCE_LENGTH};
use crate::engine::column_costs;
use crate::locate::{
    capped_all, ints, least, least_entry, lemma_first_position, lemma_least,
    lemma_least_of_capped, lemma_positions_of_capped, places, positions_of, positions_of_value,
};
use crate::profile::QueryProfile;
use crate::windows::{
    lemma_distance_of_reversed, lemma_free_start_below_spans, lemma_free_start_reaches_span,
    lemma_span_bounds, lemma_window_is_span, free_start_origin, span_cell, window_distance,
};

verus! {

/// Whether the mode lets the alignment start anywhere in the target at no cost.
pub open spec fn starts_free(mode: EdlibAlignModeRs) -> bool {
    mode == EdlibAlignModeRs::EDLIB_MODE_HW
}

/// Whether one of the sequences is empty. Such a pair has one alignment, which
/// takes no symbol of the target unless the mode is global.
pub open spec fn is_degenerate(q: Seq<u8>, t: Seq<u8>) -> bool {
    q.len() == 0 || t.len() == 0
}

/// For each position of the target, the cost of the best alignment of the
/// whole query that ends there.
pub open spec fn last_row(q: Seq<u8>, t: Seq<u8>, eqs: Seq<(u8, u8)>, free_start: bool) -> Seq<int> {
    Seq::new(t.len(), |c: int| cell(q, t, eqs, free_start, q.len() as int, c + 1))
}

/// The edit distance of the query to the target under `mode`: to the whole
/// target in the global mode, else the least cost over the positions of the
/// target where an alignment may end.
pub open spec fn best_distance(
    q: Seq<u8>,
    t: Seq<u8>,
    eqs: Seq<(u8, u8)>,
    mode: EdlibAlignModeRs,
) -> int {
    if mode == EdlibAlignModeRs::EDLIB_MODE_NW {
        global_distance(q, t, eqs)
    } else if is_degenerate(q, t) {
        q.len() as int
    } else {
        least(last_row(q, t, eqs, starts_free(mode)))
    }
}

/// The positions of the target where a best alignment ends, in increasing
/// order. The alignment that takes no symbol of the target ends at -1.
pub open spec fn best_ends(
    q: Seq<u8>,
    t: Seq<u8>,
    eqs: Seq<(u8, u8)>,
    mode: EdlibAlignModeRs,
) -> Seq<int> {
    if mode == EdlibAlignModeRs::EDLIB_MODE_NW {
        seq![t.len() - 1]
    } else if is_degenerate(q, t) {
        seq![-1int]
    } else {
        positions_of(last_row(q, t, eqs, starts_free(mode)), best_distance(q, t, eqs, mode))
    }
}

/// For each start `s` up to `e`, the distance of the whole query to the
/// window of the target from `s` to `e`, both included.
pub open spec fn window_row(q: Seq<u8>, t: Seq<u8>, eqs: Seq<(u8, u8)>, e: int) -> Seq<int> {
    Seq::new((e + 1) as nat, |s: int| window_distance(q, t, eqs, s, e + 1))
}

/// The starts of the alignments of cost `d` that end at `e`, in increasing order.
pub open spec fn starts_for(q: Seq<u8>, t: Seq<u8>, eqs: Seq<(u8, u8)>, d: int, e: int) -> Seq<
    int,
> {
    positions_of(window_row(q, t, eqs, e), d)
}

/// The start that is reported for the end `e`: the first start of a best
/// alignment that ends at `e` where the start is free, else the first
/// position of the target.
pub open spec fn best_start(
    q: Seq<u8>,
    t: Seq<u8>,
    eqs: Seq<(u8, u8)>,
    mode: EdlibAlignModeRs,
    e: int,
) -> int {
    if starts_free(mode) && e >= 0 {
        starts_for(q, t, eqs, best_distance(q, t, eqs, mode), e)[0]
    } else {
        0
    }
}

/// The start reported for each end.
pub open spec fn best_starts(
    q: Seq<u8>,
    t: Seq<u8>,
    eqs: Seq<(u8, u8)>,
    mode: EdlibAlignModeRs,
) -> Seq<int> {
    Seq::new(
        best_ends(q, t, eqs, mode).len(),
        |x: int| best_start(q, t, eqs, mode, best_ends(q, t, eqs, mode)[x]),
    )
}

/// Whether a distance is within the bound `k`; a negative `k` is no bound.
pub open spec fn within_bound(d: int, k: int) -> bool {
    k < 0 || d <= k
}

/// The best distance is never negative and never above the longer sequence.
pub proof fn lemma_best_distance_bounds(
    q: Seq<u8>,
    t: Seq<u8>,
    eqs: Seq<(u8, u8)>,
    mode: EdlibAlignModeRs,
)
    ensures
        0 <= best_distance(q, t, eqs, mode) <= max2(q.len() as int, t.len() as int),
{
    let m = q.len() as int;
    let n = t.len() as int;
    lemma_cell_bounds(q, t, eqs, false, m, n);
    if mode != EdlibAlignModeRs::EDLIB_MODE_NW && !is_degenerate(q, t) {
        let row = last_row(q, t, eqs, starts_free(mode));
        lemma_least(row);
        let w = choose|i: int| 0 <= i < row.len() && row[i] == least(row);
        lemma_cell_bounds(q, t, eqs, starts_free(mode), m, w + 1);
        lemma_cell_bounds(q, t, eqs, starts_free(mode), m, n);
        assert(least(row) <= row[n - 1]);
    }
}

/// There is a best end, except that the list is of one place in any case where
/// the pair is degenerate or the mode global.
pub proof fn lemma_best_ends(q: Seq<u8>, t: Seq<u8>, eqs: Seq<(u8, u8)>, mode: EdlibAlignModeRs)
    ensures
        best_ends(q, t, eqs, mode).len() >= 1,
        forall|x: int|
            0 <= x < best_ends(q, t, eqs, mode).len() ==> -1 <= #[trigger] best_ends(
                q,
                t,
                eqs,
                mode,
            )[x] < t.len(),
        mode != EdlibAlignModeRs::EDLIB_MODE_NW && !is_degenerate(q, t) ==> forall|x: int|
            0 <= x < best_ends(q, t, eqs, mode).len() ==> 0 <= #[trigger] best_ends(
                q,
                t,
                eqs,
                mode,
            )[x] && last_row(q, t, eqs, starts_free(mode))[best_ends(q, t, eqs, mode)[x]]
                == best_distance(q, t, eqs, mode),
{
    if mode != EdlibAlignModeRs::EDLIB_MODE_NW && !is_degenerate(q, t) {
        let row = last_row(q, t, eqs, starts_free(mode));
        lemma_least(row);
        let w = choose|i: int| 0 <= i < row.len() && row[i] == least(row);
        lemma_first_position(row, least(row), w);
        crate::locate::lemma_positions_of(row, least(row));
    }
}

/// The matrix of the reversed query against the reversed target up to `e`
/// holds, in its last row, the distances of the query to the windows that end at `e`.
pub proof fn lemma_reversed_window(q: Seq<u8>, t: Seq<u8>, eqs: Seq<(u8, u8)>, s: int, e: int)
    requires
        0 <= s <= e < t.len(),
    ensures
        cell(
            q.reverse(),
            t.subrange(0, e + 1).reverse(),
            eqs,
            false,
            q.len() as int,
            e + 1 - s,
        ) == window_distance(q, t, eqs, s, e + 1),
{
    let window = t.subrange(s, e + 1);
    let back = t.subrange(0, e + 1).reverse();
    assert forall|y: int| 0 <= y < e + 1 - s implies back[y] == window.reverse()[y] by {}
    lemma_cell_reads_prefixes(
        q.reverse(),
        back,
        q.reverse(),
        window.reverse(),
        eqs,
        false,
        q.len() as int,
        e + 1 - s,
    );
    lemma_distance_of_reversed(q, window, eqs);
}

/// With a free start, the cost of ending at `e` is the least distance of the
/// query to a window that ends at `e`, and some window that is not empty has it.
pub proof fn lemma_some_window_is_best(q: Seq<u8>, t: Seq<u8>, eqs: Seq<(u8, u8)>, e: int)
    requires
        q.len() >= 1,
        0 <= e < t.len(),
    ensures
        forall|s: int|
            0 <= s <= e ==> cell(q, t, eqs, true, q.len() as int, e + 1) <= #[trigger] window_row(
                q,
                t,
                eqs,
                e,
            )[s],
        exists|s: int|
            0 <= s <= e && #[trigger] window_row(q, t, eqs, e)[s] == cell(
                q,
                t,
                eqs,
                true,
                q.len() as int,
                e + 1,
            ),
{
    let m = q.len() as int;
    let d = cell(q, t, eqs, true, m, e + 1);
    assert forall|s: int| 0 <= s <= e implies d <= #[trigger] window_row(q, t, eqs, e)[s] by {
        lemma_free_start_below_spans(q, t, eqs, s, m, e + 1);
        lemma_window_is_span(q, t, eqs, s, e + 1);
    }
    lemma_free_start_reaches_span(q, t, eqs, m, e + 1);
    let origin = free_start_origin(q, t, eqs, m, e + 1);
    if origin <= e {
        lemma_window_is_span(q, t, eqs, origin, e + 1);
        assert(window_row(q, t, eqs, e)[origin] == d);
    } else {
        // the empty window costs the whole query, and a window of one symbol costs no more
        assert(span_cell(q, t, eqs, 0, e + 1, m, e + 1) == m) by {
            reveal(span_cell);
        }
        lemma_span_bounds(q, t, eqs, 0, e, m, e + 1);
        lemma_cell_bounds(q, t, eqs, true, m, e + 1);
        lemma_window_is_span(q, t, eqs, e, e + 1);
        assert(window_row(q, t, eqs, e)[e] == d);
    }
}

/// The symbols of `s` up to position `upto`, in reverse order.
pub fn reversed_prefix(s: &[u8], upto: usize) -> (r: Vec<u8>)
    requires
        upto <= s.len(),
    ensures
        r@ == s@.subrange(0, upto as int).reverse(),
{
    let mut r: Vec<u8> = Vec::new();
    let mut i: usize = upto;
    while i > 0
        invariant
            i <= upto <= s.len(),
            r@.len() == upto - i,
            forall|x: int| 0 <= x < r@.len() ==> r@[x] == s@[upto - 1 - x],
        decreases i,
    {
        i = i - 1;
        r.push(s[i]);
    }
    assert(r@ =~= s@.subrange(0, upto as int).reverse());
    r
}

/// The starts of the alignments of cost `d` that end at position `e` of the
/// target, in increasing order. `reversed` is the profile of the reversed query.
pub fn start_locations_for(
    alphabet: &Alphabet,
    reversed: &QueryProfile,
    target: &[u8],
    e: usize,
    d: usize,
) -> (starts: Vec<i32>)
    requires
        alphabet.wf(),
        reversed.wf_for(alphabet),
        alphabet.covers(target@),
        e < target.len() <= MAX_SEQUENCE_LENGTH,
        d <= MAX_SEQUENCE_LENGTH,
    ensures
        places(starts@) == starts_for(
            reversed.query().reverse(),
            target@,
            alphabet.equalities(),
            d as int,
            e as int,
        ),
{
    let ghost q = reversed.query().reverse();
    let ghost t = target@;
    let ghost eqs = alphabet.equalities();
    let back = reversed_prefix(target, e + 1);
    proof {
        assert(q.reverse() =~= reversed.query());
        assert forall|i: int| 0 <= i < back@.len() implies alphabet.symbols().contains(
            #[trigger] back@[i],
        ) by {
            assert(back@[i] == t[e - i]);
        }
    }
    let costs = column_costs(alphabet, reversed, back.as_slice(), false, d);
    let mut row: Vec<usize> = Vec::new();
    let mut s: usize = 0;
    while s <= e
        invariant
            s <= e + 1,
            e < t.len(),
            t.len() <= MAX_SEQUENCE_LENGTH,
            costs@.len() == e + 1,
            row@.len() == s,
            forall|x: int| 0 <= x < s ==> row@[x] == costs@[e - x],
        decreases e + 1 - s,
    {
        row.push(costs[e - s]);
        s = s + 1;
    }
    proof {
        assert forall|x: int| 0 <= x <= e implies #[trigger] ints(row@)[x] == capped(
            window_row(q, t, eqs, e as int)[x],
            d as int,
        ) by {
            assert(row@[x] == costs@[e - x]);
            lemma_reversed_window(q, t, eqs, x, e as int);
        }
        assert(ints(row@) =~= capped_all(window_row(q, t, eqs, e as int), d as int));
        lemma_positions_of_capped(window_row(q, t, eqs, e as int), d as int, d as int);
    }
    positions_of_value(&row, d)
}

/// A search bounded by `k`: the best distance and the ends of the best
/// alignments where the distance is within `k`, else nothing.
pub fn bounded_search(
    alphabet: &Alphabet,
    profile: &QueryProfile,
    target: &[u8],
    mode: EdlibAlignModeRs,
    k: usize,
) -> (found: Option<(usize, Vec<i32>)>)
    requires
        alphabet.wf(),
        profile.wf_for(alphabet),
        alphabet.covers(target@),
        1 <= target.len() <= MAX_SEQUENCE_LENGTH,
        1 <= profile.query().len(),
        k <= MAX_SEQUENCE_LENGTH,
    ensures
        found is Some <==> best_distance(profile.query(), target@, alphabet.equalities(), mode)
            <= k,
        found matches Some((d, ends)) ==> d == best_distance(
            profile.query(),
            target@,
            alphabet.equalities(),
            mode,
        ) && places(ends@) == best_ends(profile.query(), target@, alphabet.equalities(), mode),
{
    let ghost q = profile.query();
    let ghost t = target@;
    let ghost eqs = alphabet.equalities();
    let free_start = match mode {
        EdlibAlignModeRs::EDLIB_MODE_HW => true,
        _ => false,
    };
    let n = target.len();
    let costs = column_costs(alphabet, profile, target, free_start, k);
    proof {
        assert(ints(costs@) =~= capped_all(last_row(q, t, eqs, free_start), k as int));
        lemma_least_of_capped(last_row(q, t, eqs, free_start), k as int);
    }
    match mode {
        EdlibAlignModeRs::EDLIB_MODE_NW => {
            let d = costs[n - 1];
            if d <= k {
                let mut ends: Vec<i32> = Vec::new();
                ends.push((n - 1) as i32);
                assert(places(ends@) =~= seq![t.len() - 1]);
                Some((d, ends))
            } else {
                None
            }
        },
        _ => {
            let best = least_entry(&costs);
            if best <= k {
                proof {
                    lemma_positions_of_capped(last_row(q, t, eqs, free_start), k as int, best as int);
                }
                let ends = positions_of_value(&costs, best);
                Some((best, ends))
            } else {
                None
            }
        },
    }
}

/// The first bound that an unbounded search tries.
pub const FIRST_BOUND: usize = 64;

/// The search under the bound `k` of the caller. A bound that is not
/// negative is tried once. With a negative `k`, bounds are tried from
/// `FIRST_BOUND` on, each twice the one before, until the distance is found;
/// the length of the longer sequence is the last bound tried, and is enough.
pub fn search(
    alphabet: &Alphabet,
    profile: &QueryProfile,
    target: &[u8],
    mode: EdlibAlignModeRs,
    k: i32,
) -> (found: Option<(usize, Vec<i32>)>)
    requires
        alphabet.wf(),
        profile.wf_for(alphabet),
        alphabet.covers(target@),
        1 <= target.len() <= MAX_SEQUENCE_LENGTH,
        1 <= profile.query().len() <= MAX_SEQUENCE_LENGTH,
    ensures
        found is Some <==> within_bound(
            best_distance(profile.query(), target@, alphabet.equalities(), mode),
            k as int,
        ),
        found matches Some((d, ends)) ==> d == best_distance(
            profile.query(),
            target@,
            alphabet.equalities(),
            mode,
        ) && places(ends@) == best_ends(profile.query(), target@, alphabet.equalities(), mode),
{
    if k >= 0 {
        return bounded_search(alphabet, profile, target, mode, k as usize);
    }
    let m = profile.len();
    let n = target.len();
    let limit = if m >= n { m } else { n };
    let mut bound = if FIRST_BOUND < limit { FIRST_BOUND } else { limit };
    proof {
        lemma_best_distance_bounds(profile.query(), target@, alphabet.equalities(), mode);
    }
    loop
        invariant
            alphabet.wf(),
            profile.wf_for(alphabet),
            alphabet.covers(target@),
            1 <= target.len() <= MAX_SEQUENCE_LENGTH,
            1 <= profile.query().len() <= MAX_SEQUENCE_LENGTH,
            k < 0,
            limit == max2(profile.query().len() as int, target@.len() as int),
            1 <= bound <= limit,
            best_distance(profile.query(), target@, alphabet.equalities(), mode) <= limit,
        decreases limit - bound,
    {
        let found = bounded_search(alphabet, profile, target, mode, bound);
        if found.is_some() || bound >= limit {
            return found;
        }
        bound = if bound > limit / 2 { limit } else { bound * 2 };
    }
}

} // verus!
