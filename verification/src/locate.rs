//! Finding locations: the least cost of a row of costs, and the positions
//! that hold a given cost.
use vstd::prelude::*;
use crate::band::capped;
use crate::distance::min2;
use crate::edlib::MAX_SEQUENCE_LENGTH;

verus! {

/// The least entry of a sequence that is not empty.
pub open spec fn least(s: Seq<int>) -> int
    decreases s.len(),
{
    if s.len() <= 1 {
        s[0]
    } else {
        min2(least(s.drop_last()), s.last())
    }
}

/// The positions of `s` that hold `v`, in increasing order.
pub open spec fn positions_of(s: Seq<int>, v: int) -> Seq<int>
    decreases s.len(),
{
    if s.len() == 0 {
        Seq::empty()
    } else if s.last() == v {
        positions_of(s.drop_last(), v).push(s.len() - 1)
    } else {
        positions_of(s.drop_last(), v)
    }
}

/// The entries of a row of costs as integers.
pub open spec fn ints(s: Seq<usize>) -> Seq<int> {
    Seq::new(s.len(), |i: int| s[i] as int)
}

/// Positions in the target as integers.
pub open spec fn places(s: Seq<i32>) -> Seq<int> {
    Seq::new(s.len(), |i: int| s[i] as int)
}

/// Each entry of `s` capped at one above `k`.
pub open spec fn capped_all(s: Seq<int>, k: int) -> Seq<int> {
    Seq::new(s.len(), |i: int| capped(s[i], k))
}

/// The least entry is an entry, and no entry is below it.
pub proof fn lemma_least(s: Seq<int>)
    requires
        s.len() >= 1,
    ensures
        forall|i: int| 0 <= i < s.len() ==> least(s) <= #[trigger] s[i],
        exists|i: int| 0 <= i < s.len() && s[i] == least(s),
    decreases s.len(),
{
    if s.len() > 1 {
        let head = s.drop_last();
        lemma_least(head);
        assert forall|i: int| 0 <= i < s.len() implies least(s) <= #[trigger] s[i] by {
            if i < head.len() {
                assert(head[i] == s[i]);
            }
        }
        let w = choose|i: int| 0 <= i < head.len() && head[i] == least(head);
        assert(head[w] == s[w]);
        if least(s) == s.last() {
            assert(s[s.len() - 1] == least(s));
        } else {
            assert(s[w] == least(s));
        }
    } else {
        assert(s[0] == least(s));
    }
}

/// The positions of a value are exactly the places that hold it, each once,
/// in increasing order.
pub proof fn lemma_positions_of(s: Seq<int>, v: int)
    ensures
        positions_of(s, v).len() <= s.len(),
        forall|x: int|
            0 <= x < positions_of(s, v).len() ==> 0 <= #[trigger] positions_of(s, v)[x] < s.len()
                && s[positions_of(s, v)[x]] == v,
        forall|x: int, y: int|
            0 <= x < y < positions_of(s, v).len() ==> positions_of(s, v)[x] < positions_of(s, v)[y],
        forall|i: int| 0 <= i < s.len() && s[i] == v ==> positions_of(s, v).contains(i),
    decreases s.len(),
{
    if s.len() > 0 {
        let head = s.drop_last();
        lemma_positions_of(head, v);
        let p = positions_of(s, v);
        let ph = positions_of(head, v);
        assert forall|x: int| 0 <= x < p.len() implies 0 <= #[trigger] p[x] < s.len() && s[p[x]]
            == v by {
            if x < ph.len() {
                assert(p[x] == ph[x]);
                assert(head[ph[x]] == s[ph[x]]);
            }
        }
        assert forall|x: int, y: int| 0 <= x < y < p.len() implies p[x] < p[y] by {
            if y < ph.len() {
                assert(p[x] == ph[x] && p[y] == ph[y]);
            } else {
                assert(p[x] == ph[x]);
            }
        }
        assert forall|i: int| 0 <= i < s.len() && s[i] == v implies p.contains(i) by {
            if i < head.len() {
                assert(head[i] == s[i]);
                assert(ph.contains(i));
                let x = choose|x: int| 0 <= x < ph.len() && ph[x] == i;
                assert(p[x] == i);
            } else {
                assert(p[p.len() - 1] == i);
            }
        }
    }
}

/// Where some place holds the value, the first of its positions is the first such place.
pub proof fn lemma_first_position(s: Seq<int>, v: int, at: int)
    requires
        0 <= at < s.len(),
        s[at] == v,
    ensures
        positions_of(s, v).len() >= 1,
        0 <= positions_of(s, v)[0] <= at,
        s[positions_of(s, v)[0]] == v,
        forall|i: int| 0 <= i < positions_of(s, v)[0] ==> s[i] != v,
{
    lemma_positions_of(s, v);
    let p = positions_of(s, v);
    assert(p.contains(at));
    let x = choose|x: int| 0 <= x < p.len() && p[x] == at;
    assert(p[0] <= p[x]);
    assert forall|i: int| 0 <= i < p[0] implies s[i] != v by {
        if s[i] == v {
            assert(p.contains(i));
            let y = choose|y: int| 0 <= y < p.len() && p[y] == i;
            assert(p[0] <= p[y]);
        }
    }
}

/// Capping every entry caps the least entry.
pub proof fn lemma_least_of_capped(s: Seq<int>, k: int)
    requires
        s.len() >= 1,
    ensures
        least(capped_all(s, k)) == capped(least(s), k),
    decreases s.len(),
{
    if s.len() > 1 {
        lemma_least_of_capped(s.drop_last(), k);
        assert(capped_all(s, k).drop_last() =~= capped_all(s.drop_last(), k));
    }
}

/// A value within the bound sits at the same places before and after capping.
pub proof fn lemma_positions_of_capped(s: Seq<int>, k: int, v: int)
    requires
        v <= k,
    ensures
        positions_of(capped_all(s, k), v) == positions_of(s, v),
    decreases s.len(),
{
    if s.len() > 0 {
        lemma_positions_of_capped(s.drop_last(), k, v);
        assert(capped_all(s, k).drop_last() =~= capped_all(s.drop_last(), k));
    }
}

/// The least entry of a row of costs.
pub fn least_entry(row: &Vec<usize>) -> (best: usize)
    requires
        row.len() >= 1,
    ensures
        best == least(ints(row@)),
{
    let mut best = row[0];
    let mut i: usize = 1;
    assert(ints(row@).take(1) =~= seq![row@[0] as int]);
    while i < row.len()
        invariant
            1 <= i <= row.len(),
            best == least(ints(row@).take(i as int)),
        decreases row.len() - i,
    {
        assert(ints(row@).take(i + 1).drop_last() =~= ints(row@).take(i as int));
        if row[i] < best {
            best = row[i];
        }
        i = i + 1;
    }
    assert(ints(row@).take(row.len() as int) =~= ints(row@));
    best
}

/// The positions of a row of costs that hold `value`, in increasing order.
pub fn positions_of_value(row: &Vec<usize>, value: usize) -> (at: Vec<i32>)
    requires
        row.len() <= MAX_SEQUENCE_LENGTH,
    ensures
        places(at@) == positions_of(ints(row@), value as int),
{
    let mut at: Vec<i32> = Vec::new();
    let mut i: usize = 0;
    assert(places(at@) =~= positions_of(ints(row@).take(0), value as int));
    while i < row.len()
        invariant
            i <= row.len() <= MAX_SEQUENCE_LENGTH,
            places(at@) == positions_of(ints(row@).take(i as int), value as int),
        decreases row.len() - i,
    {
        assert(ints(row@).take(i + 1).drop_last() =~= ints(row@).take(i as int));
        let ghost before = at@;
        if row[i] == value {
            at.push(i as i32);
            assert(places(at@) =~= places(before).push(i as int));
        }
        i = i + 1;
    }
    assert(ints(row@).take(row.len() as int) =~= ints(row@));
    at
}

} // verus!
