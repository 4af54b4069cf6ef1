//! The alphabet of one alignment: the distinct symbols of the two sequences,
//! numbered in the order in which they first occur, and for each of them the
//! set of symbols that it matches.
use vstd::prelude::*;
use crate::bits::{bit, test_bit, with_bit};
use crate::distance::{pair_joins, symbols_match};
use crate::edlib::{pairs_of, EdlibEqualityPairRs, EngineError};

verus! {

/// The most symbols that an alphabet numbers; every set of bytes fits.
pub const MAX_ALPHABET_SIZE: usize = 256;

/// How many words hold one bit for each symbol of the largest alphabet.
pub const MASK_WORDS: usize = 4;

/// Marks, in the table from bytes to numbers, a byte that has no number.
pub const ABSENT: u16 = 256;

/// The symbols of `s` without repetition, in the order of their first occurrence.
pub open spec fn distinct_symbols(s: Seq<u8>) -> Seq<u8>
    decreases s.len(),
{
    if s.len() == 0 {
        Seq::empty()
    } else {
        let before = distinct_symbols(s.drop_last());
        if before.contains(s.last()) {
            before
        } else {
            before.push(s.last())
        }
    }
}

/// The distinct symbols hold each symbol of the sequence, once.
pub proof fn lemma_distinct_symbols(s: Seq<u8>)
    ensures
        distinct_symbols(s).no_duplicates(),
        forall|i: int| 0 <= i < s.len() ==> distinct_symbols(s).contains(#[trigger] s[i]),
        forall|b: u8| distinct_symbols(s).contains(b) ==> s.contains(b),
    decreases s.len(),
{
    if s.len() > 0 {
        let head = s.drop_last();
        lemma_distinct_symbols(head);
        let before = distinct_symbols(head);
        let all = distinct_symbols(s);
        assert forall|i: int| 0 <= i < s.len() implies all.contains(#[trigger] s[i]) by {
            if i < s.len() - 1 {
                assert(head[i] == s[i]);
                let x = choose|x: int| 0 <= x < before.len() && before[x] == s[i];
                assert(all[x] == s[i]);
            } else if before.contains(s.last()) {
            } else {
                assert(all[before.len() as int] == s[i]);
            }
        }
        assert forall|b: u8| all.contains(b) implies s.contains(b) by {
            let x = choose|x: int| 0 <= x < all.len() && all[x] == b;
            if x < before.len() {
                assert(before[x] == b);
                assert(before.contains(b));
                assert(head.contains(b));
                let y = choose|y: int| 0 <= y < head.len() && head[y] == b;
                assert(s[y] == head[y]);
            } else {
                assert(s[s.len() - 1] == b);
            }
        }
    }
}

/// A longer prefix of a sequence has no fewer distinct symbols.
pub proof fn lemma_distinct_symbols_grow(s: Seq<u8>, n: int)
    requires
        0 <= n <= s.len(),
    ensures
        distinct_symbols(s.take(n)).len() <= distinct_symbols(s).len(),
    decreases s.len() - n,
{
    if n < s.len() {
        lemma_distinct_symbols_grow(s, n + 1);
        assert(s.take(n + 1).drop_last() =~= s.take(n));
    } else {
        assert(s.take(n) =~= s);
    }
}

/// A sequence of distinct symbols, all of them below `bound`, is no longer than `bound`.
proof fn lemma_distinct_below(s: Seq<u8>, bound: int)
    requires
        s.no_duplicates(),
        0 <= bound,
        forall|i: int| 0 <= i < s.len() ==> (#[trigger] s[i] as int) < bound,
    ensures
        s.len() <= bound,
    decreases bound,
{
    if bound == 0 {
        if s.len() > 0 {
            assert((s[0] as int) < 0);
        }
    } else if exists|p: int| 0 <= p < s.len() && s[p] as int == bound - 1 {
        let p = choose|p: int| 0 <= p < s.len() && s[p] as int == bound - 1;
        let rest = s.remove(p);
        assert forall|i: int| 0 <= i < rest.len() implies (#[trigger] rest[i] as int) < bound
            - 1 by {
            let src = if i < p { i } else { i + 1 };
            assert(rest[i] == s[src]);
            assert(s[src] != s[p]);
        }
        assert(rest.no_duplicates()) by {
            assert forall|i: int, j: int|
                0 <= i < rest.len() && 0 <= j < rest.len() && i != j implies rest[i]
                != rest[j] by {
                let si = if i < p { i } else { i + 1 };
                let sj = if j < p { j } else { j + 1 };
                assert(rest[i] == s[si] && rest[j] == s[sj]);
            }
        }
        lemma_distinct_below(rest, bound - 1);
    } else {
        lemma_distinct_below(s, bound - 1);
    }
}

/// No sequence of bytes holds more distinct symbols than an alphabet numbers.
pub proof fn lemma_alphabet_fits(s: Seq<u8>)
    ensures
        distinct_symbols(s).len() <= MAX_ALPHABET_SIZE,
{
    lemma_distinct_symbols(s);
    lemma_distinct_below(distinct_symbols(s), 256);
}

/// Whether one of the first `n` declared pairs holds both symbols.
pub open spec fn joined_within(eqs: Seq<(u8, u8)>, n: int, a: u8, b: u8) -> bool {
    exists|p: int| 0 <= p < n && pair_joins(#[trigger] eqs[p], a, b)
}

proof fn lemma_joined_within_next(eqs: Seq<(u8, u8)>, n: int, a: u8, b: u8)
    requires
        0 <= n < eqs.len(),
    ensures
        joined_within(eqs, n + 1, a, b) == (joined_within(eqs, n, a, b) || pair_joins(
            eqs[n],
            a,
            b,
        )),
{
    if joined_within(eqs, n + 1, a, b) {
        let p = choose|p: int| 0 <= p < n + 1 && pair_joins(#[trigger] eqs[p], a, b);
        if p < n {
            assert(joined_within(eqs, n, a, b));
        }
    }
    if joined_within(eqs, n, a, b) {
        let p = choose|p: int| 0 <= p < n && pair_joins(#[trigger] eqs[p], a, b);
        assert(0 <= p < n + 1 && pair_joins(eqs[p], a, b));
    }
    if pair_joins(eqs[n], a, b) {
        assert(0 <= n < n + 1 && pair_joins(eqs[n], a, b));
    }
}

/// Bit `b` of the mask of symbol number `a`.
pub open spec fn mask_bit(masks: Seq<u64>, a: int, b: int) -> bool {
    bit(masks[a * 4 + b / 64], b % 64)
}

/// The table from bytes to numbers agrees with the list of symbols.
pub open spec fn table_agrees(symbols: Seq<u8>, ids: Seq<u16>) -> bool {
    &&& ids.len() == 256
    &&& symbols.len() <= MAX_ALPHABET_SIZE
    &&& symbols.no_duplicates()
    &&& forall|i: int| 0 <= i < symbols.len() ==> ids[#[trigger] symbols[i] as int] == i
    &&& forall|b: int|
        0 <= b < 256 && #[trigger] ids[b] != ABSENT ==> 0 <= ids[b] < symbols.len()
            && symbols[ids[b] as int] == b
}

/// Numbers, in the order of their first occurrence, the symbols of `s` that
/// have no number yet. `seen` is what was read before `s`.
fn absorb(symbols: &mut Vec<u8>, ids: &mut Vec<u16>, s: &[u8], Ghost(seen): Ghost<Seq<u8>>) -> (fits:
    bool)
    requires
        table_agrees(old(symbols)@, old(ids)@),
        old(symbols)@ == distinct_symbols(seen),
    ensures
        fits ==> table_agrees(final(symbols)@, final(ids)@) && final(symbols)@
            == distinct_symbols(seen + s@),
        !fits ==> distinct_symbols(seen + s@).len() > MAX_ALPHABET_SIZE,
{
    let mut i: usize = 0;
    while i < s.len()
        invariant
            i <= s.len(),
            table_agrees(symbols@, ids@),
            symbols@ == distinct_symbols(seen + s@.take(i as int)),
        decreases s.len() - i,
    {
        let b = s[i];
        let ghost read = seen + s@.take(i as int);
        let ghost next = seen + s@.take(i + 1);
        proof {
            assert(next.drop_last() =~= read);
            assert(next.last() == b);
        }
        if ids[b as usize] == ABSENT {
            proof {
                if symbols@.contains(b) {
                    let x = choose|x: int| 0 <= x < symbols@.len() && symbols@[x] == b;
                    assert(ids@[symbols@[x] as int] == x);
                }
                assert(distinct_symbols(next) == symbols@.push(b));
            }
            if symbols.len() >= MAX_ALPHABET_SIZE {
                proof {
                    lemma_distinct_symbols_grow(seen + s@, seen.len() + i + 1);
                    assert((seen + s@).take(seen.len() + i + 1) =~= next);
                }
                return false;
            }
            let n = symbols.len() as u16;
            let ghost symbols_before = symbols@;
            let ghost ids_before = ids@;
            symbols.push(b);
            ids.set(b as usize, n);
            proof {
                assert forall|x: int| 0 <= x < symbols@.len() implies ids@[#[trigger] symbols@[x] as int]
                    == x by {
                    if x < symbols_before.len() {
                        assert(symbols_before[x] == symbols@[x]);
                        assert(ids_before[symbols_before[x] as int] == x);
                    }
                }
                assert forall|c: int| 0 <= c < 256 && #[trigger] ids@[c] != ABSENT implies 0
                    <= ids@[c] < symbols@.len() && symbols@[ids@[c] as int] == c by {
                    if c != b {
                        assert(ids_before[c] == ids@[c]);
                    }
                }
            }
        } else {
            proof {
                assert(symbols@[ids@[b as int] as int] == b);
                assert(symbols@.contains(b));
            }
        }
        i = i + 1;
    }
    proof {
        assert(s@.take(s.len() as int) =~= s@);
    }
    true
}

/// Sets bit `b` of the mask of symbol number `a`.
fn set_mask_bit(masks: &mut Vec<u64>, n: usize, a: usize, b: usize)
    requires
        a < n <= MAX_ALPHABET_SIZE,
        b < n,
        old(masks).len() == n * 4,
    ensures
        final(masks).len() == n * 4,
        forall|x: int, y: int|
            0 <= x < n && 0 <= y < 256 ==> #[trigger] mask_bit(final(masks)@, x, y) == (mask_bit(
                old(masks)@,
                x,
                y,
            ) || (x == a && y == b)),
{
    let at = a * MASK_WORDS + b / 64;
    let ghost before = masks@;
    let word = with_bit(masks[at], b % 64);
    masks.set(at, word);
    proof {
        assert forall|x: int, y: int| 0 <= x < n && 0 <= y < 256 implies #[trigger] mask_bit(
            masks@,
            x,
            y,
        ) == (mask_bit(before, x, y) || (x == a && y == b)) by {
            if x * 4 + y / 64 == at {
                assert(x == a && y / 64 == b / 64);
                assert(bit(word, y % 64) == (bit(before[at as int], y % 64) || y % 64 == b % 64));
            } else {
                assert(masks@[x * 4 + y / 64] == before[x * 4 + y / 64]);
            }
        }
    }
}

/// The alphabet of two sequences under a set of declared equalities.
pub struct Alphabet {
    symbols: Vec<u8>,
    ids: Vec<u16>,
    masks: Vec<u64>,
    pairs: Vec<EdlibEqualityPairRs>,
}

impl Alphabet {
    /// The symbols, each at the position that is its number.
    pub closed spec fn symbols(&self) -> Seq<u8> {
        self.symbols@
    }

    /// The declared pairs of equal symbols.
    pub closed spec fn equalities(&self) -> Seq<(u8, u8)> {
        pairs_of(self.pairs@)
    }

    /// The tables agree with each other: each symbol has one number, and the
    /// mask of a symbol holds exactly the symbols that it matches.
    pub closed spec fn wf(&self) -> bool {
        &&& table_agrees(self.symbols@, self.ids@)
        &&& self.masks@.len() == self.symbols@.len() * 4
        &&& forall|a: int, b: int|
            0 <= a < self.symbols@.len() && 0 <= b < self.symbols@.len() ==> #[trigger] mask_bit(
                self.masks@,
                a,
                b,
            ) == symbols_match(pairs_of(self.pairs@), self.symbols@[a], self.symbols@[b])
    }

    /// Whether every symbol of `s` has a number.
    pub open spec fn covers(&self, s: Seq<u8>) -> bool {
        forall|i: int| 0 <= i < s.len() ==> self.symbols().contains(#[trigger] s[i])
    }

    /// Whether `ids` numbers the symbols of `s`, one by one.
    pub open spec fn encodes(&self, ids: Seq<u8>, s: Seq<u8>) -> bool {
        &&& ids.len() == s.len()
        &&& forall|i: int|
            0 <= i < s.len() ==> (#[trigger] ids[i] as int) < self.symbols().len()
                && self.symbols()[ids[i] as int] == s[i]
    }

    /// Builds the alphabet of `query` and `target`: the symbols of the query
    /// first, then those that only the target has. Fails when the two hold
    /// more distinct symbols than an alphabet numbers.
    pub fn new(query: &[u8], target: &[u8], equalities: &[EdlibEqualityPairRs]) -> (r: Result<
        Alphabet,
        EngineError,
    >)
        ensures
            r is Ok <==> distinct_symbols(query@ + target@).len() <= MAX_ALPHABET_SIZE,
            match r {
                Ok(a) => {
                    &&& a.wf()
                    &&& a.symbols() == distinct_symbols(query@ + target@)
                    &&& a.equalities() == pairs_of(equalities@)
                    &&& a.covers(query@)
                    &&& a.covers(target@)
                },
                Err(e) => e == EngineError::TooManySymbols,
            },
    {
        let mut symbols: Vec<u8> = Vec::new();
        let mut ids: Vec<u16> = Vec::new();
        let mut c: usize = 0;
        while c < 256
            invariant
                c <= 256,
                ids.len() == c,
                forall|x: int| 0 <= x < c ==> ids[x] == ABSENT,
            decreases 256 - c,
        {
            ids.push(ABSENT);
            c = c + 1;
        }
        if !absorb(&mut symbols, &mut ids, query, Ghost(Seq::empty())) {
            proof {
                assert(Seq::<u8>::empty() + query@ =~= query@);
                assert((query@ + target@).take(query@.len() as int) =~= query@);
                lemma_distinct_symbols_grow(query@ + target@, query@.len() as int);
            }
            return Err(EngineError::TooManySymbols);
        }
        proof {
            assert(Seq::<u8>::empty() + query@ =~= query@);
        }
        if !absorb(&mut symbols, &mut ids, target, Ghost(query@)) {
            return Err(EngineError::TooManySymbols);
        }
        let n = symbols.len();
        let mut masks: Vec<u64> = Vec::new();
        let mut a: usize = 0;
        while a < n
            invariant
                a <= n <= MAX_ALPHABET_SIZE,
                masks.len() == a * 4,
                forall|x: int, y: int|
                    0 <= x < a && 0 <= y < 256 ==> #[trigger] mask_bit(masks@, x, y) == (x == y),
            decreases n - a,
        {
            let ghost before = masks@;
            let own = with_bit(0, a % 64);
            let home = a / 64;
            masks.push(if home == 0 { own } else { 0 });
            masks.push(if home == 1 { own } else { 0 });
            masks.push(if home == 2 { own } else { 0 });
            masks.push(if home == 3 { own } else { 0 });
            proof {
                assert forall|x: int, y: int| 0 <= x < a + 1 && 0 <= y < 256 implies #[trigger] mask_bit(
                    masks@,
                    x,
                    y,
                ) == (x == y) by {
                    if x < a {
                        assert(masks@[x * 4 + y / 64] == before[x * 4 + y / 64]);
                        assert(mask_bit(before, x, y) == (x == y));
                    } else {
                        crate::bits::lemma_bit_of_small((y % 64) as u64);
                    }
                }
            }
            a = a + 1;
        }
        let mut pairs: Vec<EdlibEqualityPairRs> = Vec::new();
        let mut p: usize = 0;
        let ghost eqs = pairs_of(equalities@);
        while p < equalities.len()
            invariant
                p <= equalities.len(),
                n == symbols.len(),
                n <= MAX_ALPHABET_SIZE,
                eqs == pairs_of(equalities@),
                table_agrees(symbols@, ids@),
                masks.len() == n * 4,
                pairs@ == equalities@.take(p as int),
                forall|x: int, y: int|
                    0 <= x < n && 0 <= y < n ==> #[trigger] mask_bit(masks@, x, y) == (x == y
                        || joined_within(eqs, p as int, symbols@[x], symbols@[y])),
            decreases equalities.len() - p,
        {
            let pair = equalities[p];
            let ia = ids[pair.first as usize];
            let ib = ids[pair.second as usize];
            let ghost before = masks@;
            assert(eqs[p as int] == (pair.first, pair.second));
            if ia != ABSENT && ib != ABSENT {
                set_mask_bit(&mut masks, n, ia as usize, ib as usize);
                set_mask_bit(&mut masks, n, ib as usize, ia as usize);
            }
            proof {
                assert forall|x: int, y: int| 0 <= x < n && 0 <= y < n implies #[trigger] mask_bit(
                    masks@,
                    x,
                    y,
                ) == (x == y || joined_within(eqs, p + 1, symbols@[x], symbols@[y])) by {
                    lemma_joined_within_next(eqs, p as int, symbols@[x], symbols@[y]);
                    assert(mask_bit(before, x, y) == (x == y || joined_within(
                        eqs,
                        p as int,
                        symbols@[x],
                        symbols@[y],
                    )));
                    assert(ids@[symbols@[x] as int] == x);
                    assert(ids@[symbols@[y] as int] == y);
                }
                assert(equalities@.take(p + 1) =~= equalities@.take(p as int).push(pair));
            }
            pairs.push(pair);
            p = p + 1;
        }
        let alphabet = Alphabet { symbols, ids, masks, pairs };
        proof {
            assert(equalities@.take(equalities@.len() as int) =~= equalities@);
            lemma_distinct_symbols(query@ + target@);
            assert forall|i: int| 0 <= i < query@.len() implies alphabet.symbols().contains(
                #[trigger] query@[i],
            ) by {
                assert((query@ + target@)[i] == query@[i]);
            }
            assert forall|i: int| 0 <= i < target@.len() implies alphabet.symbols().contains(
                #[trigger] target@[i],
            ) by {
                assert((query@ + target@)[query@.len() + i] == target@[i]);
            }
            assert forall|x: int, y: int|
                0 <= x < alphabet.symbols@.len() && 0 <= y
                    < alphabet.symbols@.len() implies #[trigger] mask_bit(alphabet.masks@, x, y)
                == symbols_match(
                pairs_of(alphabet.pairs@),
                alphabet.symbols@[x],
                alphabet.symbols@[y],
            ) by {
                assert(mask_bit(alphabet.masks@, x, y) == (x == y || joined_within(
                    eqs,
                    eqs.len() as int,
                    alphabet.symbols@[x],
                    alphabet.symbols@[y],
                )));
            }
        }
        Ok(alphabet)
    }

    /// The number of symbols.
    pub fn len(&self) -> (n: usize)
        requires
            self.wf(),
        ensures
            n == self.symbols().len(),
            n <= MAX_ALPHABET_SIZE,
    {
        self.symbols.len()
    }

    /// The number of a symbol, if it has one.
    pub fn id(&self, symbol: u8) -> (r: Option<u8>)
        requires
            self.wf(),
        ensures
            match r {
                Some(i) => (i as int) < self.symbols().len() && self.symbols()[i as int] == symbol,
                None => !self.symbols().contains(symbol),
            },
    {
        let i = self.ids[symbol as usize];
        if i == ABSENT {
            proof {
                if self.symbols@.contains(symbol) {
                    let x = choose|x: int| 0 <= x < self.symbols@.len() && self.symbols@[x] == symbol;
                    assert(self.ids@[self.symbols@[x] as int] == x);
                }
            }
            None
        } else {
            Some(i as u8)
        }
    }

    /// Whether the symbols numbered `a` and `b` match.
    pub fn matches(&self, a: u8, b: u8) -> (r: bool)
        requires
            self.wf(),
            (a as int) < self.symbols().len(),
            (b as int) < self.symbols().len(),
        ensures
            r == symbols_match(self.equalities(), self.symbols()[a as int], self.symbols()[b as int]),
    {
        let word = self.masks[(a as usize) * MASK_WORDS + (b as usize) / 64];
        let r = test_bit(word, (b as usize) % 64);
        assert(r == mask_bit(self.masks@, a as int, b as int));
        r
    }

    /// The numbers of the symbols of `s`.
    pub fn encode(&self, s: &[u8]) -> (ids: Vec<u8>)
        requires
            self.wf(),
            self.covers(s@),
        ensures
            self.encodes(ids@, s@),
    {
        let mut ids: Vec<u8> = Vec::new();
        let mut i: usize = 0;
        while i < s.len()
            invariant
                self.wf(),
                self.covers(s@),
                i <= s.len(),
                ids.len() == i,
                forall|x: int|
                    0 <= x < i ==> (#[trigger] ids[x] as int) < self.symbols().len()
                        && self.symbols()[ids[x] as int] == s[x],
            decreases s.len() - i,
        {
            assert(self.symbols().contains(s@[i as int]));
            let n = self.ids[s[i] as usize];
            proof {
                let x = choose|x: int| 0 <= x < self.symbols@.len() && self.symbols@[x] == s@[i as int];
                assert(self.ids@[self.symbols@[x] as int] == x);
            }
            ids.push(n as u8);
            i = i + 1;
        }
        ids
    }
}

} // verus!
