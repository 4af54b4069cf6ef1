//! The profile of a query: for each symbol of the alphabet and each block of
//! 64 query positions, the word whose bits mark the positions that match the symbol.
use vstd::prelude::*;
use crate::alphabet::Alphabet;
use crate::band::block_count;
use crate::bits::{bit, lemma_bit_of_small, with_bit, WORD_SIZE};
use crate::distance::symbols_match;
use crate::edlib::MAX_SEQUENCE_LENGTH;

verus! {

/// Whether position `pos` of the query exists and holds a symbol that matches `symbol`.
pub open spec fn matches_at(q: Seq<u8>, eqs: Seq<(u8, u8)>, pos: int, symbol: u8) -> bool {
    0 <= pos < q.len() && symbols_match(eqs, q[pos], symbol)
}

/// The match words of one query.
pub struct QueryProfile {
    query: Vec<u8>,
    words: Vec<Vec<u64>>,
}

impl QueryProfile {
    /// The query that the profile was built from.
    pub closed spec fn query(&self) -> Seq<u8> {
        self.query@
    }

    /// The profile holds, for each symbol of `alphabet`, one word for each
    /// block of the query, and bit `r` of the word of block `b` says whether
    /// position `64 * b + r` of the query matches the symbol.
    pub closed spec fn wf_for(&self, alphabet: &Alphabet) -> bool {
        &&& self.query@.len() <= MAX_SEQUENCE_LENGTH
        &&& self.words@.len() == alphabet.symbols().len()
        &&& forall|s: int|
            0 <= s < self.words@.len() ==> (#[trigger] self.words@[s])@.len() == block_count(
                self.query@.len() as int,
            )
        &&& forall|s: int, b: int, r: int|
            0 <= s < self.words@.len() && 0 <= b < block_count(self.query@.len() as int) && 0 <= r
                < 64 ==> #[trigger] bit(self.words@[s]@[b], r) == matches_at(
                self.query@,
                alphabet.equalities(),
                64 * b + r,
                alphabet.symbols()[s],
            )
    }

    /// Builds the profile of `query` over `alphabet`.
    pub fn new(alphabet: &Alphabet, query: &[u8]) -> (p: QueryProfile)
        requires
            alphabet.wf(),
            alphabet.covers(query@),
            query.len() <= MAX_SEQUENCE_LENGTH,
        ensures
            p.wf_for(alphabet),
            p.query() == query@,
    {
        let ids = alphabet.encode(query);
        let m = query.len();
        let blocks = (m + (WORD_SIZE - 1)) / WORD_SIZE;
        let size = alphabet.len();
        let ghost q = query@;
        let ghost eqs = alphabet.equalities();
        let mut words: Vec<Vec<u64>> = Vec::new();
        let mut s: usize = 0;
        while s < size
            invariant
                alphabet.wf(),
                alphabet.encodes(ids@, q),
                q == query@,
                eqs == alphabet.equalities(),
                m == q.len(),
                m <= MAX_SEQUENCE_LENGTH,
                blocks == block_count(m as int),
                size == alphabet.symbols().len(),
                size <= 256,
                s <= size,
                words@.len() == s,
                forall|x: int| 0 <= x < s ==> (#[trigger] words@[x])@.len() == blocks,
                forall|x: int, b: int, r: int|
                    0 <= x < s && 0 <= b < blocks && 0 <= r < 64 ==> #[trigger] bit(
                        words@[x]@[b],
                        r,
                    ) == matches_at(q, eqs, 64 * b + r, alphabet.symbols()[x]),
            decreases size - s,
        {
            let mut row: Vec<u64> = Vec::new();
            let mut b: usize = 0;
            while b < blocks
                invariant
                    alphabet.wf(),
                    alphabet.encodes(ids@, q),
                    eqs == alphabet.equalities(),
                    m == q.len(),
                    m <= MAX_SEQUENCE_LENGTH,
                    blocks == block_count(m as int),
                    s < size == alphabet.symbols().len(),
                    size <= 256,
                    b <= blocks,
                    row@.len() == b,
                    forall|y: int, r: int|
                        0 <= y < b && 0 <= r < 64 ==> #[trigger] bit(row@[y], r) == matches_at(
                            q,
                            eqs,
                            64 * y + r,
                            alphabet.symbols()[s as int],
                        ),
                decreases blocks - b,
            {
                let mut word: u64 = 0;
                let mut r: usize = 0;
                let base = b * WORD_SIZE;
                assert forall|x: int| 0 <= x < 64 implies !(#[trigger] bit(word, x)) by {
                    lemma_bit_of_small(x as u64);
                }
                while r < WORD_SIZE && base + r < m
                    invariant
                        alphabet.wf(),
                        alphabet.encodes(ids@, q),
                        eqs == alphabet.equalities(),
                        m == q.len(),
                        m <= MAX_SEQUENCE_LENGTH,
                        s < size == alphabet.symbols().len(),
                        size <= 256,
                        base == 64 * b,
                        base < m,
                        r <= 64,
                        base + r <= m,
                        forall|x: int|
                            0 <= x < 64 ==> #[trigger] bit(word, x) == (x < r && matches_at(
                                q,
                                eqs,
                                base + x,
                                alphabet.symbols()[s as int],
                            )),
                    decreases 64 - r,
                {
                    let ghost before = word;
                    assert(alphabet.symbols()[ids@[base + r] as int] == q[base + r]);
                    if alphabet.matches(ids[base + r], s as u8) {
                        word = with_bit(word, r);
                    }
                    assert forall|x: int| 0 <= x < 64 implies #[trigger] bit(word, x) == (x < r + 1
                        && matches_at(q, eqs, base + x, alphabet.symbols()[s as int])) by {
                        assert(bit(before, x) == (x < r && matches_at(
                            q,
                            eqs,
                            base + x,
                            alphabet.symbols()[s as int],
                        )));
                    }
                    r = r + 1;
                }
                let ghost row_before = row@;
                row.push(word);
                assert forall|y: int, x: int| 0 <= y < b + 1 && 0 <= x < 64 implies #[trigger] bit(
                    row@[y],
                    x,
                ) == matches_at(q, eqs, 64 * y + x, alphabet.symbols()[s as int]) by {
                    if y < b {
                        assert(row@[y] == row_before[y]);
                        assert(bit(row_before[y], x) == matches_at(
                            q,
                            eqs,
                            64 * y + x,
                            alphabet.symbols()[s as int],
                        ));
                    }
                }
                b = b + 1;
            }
            let ghost words_before = words@;
            words.push(row);
            assert forall|x: int, y: int, r: int|
                0 <= x < s + 1 && 0 <= y < blocks && 0 <= r < 64 implies #[trigger] bit(
                words@[x]@[y],
                r,
            ) == matches_at(q, eqs, 64 * y + r, alphabet.symbols()[x]) by {
                if x < s {
                    assert(words@[x] == words_before[x]);
                    assert(bit(words_before[x]@[y], r) == matches_at(
                        q,
                        eqs,
                        64 * y + r,
                        alphabet.symbols()[x],
                    ));
                }
            }
            assert forall|x: int| 0 <= x < s + 1 implies (#[trigger] words@[x])@.len()
                == blocks by {
                if x < s {
                    assert(words@[x] == words_before[x]);
                }
            }
            s = s + 1;
        }
        QueryProfile { query: vstd::slice::slice_to_vec(query), words }
    }

    /// The length of the query.
    pub fn len(&self) -> (m: usize)
        ensures
            m == self.query().len(),
    {
        self.query.len()
    }

    /// The number of blocks of the query.
    pub fn blocks(&self, alphabet: &Alphabet) -> (n: usize)
        requires
            self.wf_for(alphabet),
        ensures
            n == block_count(self.query().len() as int),
            self.query().len() <= MAX_SEQUENCE_LENGTH,
    {
        (self.query.len() + (WORD_SIZE - 1)) / WORD_SIZE
    }

    /// The match word of block `b` for the symbol numbered `s`.
    pub fn word(&self, alphabet: &Alphabet, s: u8, b: usize) -> (w: u64)
        requires
            self.wf_for(alphabet),
            (s as int) < alphabet.symbols().len(),
            b < block_count(self.query().len() as int),
        ensures
            forall|r: int|
                0 <= r < 64 ==> #[trigger] bit(w, r) == matches_at(
                    self.query(),
                    alphabet.equalities(),
                    64 * b + r,
                    alphabet.symbols()[s as int],
                ),
    {
        let w = self.words[s as usize][b];
        assert forall|r: int| 0 <= r < 64 implies #[trigger] bit(w, r) == matches_at(
            self.query(),
            alphabet.equalities(),
            64 * b + r,
            alphabet.symbols()[s as int],
        ) by {
            assert(bit(self.words@[s as int]@[b as int], r) == matches_at(
                self.query@,
                alphabet.equalities(),
                64 * b + r,
                alphabet.symbols()[s as int],
            ));
        }
        w
    }
}

} // verus!
