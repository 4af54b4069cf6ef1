//! The public interface: what an alignment is asked to do, what it returns,
//! and the two entry points.
use vstd::prelude::*;
use vstd::slice::slice_subrange;
use crate::alphabet::{distinct_symbols, Alphabet, MAX_ALPHABET_SIZE};
pub use crate::cigar::edlibAlignmentToCigarRs;
use crate::distance::lemma_cell_borders;
use crate::locate::{lemma_first_position, places};
use crate::profile::QueryProfile;
use crate::search::{
    best_distance, best_ends, best_start, best_starts, is_degenerate, last_row,
    lemma_best_distance_bounds, lemma_best_ends, lemma_some_window_is_best, reversed_prefix,
    search, start_locations_for, starts_for, starts_free, window_row, within_bound,
};
use crate::traceback::{alignment_path, best_path, lemma_traceback_length};

verus! {

/// Status of a result that was computed.
pub const EDLIB_STATUS_OK: u32 = 0;

/// Status of a call that the engine had to give up; the other fields of such a
/// result hold nothing.
pub const EDLIB_STATUS_ERROR: u32 = 1;

/// The longest sequence that the engine takes: positions in the target and
/// distances are reported as `i32`.
pub const MAX_SEQUENCE_LENGTH: usize = 0x7fff_ffff;

/// Alignment methods: how are the ends of the target treated?
#[derive(Debug, Copy, Clone, PartialEq, Eq, Structural)]
pub enum EdlibAlignModeRs {
    /// Global method: the whole query is aligned with the whole target.
    EDLIB_MODE_NW,
    /// Prefix method: what is left of the target after the alignment costs nothing.
    /// With "AACT" and "AACTGGC" the distance is 0, because dropping "GGC" is free.
    EDLIB_MODE_SHW,
    /// Infix method: what is left of the target before and after the alignment
    /// costs nothing. With "ACT" and "CGACTGAC" the distance is 0.
    EDLIB_MODE_HW,
}

/// Alignment tasks: how much is to be computed?
#[derive(Debug, Copy, Clone, PartialEq, Eq, Structural)]
pub enum EdlibAlignTaskRs {
    /// The edit distance and the end locations.
    EDLIB_TASK_DISTANCE,
    /// The edit distance, the end locations and the start locations.
    EDLIB_TASK_LOC,
    /// The edit distance, the locations and the alignment path.
    EDLIB_TASK_PATH,
}

/// The two CIGAR notations.
#[derive(Debug, Copy, Clone, PartialEq, Eq, Structural)]
pub enum EdlibCigarFormatRs {
    /// Match: 'M', Insertion: 'I', Deletion: 'D', Mismatch: 'M'.
    EDLIB_CIGAR_STANDARD,
    /// Match: '=', Insertion: 'I', Deletion: 'D', Mismatch: 'X'.
    EDLIB_CIGAR_EXTENDED,
}

/// Edit operations, the steps of an alignment path.
#[derive(Debug, Copy, Clone, PartialEq, Eq, Structural)]
pub enum EdlibEdopRs {
    /// A query symbol paired with a target symbol that it matches.
    EDLIB_EDOP_MATCH,
    /// Insertion to target: the target has a symbol that the query lacks.
    /// The step takes a target symbol and no query symbol.
    EDLIB_EDOP_INSERT,
    /// Deletion from target: the query has a symbol that the target lacks.
    /// The step takes a query symbol and no target symbol.
    EDLIB_EDOP_DELETE,
    /// A query symbol paired with a target symbol that it does not match.
    EDLIB_EDOP_MISMATCH,
}

/// Defines two symbols as equal.
#[derive(Debug, Copy, Clone, PartialEq, Eq, Structural)]
pub struct EdlibEqualityPairRs {
    pub first: u8,
    pub second: u8,
}

/// Why the engine gave up.
#[derive(Debug, Copy, Clone, PartialEq, Eq, Structural)]
pub enum EngineError {
    /// The two sequences hold more distinct symbols than the engine can number.
    TooManySymbols,
    /// A sequence is longer than `MAX_SEQUENCE_LENGTH`.
    SequenceTooLong,
}

impl EdlibAlignModeRs {
    /// The number of the mode: 0 global, 1 prefix, 2 infix.
    pub open spec fn spec_code(self) -> u32 {
        match self {
            EdlibAlignModeRs::EDLIB_MODE_NW => 0,
            EdlibAlignModeRs::EDLIB_MODE_SHW => 1,
            EdlibAlignModeRs::EDLIB_MODE_HW => 2,
        }
    }

    /// The number of the mode.
    pub fn code(self) -> (code: u32)
        ensures
            code == self.spec_code(),
    {
        match self {
            EdlibAlignModeRs::EDLIB_MODE_NW => 0,
            EdlibAlignModeRs::EDLIB_MODE_SHW => 1,
            EdlibAlignModeRs::EDLIB_MODE_HW => 2,
        }
    }

    /// The mode with the given number; no number but 0, 1 and 2 is one of a mode.
    pub fn from_code(code: u32) -> (mode: Option<EdlibAlignModeRs>)
        ensures
            mode is Some <==> code <= 2,
            mode matches Some(m) ==> m.spec_code() == code,
    {
        if code == 0 {
            Some(EdlibAlignModeRs::EDLIB_MODE_NW)
        } else if code == 1 {
            Some(EdlibAlignModeRs::EDLIB_MODE_SHW)
        } else if code == 2 {
            Some(EdlibAlignModeRs::EDLIB_MODE_HW)
        } else {
            None
        }
    }
}

impl EdlibAlignTaskRs {
    /// The number of the task: 0 distance, 1 locations, 2 path.
    pub open spec fn spec_code(self) -> u32 {
        match self {
            EdlibAlignTaskRs::EDLIB_TASK_DISTANCE => 0,
            EdlibAlignTaskRs::EDLIB_TASK_LOC => 1,
            EdlibAlignTaskRs::EDLIB_TASK_PATH => 2,
        }
    }

    /// The number of the task.
    pub fn code(self) -> (code: u32)
        ensures
            code == self.spec_code(),
    {
        match self {
            EdlibAlignTaskRs::EDLIB_TASK_DISTANCE => 0,
            EdlibAlignTaskRs::EDLIB_TASK_LOC => 1,
            EdlibAlignTaskRs::EDLIB_TASK_PATH => 2,
        }
    }

    /// The task with the given number; no number but 0, 1 and 2 is one of a task.
    pub fn from_code(code: u32) -> (task: Option<EdlibAlignTaskRs>)
        ensures
            task is Some <==> code <= 2,
            task matches Some(t) ==> t.spec_code() == code,
    {
        if code == 0 {
            Some(EdlibAlignTaskRs::EDLIB_TASK_DISTANCE)
        } else if code == 1 {
            Some(EdlibAlignTaskRs::EDLIB_TASK_LOC)
        } else if code == 2 {
            Some(EdlibAlignTaskRs::EDLIB_TASK_PATH)
        } else {
            None
        }
    }
}

impl EdlibCigarFormatRs {
    /// The number of the notation: 0 standard, 1 extended.
    pub open spec fn spec_code(self) -> u32 {
        match self {
            EdlibCigarFormatRs::EDLIB_CIGAR_STANDARD => 0,
            EdlibCigarFormatRs::EDLIB_CIGAR_EXTENDED => 1,
        }
    }

    /// The number of the notation.
    pub fn code(self) -> (code: u32)
        ensures
            code == self.spec_code(),
    {
        match self {
            EdlibCigarFormatRs::EDLIB_CIGAR_STANDARD => 0,
            EdlibCigarFormatRs::EDLIB_CIGAR_EXTENDED => 1,
        }
    }

    /// The notation with the given number; no number but 0 and 1 is one of a notation.
    pub fn from_code(code: u32) -> (format: Option<EdlibCigarFormatRs>)
        ensures
            format is Some <==> code <= 1,
            format matches Some(f) ==> f.spec_code() == code,
    {
        if code == 0 {
            Some(EdlibCigarFormatRs::EDLIB_CIGAR_STANDARD)
        } else if code == 1 {
            Some(EdlibCigarFormatRs::EDLIB_CIGAR_EXTENDED)
        } else {
            None
        }
    }
}

impl EdlibEdopRs {
    /// The number of the operation: 0 match, 1 insertion to target,
    /// 2 deletion from target, 3 mismatch.
    pub open spec fn spec_code(self) -> u8 {
        match self {
            EdlibEdopRs::EDLIB_EDOP_MATCH => 0,
            EdlibEdopRs::EDLIB_EDOP_INSERT => 1,
            EdlibEdopRs::EDLIB_EDOP_DELETE => 2,
            EdlibEdopRs::EDLIB_EDOP_MISMATCH => 3,
        }
    }

    /// The number of the operation.
    pub fn code(self) -> (code: u8)
        ensures
            code == self.spec_code(),
    {
        match self {
            EdlibEdopRs::EDLIB_EDOP_MATCH => 0,
            EdlibEdopRs::EDLIB_EDOP_INSERT => 1,
            EdlibEdopRs::EDLIB_EDOP_DELETE => 2,
            EdlibEdopRs::EDLIB_EDOP_MISMATCH => 3,
        }
    }

    /// The operation with the given number; no number above 3 is one of an operation.
    pub fn from_code(code: u8) -> (op: Option<EdlibEdopRs>)
        ensures
            op is Some <==> code <= 3,
            op matches Some(o) ==> o.spec_code() == code,
    {
        if code == 0 {
            Some(EdlibEdopRs::EDLIB_EDOP_MATCH)
        } else if code == 1 {
            Some(EdlibEdopRs::EDLIB_EDOP_INSERT)
        } else if code == 2 {
            Some(EdlibEdopRs::EDLIB_EDOP_DELETE)
        } else if code == 3 {
            Some(EdlibEdopRs::EDLIB_EDOP_MISMATCH)
        } else {
            None
        }
    }
}

impl EdlibEqualityPairRs {
    /// The pair that defines `first` and `second` as equal.
    pub fn new(first: u8, second: u8) -> (pair: Self)
        ensures
            pair.first == first,
            pair.second == second,
    {
        EdlibEqualityPairRs { first, second }
    }
}

/// The declared pairs as plain pairs of symbols.
pub open spec fn pairs_of(equalities: Seq<EdlibEqualityPairRs>) -> Seq<(u8, u8)> {
    Seq::new(equalities.len(), |i: int| (equalities[i].first, equalities[i].second))
}

/// Configuration of an alignment.
#[derive(Debug, Clone)]
pub struct EdlibAlignConfigRs {
    /// A value that is not negative says that the edit distance is not larger
    /// than `k`: where it is larger, the distance is reported as -1. A smaller
    /// `k` makes the search faster. With a negative value the bound is
    /// adjusted until the distance is found.
    pub k: i32,
    /// Alignment method.
    pub mode: EdlibAlignModeRs,
    /// Alignment task: what is to be calculated.
    pub task: EdlibAlignTaskRs,
    /// Pairs of symbols, each of which defines two symbols as equal, beyond the
    /// equality of each symbol with itself. The pairs are not chained: with
    /// (a, b) and (b, c) declared, a and c still differ.
    pub additionalequalities: Vec<EdlibEqualityPairRs>,
}

impl EdlibAlignConfigRs {
    /// The declared pairs as plain pairs of symbols.
    pub open spec fn equalities(&self) -> Seq<(u8, u8)> {
        pairs_of(self.additionalequalities@)
    }

    /// A configuration filled with the given parameters.
    pub fn new(
        k: i32,
        mode: EdlibAlignModeRs,
        task: EdlibAlignTaskRs,
        additionalequalities: Vec<EdlibEqualityPairRs>,
    ) -> (config: Self)
        ensures
            config.k == k,
            config.mode == mode,
            config.task == task,
            config.additionalequalities == additionalequalities,
    {
        EdlibAlignConfigRs { k, mode, task, additionalequalities }
    }
}

impl Default for EdlibAlignConfigRs {
    /// k = -1, mode = EDLIB_MODE_NW, task = EDLIB_TASK_DISTANCE, no additional equalities.
    fn default() -> (config: Self)
        ensures
            config.k == -1,
            config.mode == EdlibAlignModeRs::EDLIB_MODE_NW,
            config.task == EdlibAlignTaskRs::EDLIB_TASK_DISTANCE,
            config.additionalequalities@.len() == 0,
    {
        EdlibAlignConfigRs {
            k: -1,
            mode: EdlibAlignModeRs::EDLIB_MODE_NW,
            task: EdlibAlignTaskRs::EDLIB_TASK_DISTANCE,
            additionalequalities: Vec::new(),
        }
    }
}

/// Container for the results of an alignment.
#[derive(Debug, Clone)]
pub struct EdlibAlignResultRs {
    /// EDLIB_STATUS_OK or EDLIB_STATUS_ERROR.
    pub status: u32,
    /// -1 if k is not negative and the edit distance is larger than k.
    pub editDistance: i32,
    /// Zero-based positions in the target where the best alignments end, in
    /// increasing order. -1 stands for an alignment that takes no symbol of
    /// the target. None if the edit distance is larger than k.
    pub endLocations: Option<Vec<i32>>,
    /// Zero-based positions in the target where the best alignments start,
    /// one for each end location. None if not calculated or if the edit
    /// distance is larger than k.
    pub startLocations: Option<Vec<i32>>,
    /// Number of end (and start) locations.
    pub numLocations: usize,
    /// The alignment path for the first pair of start and end locations, from
    /// the beginning of the query to its end. None if not calculated.
    pub alignment: Option<Vec<EdlibEdopRs>>,
    /// Length of the alignment path.
    pub alignmentLength: u32,
    /// Number of different symbols in query and target together.
    pub alphabetLength: u32,
}

/// What a result says, in mathematical terms.
pub struct AlignmentOutcome {
    pub status: int,
    pub distance: int,
    pub ends: Option<Seq<int>>,
    pub starts: Option<Seq<int>>,
    pub locations: int,
    pub path: Option<Seq<EdlibEdopRs>>,
    pub path_length: int,
    pub alphabet_size: int,
}

impl View for EdlibAlignResultRs {
    type V = AlignmentOutcome;

    open spec fn view(&self) -> AlignmentOutcome {
        AlignmentOutcome {
            status: self.status as int,
            distance: self.editDistance as int,
            ends: match self.endLocations {
                Some(v) => Some(places(v@)),
                None => None,
            },
            starts: match self.startLocations {
                Some(v) => Some(places(v@)),
                None => None,
            },
            locations: self.numLocations as int,
            path: match self.alignment {
                Some(v) => Some(v@),
                None => None,
            },
            path_length: self.alignmentLength as int,
            alphabet_size: self.alphabetLength as int,
        }
    }
}

impl Default for EdlibAlignResultRs {
    /// An empty result: status EDLIB_STATUS_OK, distance 0, nothing located.
    fn default() -> (res: Self)
        ensures
            res@ == (AlignmentOutcome {
                status: EDLIB_STATUS_OK as int,
                distance: 0,
                ends: None,
                starts: None,
                locations: 0,
                path: None,
                path_length: 0,
                alphabet_size: 0,
            }),
    {
        EdlibAlignResultRs {
            status: EDLIB_STATUS_OK,
            editDistance: 0,
            endLocations: None,
            startLocations: None,
            numLocations: 0,
            alignment: None,
            alignmentLength: 0,
            alphabetLength: 0,
        }
    }
}

/// Whether the engine takes the two sequences: neither is too long, and
/// together they hold no more distinct symbols than an alphabet numbers.
pub open spec fn engine_accepts(q: Seq<u8>, t: Seq<u8>) -> bool {
    &&& q.len() <= MAX_SEQUENCE_LENGTH
    &&& t.len() <= MAX_SEQUENCE_LENGTH
    &&& distinct_symbols(q + t).len() <= MAX_ALPHABET_SIZE
}

/// The result of a call that the engine gave up, and the result without
/// locations of a search whose distance is above the bound.
pub open spec fn empty_outcome(status: int, alphabet_size: int) -> AlignmentOutcome {
    AlignmentOutcome {
        status,
        distance: -1,
        ends: None,
        starts: None,
        locations: 0,
        path: None,
        path_length: 0,
        alphabet_size,
    }
}

/// The path that is reported: that of the query against the window of the
/// target between the first start and the first end.
pub open spec fn first_path(
    q: Seq<u8>,
    t: Seq<u8>,
    eqs: Seq<(u8, u8)>,
    mode: EdlibAlignModeRs,
) -> Seq<EdlibEdopRs> {
    best_path(
        q,
        t.subrange(best_starts(q, t, eqs, mode)[0], best_ends(q, t, eqs, mode)[0] + 1),
        eqs,
    )
}

/// What an alignment of `q` with `t` returns.
pub open spec fn expected_outcome(
    q: Seq<u8>,
    t: Seq<u8>,
    k: int,
    mode: EdlibAlignModeRs,
    task: EdlibAlignTaskRs,
    eqs: Seq<(u8, u8)>,
) -> AlignmentOutcome {
    if !engine_accepts(q, t) {
        empty_outcome(EDLIB_STATUS_ERROR as int, 0)
    } else if !within_bound(best_distance(q, t, eqs, mode), k) {
        empty_outcome(EDLIB_STATUS_OK as int, distinct_symbols(q + t).len() as int)
    } else {
        AlignmentOutcome {
            status: EDLIB_STATUS_OK as int,
            distance: best_distance(q, t, eqs, mode),
            ends: Some(best_ends(q, t, eqs, mode)),
            starts: if task == EdlibAlignTaskRs::EDLIB_TASK_DISTANCE {
                None
            } else {
                Some(best_starts(q, t, eqs, mode))
            },
            locations: best_ends(q, t, eqs, mode).len() as int,
            path: if task == EdlibAlignTaskRs::EDLIB_TASK_PATH {
                Some(first_path(q, t, eqs, mode))
            } else {
                None
            },
            path_length: if task == EdlibAlignTaskRs::EDLIB_TASK_PATH {
                first_path(q, t, eqs, mode).len() as int
            } else {
                0
            },
            alphabet_size: distinct_symbols(q + t).len() as int,
        }
    }
}

/// Takes the two sequences in: checks their lengths and builds their alphabet.
/// Fails with `SequenceTooLong` where a sequence is longer than
/// `MAX_SEQUENCE_LENGTH`, else with `TooManySymbols` where the alphabet would
/// hold more than `MAX_ALPHABET_SIZE` symbols.
pub fn prepare(query: &[u8], target: &[u8], equalities: &[EdlibEqualityPairRs]) -> (r: Result<
    Alphabet,
    EngineError,
>)
    ensures
        r is Ok <==> engine_accepts(query@, target@),
        match r {
            Ok(a) => {
                &&& a.wf()
                &&& a.symbols() == distinct_symbols(query@ + target@)
                &&& a.equalities() == pairs_of(equalities@)
                &&& a.covers(query@)
                &&& a.covers(target@)
            },
            Err(e) => e == if query@.len() > MAX_SEQUENCE_LENGTH || target@.len()
                > MAX_SEQUENCE_LENGTH {
                EngineError::SequenceTooLong
            } else {
                EngineError::TooManySymbols
            },
        },
{
    if query.len() > MAX_SEQUENCE_LENGTH || target.len() > MAX_SEQUENCE_LENGTH {
        return Err(EngineError::SequenceTooLong);
    }
    Alphabet::new(query, target, equalities)
}

/// The search where one of the sequences is empty.
fn degenerate_search(m: usize, n: usize, mode: EdlibAlignModeRs, k: i32, Ghost(q): Ghost<Seq<u8>>, Ghost(t): Ghost<Seq<u8>>, Ghost(eqs): Ghost<Seq<(u8, u8)>>) -> (found: Option<(usize, Vec<i32>)>)
    requires
        m == q.len(),
        n == t.len(),
        m == 0 || n == 0,
        m <= MAX_SEQUENCE_LENGTH,
        n <= MAX_SEQUENCE_LENGTH,
    ensures
        found is Some <==> within_bound(best_distance(q, t, eqs, mode), k as int),
        found matches Some((d, ends)) ==> d == best_distance(q, t, eqs, mode) && places(ends@)
            == best_ends(q, t, eqs, mode),
{
    proof {
        lemma_cell_borders(q, t, eqs, false, m as int, n as int);
    }
    let global = match mode {
        EdlibAlignModeRs::EDLIB_MODE_NW => true,
        _ => false,
    };
    let d = if global && m == 0 { n } else { m };
    if k >= 0 && d > k as usize {
        return None;
    }
    let mut ends: Vec<i32> = Vec::new();
    if global {
        ends.push(n as i32 - 1);
        assert(places(ends@) =~= seq![t.len() - 1]);
    } else {
        ends.push(-1);
        assert(places(ends@) =~= seq![-1int]);
    }
    Some((d, ends))
}

/// The start that is reported for each end.
fn start_locations(
    alphabet: &Alphabet,
    query: &[u8],
    target: &[u8],
    mode: EdlibAlignModeRs,
    d: usize,
    ends: &Vec<i32>,
) -> (starts: Vec<i32>)
    requires
        alphabet.wf(),
        alphabet.covers(query@),
        alphabet.covers(target@),
        query.len() <= MAX_SEQUENCE_LENGTH,
        target.len() <= MAX_SEQUENCE_LENGTH,
        d == best_distance(query@, target@, alphabet.equalities(), mode),
        places(ends@) == best_ends(query@, target@, alphabet.equalities(), mode),
    ensures
        places(starts@) == best_starts(query@, target@, alphabet.equalities(), mode),
{
    let ghost q = query@;
    let ghost t = target@;
    let ghost eqs = alphabet.equalities();
    let free = match mode {
        EdlibAlignModeRs::EDLIB_MODE_HW => true,
        _ => false,
    };
    let mut starts: Vec<i32> = Vec::new();
    let mut x: usize = 0;
    proof {
        lemma_best_ends(q, t, eqs, mode);
        lemma_best_distance_bounds(q, t, eqs, mode);
    }
    if free && query.len() > 0 && target.len() > 0 {
        let back = reversed_prefix(query, query.len());
        proof {
            assert(q.subrange(0, q.len() as int) =~= q);
            assert(q.reverse().reverse() =~= q);
            assert forall|i: int| 0 <= i < back@.len() implies alphabet.symbols().contains(
                #[trigger] back@[i],
            ) by {
                assert(back@[i] == q[q.len() - 1 - i]);
            }
        }
        let reversed = QueryProfile::new(alphabet, back.as_slice());
        while x < ends.len()
            invariant
                alphabet.wf(),
                reversed.wf_for(alphabet),
                reversed.query() == q.reverse(),
                alphabet.covers(t),
                t == target@,
                q == query@,
                eqs == alphabet.equalities(),
                1 <= q.len(),
                1 <= t.len() <= MAX_SEQUENCE_LENGTH,
                starts_free(mode),
                !is_degenerate(q, t),
                d == best_distance(q, t, eqs, mode),
                d <= MAX_SEQUENCE_LENGTH,
                places(ends@) == best_ends(q, t, eqs, mode),
                x <= ends.len(),
                starts@.len() == x,
                forall|y: int|
                    0 <= y < x ==> #[trigger] starts@[y] == best_start(
                        q,
                        t,
                        eqs,
                        mode,
                        best_ends(q, t, eqs, mode)[y],
                    ),
            decreases ends.len() - x,
        {
            let e = ends[x];
            proof {
                lemma_best_ends(q, t, eqs, mode);
                assert(places(ends@)[x as int] == e);
                assert(best_ends(q, t, eqs, mode)[x as int] == e);
                assert(last_row(q, t, eqs, true)[e as int] == d);
                lemma_some_window_is_best(q, t, eqs, e as int);
                let s = choose|s: int|
                    0 <= s <= e && #[trigger] window_row(q, t, eqs, e as int)[s] == d;
                lemma_first_position(window_row(q, t, eqs, e as int), d as int, s);
            }
            let found = start_locations_for(alphabet, &reversed, target, e as usize, d);
            proof {
                assert(reversed.query().reverse() =~= q);
                assert(places(found@) == starts_for(q, t, eqs, d as int, e as int));
                assert(places(found@).len() == found@.len());
                assert(places(found@)[0] == found@[0]);
            }
            starts.push(found[0]);
            x = x + 1;
        }
    } else {
        while x < ends.len()
            invariant
                !(starts_free(mode) && !is_degenerate(query@, target@)),
                places(ends@) == best_ends(query@, target@, alphabet.equalities(), mode),
                best_ends(query@, target@, alphabet.equalities(), mode).len() >= 1,
                starts_free(mode) ==> best_ends(query@, target@, alphabet.equalities(), mode)
                    =~= seq![-1int],
                x <= ends.len(),
                starts@.len() == x,
                forall|y: int| 0 <= y < x ==> starts@[y] == 0,
            decreases ends.len() - x,
        {
            starts.push(0);
            x = x + 1;
        }
    }
    assert(places(starts@) =~= best_starts(q, t, eqs, mode));
    starts
}

/// Aligns two sequences (query and target) using edit distance (Levenshtein
/// distance). Through `config_rs` the function supports the alignment methods
/// (global, prefix, infix) and the tasks. It always returns the edit distance
/// and the end locations of the best alignments in the target; it returns the
/// start locations and the alignment path where the task asks for them.
pub fn edlibAlignRs(query: &[u8], target: &[u8], config_rs: &EdlibAlignConfigRs) -> (res:
    EdlibAlignResultRs)
    ensures
        res@ == expected_outcome(
            query@,
            target@,
            config_rs.k as int,
            config_rs.mode,
            config_rs.task,
            config_rs.equalities(),
        ),
{
    let ghost q = query@;
    let ghost t = target@;
    let ghost eqs = config_rs.equalities();
    let mode = config_rs.mode;
    let mut res = EdlibAlignResultRs {
        status: EDLIB_STATUS_ERROR,
        editDistance: -1,
        endLocations: None,
        startLocations: None,
        numLocations: 0,
        alignment: None,
        alignmentLength: 0,
        alphabetLength: 0,
    };
    let alphabet = match prepare(query, target, config_rs.additionalequalities.as_slice()) {
        Ok(a) => a,
        Err(_) => {
            return res;
        },
    };
    res.status = EDLIB_STATUS_OK;
    res.alphabetLength = alphabet.len() as u32;
    let m = query.len();
    let n = target.len();
    let found = if m == 0 || n == 0 {
        degenerate_search(m, n, mode, config_rs.k, Ghost(q), Ghost(t), Ghost(eqs))
    } else {
        let profile = QueryProfile::new(&alphabet, query);
        search(&alphabet, &profile, target, mode, config_rs.k)
    };
    match found {
        None => {},
        Some((d, ends)) => {
            proof {
                lemma_best_distance_bounds(q, t, eqs, mode);
                lemma_best_ends(q, t, eqs, mode);
            }
            res.editDistance = d as i32;
            res.numLocations = ends.len();
            let with_starts = match config_rs.task {
                EdlibAlignTaskRs::EDLIB_TASK_DISTANCE => false,
                _ => true,
            };
            let with_path = match config_rs.task {
                EdlibAlignTaskRs::EDLIB_TASK_PATH => true,
                _ => false,
            };
            if with_starts {
                let starts = start_locations(&alphabet, query, target, mode, d, &ends);
                if with_path {
                    proof {
                        lemma_first_start(q, t, eqs, mode);
                        assert(places(starts@)[0] == starts@[0]);
                        assert(places(ends@)[0] == ends@[0]);
                    }
                    let s = starts[0] as usize;
                    let e = (ends[0] + 1) as usize;
                    let window = slice_subrange(target, s, e);
                    proof {
                        assert forall|i: int| 0 <= i < window@.len() implies alphabet.symbols().contains(
                            #[trigger] window@[i],
                        ) by {
                            assert(window@[i] == t[s + i]);
                        }
                        lemma_traceback_length(q, window@, eqs, q.len() as int, window@.len() as int);
                    }
                    let path = alignment_path(&alphabet, query, window);
                    res.alignmentLength = path.len() as u32;
                    res.alignment = Some(path);
                }
                res.startLocations = Some(starts);
            }
            res.endLocations = Some(ends);
        },
    }
    res
}

/// The first start lies in the target, at or before the position after the first end.
pub proof fn lemma_first_start(q: Seq<u8>, t: Seq<u8>, eqs: Seq<(u8, u8)>, mode: EdlibAlignModeRs)
    ensures
        best_starts(q, t, eqs, mode).len() >= 1,
        0 <= best_starts(q, t, eqs, mode)[0] <= best_ends(q, t, eqs, mode)[0] + 1 <= t.len(),
{
    lemma_best_ends(q, t, eqs, mode);
    let e = best_ends(q, t, eqs, mode)[0];
    if starts_free(mode) && e >= 0 {
        let d = best_distance(q, t, eqs, mode);
        assert(last_row(q, t, eqs, true)[e] == d);
        lemma_some_window_is_best(q, t, eqs, e);
        let s = choose|s: int| 0 <= s <= e && #[trigger] window_row(q, t, eqs, e)[s] == d;
        lemma_first_position(window_row(q, t, eqs, e), d, s);
    }
}

} // verus!
