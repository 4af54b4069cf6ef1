//! CIGAR text: the edit operations of an alignment as runs of equal letters,
//! each run written as its length in decimal and its letter.
use vstd::prelude::*;
use vstd::string::StringExecFns;
use crate::edlib::{EdlibCigarFormatRs, EdlibEdopRs};

verus! {

/// The letter of an edit operation. The standard notation writes 'M' for a
/// match and for a mismatch; the extended notation tells them apart.
pub open spec fn letter_of(op: EdlibEdopRs, format: EdlibCigarFormatRs) -> char {
    match op {
        EdlibEdopRs::EDLIB_EDOP_MATCH => if format == EdlibCigarFormatRs::EDLIB_CIGAR_STANDARD {
            'M'
        } else {
            '='
        },
        EdlibEdopRs::EDLIB_EDOP_INSERT => 'I',
        EdlibEdopRs::EDLIB_EDOP_DELETE => 'D',
        EdlibEdopRs::EDLIB_EDOP_MISMATCH => if format == EdlibCigarFormatRs::EDLIB_CIGAR_STANDARD {
            'M'
        } else {
            'X'
        },
    }
}

/// The letters of a sequence of edit operations.
pub open spec fn letters_of(ops: Seq<EdlibEdopRs>, format: EdlibCigarFormatRs) -> Seq<char> {
    Seq::new(ops.len(), |i: int| letter_of(ops[i], format))
}

/// The character of a decimal digit.
pub open spec fn digit_char(d: int) -> char {
    if d == 0 {
        '0'
    } else if d == 1 {
        '1'
    } else if d == 2 {
        '2'
    } else if d == 3 {
        '3'
    } else if d == 4 {
        '4'
    } else if d == 5 {
        '5'
    } else if d == 6 {
        '6'
    } else if d == 7 {
        '7'
    } else if d == 8 {
        '8'
    } else {
        '9'
    }
}

/// A number in decimal, without leading zeros.
pub open spec fn decimal(n: nat) -> Seq<char>
    decreases n,
{
    if n < 10 {
        seq![digit_char(n as int)]
    } else {
        decimal(n / 10).push(digit_char((n % 10) as int))
    }
}

/// The runs of equal letters of a text, each with its letter and its length.
pub open spec fn runs_of(letters: Seq<char>) -> Seq<(char, nat)>
    decreases letters.len(),
{
    if letters.len() == 0 {
        Seq::empty()
    } else {
        let before = runs_of(letters.drop_last());
        if before.len() > 0 && before.last().0 == letters.last() {
            before.drop_last().push((letters.last(), before.last().1 + 1))
        } else {
            before.push((letters.last(), 1))
        }
    }
}

/// The runs written one after the other, each as its length and its letter.
pub open spec fn render(runs: Seq<(char, nat)>) -> Seq<char>
    decreases runs.len(),
{
    if runs.len() == 0 {
        Seq::empty()
    } else {
        render(runs.drop_last()) + decimal(runs.last().1).push(runs.last().0)
    }
}

/// The CIGAR text of a sequence of edit operations.
pub open spec fn cigar_text(ops: Seq<EdlibEdopRs>, format: EdlibCigarFormatRs) -> Seq<char> {
    render(runs_of(letters_of(ops, format)))
}

/// The letter of an edit operation.
pub fn letter(op: EdlibEdopRs, format: EdlibCigarFormatRs) -> (c: char)
    ensures
        c == letter_of(op, format),
{
    match op {
        EdlibEdopRs::EDLIB_EDOP_MATCH => match format {
            EdlibCigarFormatRs::EDLIB_CIGAR_STANDARD => 'M',
            EdlibCigarFormatRs::EDLIB_CIGAR_EXTENDED => '=',
        },
        EdlibEdopRs::EDLIB_EDOP_INSERT => 'I',
        EdlibEdopRs::EDLIB_EDOP_DELETE => 'D',
        EdlibEdopRs::EDLIB_EDOP_MISMATCH => match format {
            EdlibCigarFormatRs::EDLIB_CIGAR_STANDARD => 'M',
            EdlibCigarFormatRs::EDLIB_CIGAR_EXTENDED => 'X',
        },
    }
}

/// The letter of an edit operation as a text of one character.
fn letter_text(op: EdlibEdopRs, format: EdlibCigarFormatRs) -> (s: &'static str)
    ensures
        s@ == seq![letter_of(op, format)],
{
    proof {
        reveal_strlit("M");
        reveal_strlit("=");
        reveal_strlit("I");
        reveal_strlit("D");
        reveal_strlit("X");
        assert("M"@ =~= seq!['M']);
        assert("="@ =~= seq!['=']);
        assert("I"@ =~= seq!['I']);
        assert("D"@ =~= seq!['D']);
        assert("X"@ =~= seq!['X']);
    }
    match op {
        EdlibEdopRs::EDLIB_EDOP_MATCH => match format {
            EdlibCigarFormatRs::EDLIB_CIGAR_STANDARD => "M",
            EdlibCigarFormatRs::EDLIB_CIGAR_EXTENDED => "=",
        },
        EdlibEdopRs::EDLIB_EDOP_INSERT => "I",
        EdlibEdopRs::EDLIB_EDOP_DELETE => "D",
        EdlibEdopRs::EDLIB_EDOP_MISMATCH => match format {
            EdlibCigarFormatRs::EDLIB_CIGAR_STANDARD => "M",
            EdlibCigarFormatRs::EDLIB_CIGAR_EXTENDED => "X",
        },
    }
}

/// A decimal digit as a text of one character.
fn digit_text(d: usize) -> (s: &'static str)
    requires
        d < 10,
    ensures
        s@ == seq![digit_char(d as int)],
{
    proof {
        reveal_strlit("0");
        reveal_strlit("1");
        reveal_strlit("2");
        reveal_strlit("3");
        reveal_strlit("4");
        reveal_strlit("5");
        reveal_strlit("6");
        reveal_strlit("7");
        reveal_strlit("8");
        reveal_strlit("9");
        assert("0"@ =~= seq!['0']);
        assert("1"@ =~= seq!['1']);
        assert("2"@ =~= seq!['2']);
        assert("3"@ =~= seq!['3']);
        assert("4"@ =~= seq!['4']);
        assert("5"@ =~= seq!['5']);
        assert("6"@ =~= seq!['6']);
        assert("7"@ =~= seq!['7']);
        assert("8"@ =~= seq!['8']);
        assert("9"@ =~= seq!['9']);
    }
    if d == 0 {
        "0"
    } else if d == 1 {
        "1"
    } else if d == 2 {
        "2"
    } else if d == 3 {
        "3"
    } else if d == 4 {
        "4"
    } else if d == 5 {
        "5"
    } else if d == 6 {
        "6"
    } else if d == 7 {
        "7"
    } else if d == 8 {
        "8"
    } else {
        "9"
    }
}

/// Appends `n` in decimal to `out`.
fn append_decimal(out: &mut String, n: usize)
    ensures
        final(out)@ == old(out)@ + decimal(n as nat),
    decreases n,
{
    if n >= 10 {
        append_decimal(out, n / 10);
    }
    let ghost before = out@;
    out.append(digit_text(n % 10));
    proof {
        if n >= 10 {
            assert(out@ =~= old(out)@ + decimal((n / 10) as nat).push(digit_char((n % 10) as int)));
        } else {
            assert(out@ =~= old(out)@ + seq![digit_char(n as int)]);
        }
    }
}

/// Appends one run to `out`: its length, then its letter.
fn append_run(out: &mut String, count: usize, text: &str, Ghost(c): Ghost<char>)
    requires
        text@ == seq![c],
    ensures
        final(out)@ == old(out)@ + decimal(count as nat).push(c),
{
    append_decimal(out, count);
    out.append(text);
    assert(out@ =~= old(out)@ + decimal(count as nat).push(c));
}

/// Builds the CIGAR text of an alignment path in the given notation.
///
/// I stands for an insertion to the target, D for a deletion from the target.
/// M stands for a match or a mismatch (standard notation); = for a match and X
/// for a mismatch (extended notation).
pub fn edlibAlignmentToCigarRs(alignment: &[EdlibEdopRs], cigarFormat: &EdlibCigarFormatRs) -> (cigar:
    String)
    ensures
        cigar@ == cigar_text(alignment@, *cigarFormat),
{
    let format = *cigarFormat;
    let mut out = String::new();
    let n = alignment.len();
    let ghost letters = letters_of(alignment@, format);
    if n == 0 {
        return out;
    }
    let mut current = letter(alignment[0], format);
    let mut text = letter_text(alignment[0], format);
    let mut count: usize = 1;
    let ghost mut done: Seq<(char, nat)> = Seq::empty();
    let mut i: usize = 1;
    proof {
        assert(letters.take(1).drop_last() =~= Seq::<char>::empty());
        assert(runs_of(letters.take(1).drop_last()) =~= Seq::<(char, nat)>::empty());
        assert(runs_of(letters.take(1)) =~= done.push((current, 1nat)));
    }
    while i < n
        invariant
            1 <= i <= n,
            n == alignment@.len(),
            letters == letters_of(alignment@, format),
            1 <= count <= i,
            text@ == seq![current],
            runs_of(letters.take(i as int)) == done.push((current, count as nat)),
            out@ == render(done),
        decreases n - i,
    {
        let next = letter(alignment[i], format);
        proof {
            assert(letters.take(i + 1).drop_last() =~= letters.take(i as int));
            assert(letters.take(i + 1).last() == next);
            assert(done.push((current, count as nat)).drop_last() =~= done);
        }
        if next == current {
            count = count + 1;
        } else {
            append_run(&mut out, count, text, Ghost(current));
            proof {
                let closed = done;
                done = done.push((current, count as nat));
                assert(done.drop_last() =~= closed);
            }
            current = next;
            text = letter_text(alignment[i], format);
            count = 1;
        }
        i = i + 1;
    }
    append_run(&mut out, count, text, Ghost(current));
    proof {
        assert(letters.take(n as int) =~= letters);
        assert(done.push((current, count as nat)).drop_last() =~= done);
    }
    out
}

/// The longest alignment path that a CIGAR text is decoded to.
pub const MAX_PATH_LENGTH: usize = 0xffff_ffff;

/// Whether a character is a decimal digit.
pub open spec fn is_digit(c: char) -> bool {
    '0' <= c && c <= '9'
}

/// The value of a decimal digit.
pub open spec fn digit_value(c: char) -> nat {
    (c as int - '0' as int) as nat
}

/// The edit operation that a letter stands for, if it stands for one. 'M' is
/// read as a match.
pub open spec fn op_of_letter(c: char) -> Option<EdlibEdopRs> {
    if c == 'M' || c == '=' {
        Some(EdlibEdopRs::EDLIB_EDOP_MATCH)
    } else if c == 'I' {
        Some(EdlibEdopRs::EDLIB_EDOP_INSERT)
    } else if c == 'D' {
        Some(EdlibEdopRs::EDLIB_EDOP_DELETE)
    } else if c == 'X' {
        Some(EdlibEdopRs::EDLIB_EDOP_MISMATCH)
    } else {
        None
    }
}

/// What has been read of a CIGAR text: the operations of the runs that are
/// complete, and the length read so far of a run whose letter is still to come.
pub struct Reading {
    pub ops: Seq<EdlibEdopRs>,
    pub count: Option<nat>,
}

/// `n` times the operation `op`.
pub open spec fn repeated(op: EdlibEdopRs, n: nat) -> Seq<EdlibEdopRs> {
    Seq::new(n, |i: int| op)
}

/// Reads one more character. A digit extends the length of the run that is
/// being read. A letter ends the run, and needs a length before it. Any other
/// character fails, and a failure stays.
pub open spec fn read_char(state: Option<Reading>, c: char) -> Option<Reading> {
    match state {
        None => None,
        Some(r) => if is_digit(c) {
            let so_far: nat = match r.count {
                Some(n) => n,
                None => 0,
            };
            Some(Reading { ops: r.ops, count: Some(so_far * 10 + digit_value(c)) })
        } else {
            match (op_of_letter(c), r.count) {
                (Some(op), Some(n)) => Some(Reading { ops: r.ops + repeated(op, n), count: None }),
                _ => None,
            }
        },
    }
}

/// Reads a text, character by character, from the given state.
pub open spec fn read_from(state: Option<Reading>, text: Seq<char>) -> Option<Reading>
    decreases text.len(),
{
    if text.len() == 0 {
        state
    } else {
        read_char(read_from(state, text.drop_last()), text.last())
    }
}

/// The state before anything is read.
pub open spec fn nothing_read() -> Option<Reading> {
    Some(Reading { ops: Seq::empty(), count: None })
}

/// The alignment path that a CIGAR text stands for: the text is a sequence of
/// runs, each a decimal length followed by one of the letters M, =, X, I, D.
/// Any other text stands for nothing.
pub open spec fn decoded(text: Seq<char>) -> Option<Seq<EdlibEdopRs>> {
    match read_from(nothing_read(), text) {
        Some(r) => if r.count is None {
            Some(r.ops)
        } else {
            None
        },
        None => None,
    }
}

/// The sum of the lengths of the runs.
pub open spec fn total_length(runs: Seq<(char, nat)>) -> nat
    decreases runs.len(),
{
    if runs.len() == 0 {
        0
    } else {
        total_length(runs.drop_last()) + runs.last().1
    }
}

/// How a path reads after it went through the notation: the standard
/// notation does not tell a mismatch from a match.
pub open spec fn as_written(ops: Seq<EdlibEdopRs>, format: EdlibCigarFormatRs) -> Seq<EdlibEdopRs> {
    Seq::new(
        ops.len(),
        |i: int|
            if format == EdlibCigarFormatRs::EDLIB_CIGAR_STANDARD && ops[i]
                == EdlibEdopRs::EDLIB_EDOP_MISMATCH {
                EdlibEdopRs::EDLIB_EDOP_MATCH
            } else {
                ops[i]
            },
    )
}

/// Reading two texts one after the other is reading their concatenation.
pub proof fn lemma_read_concat(state: Option<Reading>, a: Seq<char>, b: Seq<char>)
    ensures
        read_from(state, a + b) == read_from(read_from(state, a), b),
    decreases b.len(),
{
    if b.len() == 0 {
        assert(a + b =~= a);
    } else {
        lemma_read_concat(state, a, b.drop_last());
        assert((a + b).drop_last() =~= a + b.drop_last());
        assert((a + b).last() == b.last());
    }
}

/// Reading one character.
proof fn lemma_read_one(state: Option<Reading>, c: char)
    ensures
        read_from(state, seq![c]) == read_char(state, c),
{
    assert(seq![c].drop_last() =~= Seq::<char>::empty());
    assert(read_from(state, Seq::<char>::empty()) == state);
}

proof fn lemma_digits(d: int)
    requires
        0 <= d < 10,
    ensures
        is_digit(digit_char(d)),
        digit_value(digit_char(d)) == d,
{
}

/// Reading a number in decimal gives the number.
proof fn lemma_read_decimal(ops: Seq<EdlibEdopRs>, n: nat)
    ensures
        read_from(Some(Reading { ops, count: None }), decimal(n)) == Some(
            Reading { ops, count: Some(n) },
        ),
    decreases n,
{
    let start = Some(Reading { ops, count: None });
    if n < 10 {
        lemma_digits(n as int);
        lemma_read_one(start, digit_char(n as int));
    } else {
        lemma_read_decimal(ops, n / 10);
        lemma_digits((n % 10) as int);
        assert(decimal(n).drop_last() =~= decimal(n / 10));
    }
}

/// Reading one run appends its operations.
proof fn lemma_read_run(ops: Seq<EdlibEdopRs>, n: nat, c: char)
    requires
        op_of_letter(c) is Some,
    ensures
        read_from(Some(Reading { ops, count: None }), decimal(n).push(c)) == Some(
            Reading { ops: ops + repeated(op_of_letter(c)->0, n), count: None },
        ),
{
    lemma_read_decimal(ops, n);
    assert(decimal(n).push(c).drop_last() =~= decimal(n));
}

/// The operations of a sequence of runs.
pub open spec fn expanded(runs: Seq<(char, nat)>) -> Seq<EdlibEdopRs>
    decreases runs.len(),
{
    if runs.len() == 0 {
        Seq::empty()
    } else {
        expanded(runs.drop_last()) + repeated(op_of_letter(runs.last().0)->0, runs.last().1)
    }
}

/// Whether each run has a letter that stands for an operation.
pub open spec fn letters_stand(runs: Seq<(char, nat)>) -> bool {
    forall|i: int| 0 <= i < runs.len() ==> op_of_letter(#[trigger] runs[i].0) is Some
}

/// Reading the text of a sequence of runs appends the operations of the runs.
proof fn lemma_read_render(ops: Seq<EdlibEdopRs>, runs: Seq<(char, nat)>)
    requires
        letters_stand(runs),
    ensures
        read_from(Some(Reading { ops, count: None }), render(runs)) == Some(
            Reading { ops: ops + expanded(runs), count: None },
        ),
    decreases runs.len(),
{
    let start = Some(Reading { ops, count: None });
    if runs.len() == 0 {
        assert(ops + expanded(runs) =~= ops);
    } else {
        let head = runs.drop_last();
        assert forall|i: int| 0 <= i < head.len() implies op_of_letter(#[trigger] head[i].0) is Some by {
            assert(head[i] == runs[i]);
        }
        lemma_read_render(ops, head);
        let tail = decimal(runs.last().1).push(runs.last().0);
        lemma_read_concat(start, render(head), tail);
        assert(op_of_letter(runs[runs.len() - 1].0) is Some);
        lemma_read_run(ops + expanded(head), runs.last().1, runs.last().0);
        assert((ops + expanded(head)) + repeated(op_of_letter(runs.last().0)->0, runs.last().1)
            =~= ops + expanded(runs));
    }
}

/// The runs of a text hold the letters of the text, each as often as the text does.
proof fn lemma_runs_of(letters: Seq<char>)
    requires
        forall|i: int| 0 <= i < letters.len() ==> op_of_letter(#[trigger] letters[i]) is Some,
    ensures
        letters_stand(runs_of(letters)),
        total_length(runs_of(letters)) == letters.len(),
        expanded(runs_of(letters)) == Seq::new(letters.len(), |i: int| op_of_letter(letters[i])->0),
        forall|i: int| 0 <= i < runs_of(letters).len() ==> (#[trigger] runs_of(letters)[i]).1 >= 1,
    decreases letters.len(),
{
    let runs = runs_of(letters);
    let want = Seq::new(letters.len(), |i: int| op_of_letter(letters[i])->0);
    if letters.len() == 0 {
        assert(expanded(runs) =~= want);
    } else {
        let head = letters.drop_last();
        let before = runs_of(head);
        let c = letters.last();
        let op = op_of_letter(c)->0;
        assert forall|i: int| 0 <= i < head.len() implies op_of_letter(#[trigger] head[i]) is Some by {
            assert(head[i] == letters[i]);
        }
        lemma_runs_of(head);
        let want_head = Seq::new(head.len(), |i: int| op_of_letter(head[i])->0);
        assert(op_of_letter(letters[letters.len() - 1]) is Some);
        if before.len() > 0 && before.last().0 == c {
            let n = before.last().1;
            assert(runs.drop_last() =~= before.drop_last());
            assert(runs.last() == (c, n + 1));
            assert(before[before.len() - 1].1 >= 1);
            assert forall|i: int| 0 <= i < runs.len() implies op_of_letter(#[trigger] runs[i].0) is Some
                && runs[i].1 >= 1 by {
                if i < runs.len() - 1 {
                    assert(runs[i] == before[i]);
                }
            }
            assert(repeated(op, n + 1) =~= repeated(op, n).push(op));
            assert(expanded(before) == expanded(before.drop_last()) + repeated(op, n));
            assert(expanded(runs) =~= expanded(before).push(op));
        } else {
            assert(runs.drop_last() =~= before);
            assert forall|i: int| 0 <= i < runs.len() implies op_of_letter(#[trigger] runs[i].0) is Some
                && runs[i].1 >= 1 by {
                if i < runs.len() - 1 {
                    assert(runs[i] == before[i]);
                }
            }
            assert(repeated(op, 1) =~= seq![op]);
            assert(expanded(runs) =~= expanded(before).push(op));
        }
        assert(want =~= want_head.push(op));
    }
}

/// The lengths of the runs of a path add up to the length of the path.
pub proof fn law_run_lengths_add_up(ops: Seq<EdlibEdopRs>, format: EdlibCigarFormatRs)
    ensures
        total_length(runs_of(letters_of(ops, format))) == ops.len(),
{
    lemma_runs_of(letters_of(ops, format));
}

/// Decoding the CIGAR text of a path gives the path back: exactly in the
/// extended notation, and with each mismatch read as a match in the standard one.
pub proof fn law_cigar_decodes_to_path(ops: Seq<EdlibEdopRs>, format: EdlibCigarFormatRs)
    ensures
        decoded(cigar_text(ops, format)) == Some(as_written(ops, format)),
        format == EdlibCigarFormatRs::EDLIB_CIGAR_EXTENDED ==> decoded(cigar_text(ops, format))
            == Some(ops),
{
    let letters = letters_of(ops, format);
    lemma_runs_of(letters);
    lemma_read_render(Seq::empty(), runs_of(letters));
    assert(Seq::<EdlibEdopRs>::empty() + expanded(runs_of(letters)) =~= as_written(ops, format));
    if format == EdlibCigarFormatRs::EDLIB_CIGAR_EXTENDED {
        assert(as_written(ops, format) =~= ops);
    }
}

/// Whether nothing that is read on from the state can end in a path of at
/// most `MAX_PATH_LENGTH` operations.
pub open spec fn is_lost(state: Option<Reading>) -> bool {
    match state {
        None => true,
        Some(r) => r.ops.len() > MAX_PATH_LENGTH || (r.count matches Some(n) && n
            > MAX_PATH_LENGTH),
    }
}

/// What is lost stays lost.
proof fn lemma_lost_stays_lost(state: Option<Reading>, rest: Seq<char>)
    requires
        is_lost(state),
    ensures
        is_lost(read_from(state, rest)),
    decreases rest.len(),
{
    if rest.len() > 0 {
        lemma_lost_stays_lost(state, rest.drop_last());
    }
}

/// A text that is lost at some point stands for no path that is short enough.
proof fn lemma_lost_text(text: Seq<char>, upto: int)
    requires
        0 <= upto <= text.len(),
        is_lost(read_from(nothing_read(), text.take(upto))),
    ensures
        decoded(text) is None || decoded(text)->0.len() > MAX_PATH_LENGTH,
{
    assert(text =~= text.take(upto) + text.skip(upto));
    lemma_read_concat(nothing_read(), text.take(upto), text.skip(upto));
    lemma_lost_stays_lost(read_from(nothing_read(), text.take(upto)), text.skip(upto));
}

/// The edit operation that a byte stands for as a letter.
fn op_of_byte(b: u8) -> (op: Option<EdlibEdopRs>)
    ensures
        op == op_of_letter(b as char),
{
    if b == 77 || b == 61 {
        Some(EdlibEdopRs::EDLIB_EDOP_MATCH)
    } else if b == 73 {
        Some(EdlibEdopRs::EDLIB_EDOP_INSERT)
    } else if b == 68 {
        Some(EdlibEdopRs::EDLIB_EDOP_DELETE)
    } else if b == 88 {
        Some(EdlibEdopRs::EDLIB_EDOP_MISMATCH)
    } else {
        None
    }
}

/// Appends `n` times the operation `op`.
fn append_repeated(ops: &mut Vec<EdlibEdopRs>, op: EdlibEdopRs, n: usize)
    ensures
        final(ops)@ == old(ops)@ + repeated(op, n as nat),
{
    let mut i: usize = 0;
    assert(ops@ =~= old(ops)@ + repeated(op, 0));
    while i < n
        invariant
            i <= n,
            ops@ == old(ops)@ + repeated(op, i as nat),
        decreases n - i,
    {
        ops.push(op);
        i = i + 1;
        assert(ops@ =~= old(ops)@ + repeated(op, i as nat));
    }
}

/// Reads a CIGAR text back into the alignment path that it stands for. The
/// text stands for a path if it is a sequence of runs, each a decimal length
/// followed by one of the letters M, =, X, I, D; M is read as a match. A path
/// of more than `MAX_PATH_LENGTH` operations is not returned.
pub fn edlibCigarToAlignmentRs(cigar: &str) -> (path: Option<Vec<EdlibEdopRs>>)
    ensures
        path is Some <==> decoded(cigar@) is Some && decoded(cigar@)->0.len() <= MAX_PATH_LENGTH,
        path matches Some(v) ==> decoded(cigar@) == Some(v@),
{
    let ghost text = cigar@;
    if !cigar.is_ascii() {
        proof {
            let bad = choose|i: int| 0 <= i < text.len() && !('\0' <= #[trigger] text[i] <= '\u{7f}');
            assert(text.take(bad + 1).drop_last() =~= text.take(bad));
            lemma_lost_text(text, bad + 1);
        }
        return None;
    }
    let bytes = cigar.as_bytes();
    proof {
        vstd::string::is_ascii_spec_bytes(cigar);
    }
    let mut ops: Vec<EdlibEdopRs> = Vec::new();
    let mut count: Option<usize> = None;
    let mut i: usize = 0;
    assert(text.take(0) =~= Seq::<char>::empty());
    while i < bytes.len()
        invariant
            text == cigar@,
            bytes@.len() == text.len(),
            forall|x: int| 0 <= x < text.len() ==> bytes@[x] == #[trigger] text[x] as u8,
            forall|x: int| 0 <= x < text.len() ==> '\0' <= #[trigger] text[x] <= '\u{7f}',
            i <= bytes.len(),
            ops@.len() <= MAX_PATH_LENGTH,
            count matches Some(n) ==> n <= MAX_PATH_LENGTH,
            read_from(nothing_read(), text.take(i as int)) == Some(
                Reading {
                    ops: ops@,
                    count: match count {
                        Some(n) => Some(n as nat),
                        None => None,
                    },
                },
            ),
        decreases bytes.len() - i,
    {
        let b = bytes[i];
        let ghost c = text[i as int];
        proof {
            assert(text.take(i + 1).drop_last() =~= text.take(i as int));
            assert(text.take(i + 1).last() == c);
            assert(b == c as u8);
            assert(b as char == c);
        }
        if b >= 48 && b <= 57 {
            let so_far: u64 = match count {
                Some(n) => n as u64,
                None => 0,
            };
            let next: u64 = so_far * 10 + (b - 48) as u64;
            if next > MAX_PATH_LENGTH as u64 {
                proof {
                    lemma_lost_text(text, i + 1);
                }
                return None;
            }
            count = Some(next as usize);
        } else {
            match (op_of_byte(b), count) {
                (Some(op), Some(n)) => {
                    if n > MAX_PATH_LENGTH - ops.len() {
                        proof {
                            lemma_lost_text(text, i + 1);
                        }
                        return None;
                    }
                    append_repeated(&mut ops, op, n);
                    count = None;
                },
                _ => {
                    proof {
                        lemma_lost_text(text, i + 1);
                    }
                    return None;
                },
            }
        }
        i = i + 1;
    }
    assert(text.take(text.len() as int) =~= text);
    if count.is_some() {
        None
    } else {
        Some(ops)
    }
}

} // verus!
