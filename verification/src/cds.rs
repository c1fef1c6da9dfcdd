//! Checks of coding sequences: start and stop codon, symbols, length, and stop codons
//! before the end.

use crate::fasta::is_header;
use crate::text::{is_char, leading, lemma_leading, lines, lines_of};
use vstd::prelude::*;
use vstd::utf8::encode_utf8;

verus! {

/// What is wrong with one coding sequence.
#[derive(Debug, Clone, Copy, PartialEq, Eq, Structural)]
pub struct ErrorReport {
    /// The sequence does not begin with the start codon.
    pub missing_start_codon: bool,
    /// The sequence does not end with a stop codon.
    pub missing_stop_codon: bool,
    /// The sequence holds a symbol that is none of the four bases.
    pub illegal_codon_sequence: bool,
    /// The number of bytes of the sequence is no multiple of three.
    pub non_multiple_of_three_length: bool,
    /// A codon before the last is a stop codon.
    pub premature_stop_codon: bool,
}

impl ErrorReport {
    /// Whether anything is wrong.
    pub open spec fn flagged(self) -> bool {
        self.missing_start_codon || self.missing_stop_codon || self.illegal_codon_sequence
            || self.non_multiple_of_three_length || self.premature_stop_codon
    }

    /// Tests whether anything is wrong.
    pub fn has_error(&self) -> (b: bool)
        ensures
            b == self.flagged(),
    {
        self.missing_start_codon || self.missing_stop_codon || self.illegal_codon_sequence
            || self.non_multiple_of_three_length || self.premature_stop_codon
    }
}

/// Whether the three symbols are one of the stop codons `TAA`, `TAG` and `TGA`.
pub open spec fn is_stop_codon(a: char, b: char, c: char) -> bool {
    a == 'T' && ((b == 'A' && (c == 'A' || c == 'G')) || (b == 'G' && c == 'A'))
}

/// Whether a symbol is one of the four bases, in upper case.
pub open spec fn is_base(c: char) -> bool {
    c == 'A' || c == 'T' || c == 'C' || c == 'G'
}

/// Whether `u` begins with the start codon `ATG`.
pub open spec fn has_start_codon(u: Seq<char>) -> bool {
    u.len() >= 3 && u[0] == 'A' && u[1] == 'T' && u[2] == 'G'
}

/// Whether `u` ends with a stop codon.
pub open spec fn has_final_stop_codon(u: Seq<char>) -> bool {
    u.len() >= 3 && is_stop_codon(u[u.len() - 3], u[u.len() - 2], u[u.len() - 1])
}

/// Whether one of the first `n` symbols of `u` is no base.
pub open spec fn has_illegal_symbol(u: Seq<char>, n: int) -> bool {
    exists|i: int| 0 <= i < n && !is_base(#[trigger] u[i])
}

/// Whether the `k`-th codon of `u`, counted from 0, is a stop codon. The codons are the
/// symbols in threes from the start.
pub open spec fn codon_is_stop(u: Seq<char>, k: int) -> bool {
    is_stop_codon(u[3 * k], u[3 * k + 1], u[3 * k + 2])
}

/// Whether a codon that the first `n` symbols of `u` hold, and that is followed by at
/// least one more of them, is a stop codon.
pub open spec fn has_stop_before(u: Seq<char>, n: int) -> bool {
    exists|k: int| 0 <= k && 3 * k + 3 < n && #[trigger] codon_is_stop(u, k)
}

/// What is wrong with the sequence `u`, which is taken as it is: a symbol in lower case
/// is no base. The length that has to be a multiple of three is the number of bytes of
/// the text; every base is one byte.
pub open spec fn report_of(u: Seq<char>) -> ErrorReport {
    ErrorReport {
        missing_start_codon: !has_start_codon(u),
        missing_stop_codon: !has_final_stop_codon(u),
        illegal_codon_sequence: has_illegal_symbol(u, u.len() as int),
        non_multiple_of_three_length: encode_utf8(u).len() % 3 != 0,
        premature_stop_codon: has_stop_before(u, u.len() as int),
    }
}

/// Tests a symbol for being a base.
fn symbol_is_base(c: char) -> (b: bool)
    ensures
        b == is_base(c),
{
    c == 'A' || c == 'T' || c == 'C' || c == 'G'
}

/// Tests three symbols for being a stop codon.
fn symbols_are_stop_codon(a: char, b: char, c: char) -> (stop: bool)
    ensures
        stop == is_stop_codon(a, b, c),
{
    a == 'T' && ((b == 'A' && (c == 'A' || c == 'G')) || (b == 'G' && c == 'A'))
}

/// Checks a sequence that is in upper case already.
pub fn check_upper_case(sequence: &str) -> (report: ErrorReport)
    ensures
        report == report_of(sequence@),
{
    let ghost u = sequence@;
    // How many symbols were read, up to three, and the first three of them.
    let mut seen: u8 = 0;
    let mut first = ('\0', '\0', '\0');
    // The last three symbols read, the latest last.
    let mut last = ('\0', '\0', '\0');
    // The number of symbols read, modulo three.
    let mut phase: u8 = 0;
    // Whether the symbols read end with a whole codon that is a stop codon.
    let mut stop_pending = false;
    let mut premature = false;
    let mut illegal = false;
    for c in it: sequence.chars()
        invariant
            it.seq() == u,
            seen == if it.index() < 3 { it.index() } else { 3int },
            phase == it.index() % 3,
            seen >= 1 ==> first.0 == u[0] && last.2 == u[it.index() - 1],
            seen >= 2 ==> first.1 == u[1] && last.1 == u[it.index() - 2],
            seen >= 3 ==> first.2 == u[2] && last.0 == u[it.index() - 3],
            illegal == has_illegal_symbol(u, it.index() as int),
            premature == has_stop_before(u, it.index() as int),
            stop_pending == (it.index() >= 3 && phase == 0 && codon_is_stop(
                u,
                it.index() / 3 - 1,
            )),
    {
        if stop_pending {
            premature = true;
        }
        stop_pending = phase == 2 && symbols_are_stop_codon(last.1, last.2, c);
        if !symbol_is_base(c) {
            illegal = true;
        }
        if seen == 0 {
            first.0 = c;
        } else if seen == 1 {
            first.1 = c;
        } else if seen == 2 {
            first.2 = c;
        }
        if seen < 3 {
            seen = seen + 1;
        }
        last = (last.1, last.2, c);
        phase = if phase == 2 { 0 } else { phase + 1 };
    }
    let starts = seen == 3 && first.0 == 'A' && first.1 == 'T' && first.2 == 'G';
    let ends = seen == 3 && symbols_are_stop_codon(last.0, last.1, last.2);
    ErrorReport {
        missing_start_codon: !starts,
        missing_stop_codon: !ends,
        illegal_codon_sequence: illegal,
        non_multiple_of_three_length: sequence.as_bytes().len() % 3 != 0,
        premature_stop_codon: premature,
    }
}

/// The text that `str::to_uppercase` of the standard library returns for the text
/// `s`: its upper-case equivalent by the rules of Unicode, which need not have the
/// length of `s`.
pub uninterp spec fn upper_case(s: Seq<char>) -> Seq<char>;

/// Calls `str::to_uppercase`. All that is claimed of it is that its result depends
/// on the text alone.
#[verifier::external_body]
fn to_upper_case(s: &str) -> (upper: String)
    ensures
        upper@ == upper_case(s@),
{
    s.to_uppercase()
}

/// Checks a coding sequence, whatever the case it is written in: what is checked is its
/// upper-case equivalent.
pub fn check_for_errors(sequence: &str) -> (report: ErrorReport)
    ensures
        report == report_of(upper_case(sequence@)),
{
    let upper = to_upper_case(sequence);
    check_upper_case(upper.as_str())
}

/// One coding sequence.
#[derive(Debug)]
pub struct CdsSequence {
    /// The identifier: the whole header line behind its markers.
    pub id: String,
    /// The symbols.
    pub sequence: String,
}

/// What a [`CdsSequence`] holds, as mathematical values.
pub struct Cds {
    pub id: Seq<char>,
    pub sequence: Seq<char>,
}

impl View for CdsSequence {
    type V = Cds;

    open spec fn view(&self) -> Cds {
        Cds { id: self.id@, sequence: self.sequence@ }
    }
}

impl DeepView for CdsSequence {
    type V = Cds;

    open spec fn deep_view(&self) -> Cds {
        self@
    }
}

/// The number of record markers that `line` begins with.
pub open spec fn leading_markers(line: Seq<char>) -> int {
    leading(line, is_char('>'))
}

/// The identifier that a header line gives: the line without the markers that it begins
/// with.
pub open spec fn cds_id(line: Seq<char>) -> Seq<char> {
    line.skip(leading_markers(line))
}

/// Reads the identifier off a header line.
fn read_cds_header(line: &str) -> (id: String)
    ensures
        id@ == cds_id(line@),
{
    let mut id = String::new();
    let mut in_markers = true;
    let ghost mut from: int = 0;
    for c in it: line.chars()
        invariant
            it.seq() == line@,
            in_markers ==> id@.len() == 0 && forall|j: int| 0 <= j < it.index() ==> line@[j] == '>',
            !in_markers ==> 0 <= from < it.index() && line@[from] != '>' && (forall|j: int|
                0 <= j < from ==> line@[j] == '>') && id@ == line@.subrange(
                from,
                it.index() as int,
            ),
    {
        let ghost i = it.index() as int;
        if !in_markers || c != '>' {
            proof {
                if in_markers {
                    from = i;
                }
            }
            in_markers = false;
            id.push(c);
        }
    }
    proof {
        if in_markers {
            lemma_leading(line@, is_char('>'), line@.len() as int);
        } else {
            lemma_leading(line@, is_char('>'), from);
        }
    }
    id
}

/// How far the reader of coding sequences has come: the sequences that are complete,
/// the identifier that the last header line gave, and the symbols collected since a
/// sequence was completed.
pub struct CdsScan {
    pub done: Seq<Cds>,
    pub id: Seq<char>,
    pub sequence: Seq<char>,
}

/// The sequences that are complete once the open one, if any, has been closed. One is
/// open while the identifier is not empty.
pub open spec fn cds_closed(state: CdsScan) -> Seq<Cds> {
    if state.id.len() > 0 {
        state.done.push(Cds { id: state.id, sequence: state.sequence })
    } else {
        state.done
    }
}

/// One line's effect. A header line closes the open sequence and gives the next
/// identifier. Any other line is collected, also while no sequence is open: such
/// symbols are not dropped, they begin the next sequence that is closed.
pub open spec fn cds_step(state: CdsScan, line: Seq<char>) -> CdsScan {
    if is_header(line) {
        CdsScan {
            done: cds_closed(state),
            id: cds_id(line),
            sequence: if state.id.len() > 0 {
                Seq::empty()
            } else {
                state.sequence
            },
        }
    } else {
        CdsScan { sequence: state.sequence + line, ..state }
    }
}

/// The reader's state after `lines`.
pub open spec fn cds_scan(lines: Seq<Seq<char>>) -> CdsScan
    decreases lines.len(),
{
    if lines.len() == 0 {
        CdsScan { done: Seq::empty(), id: Seq::empty(), sequence: Seq::empty() }
    } else {
        cds_step(cds_scan(lines.drop_last()), lines.last())
    }
}

/// The coding sequences that `lines` hold.
pub open spec fn cds_of(lines: Seq<Seq<char>>) -> Seq<Cds> {
    cds_closed(cds_scan(lines))
}

/// Reads the coding sequences off the lines of a file.
pub fn read_cds_lines(lines: &Vec<String>) -> (out: Vec<CdsSequence>)
    ensures
        out.deep_view() == cds_of(lines.deep_view()),
{
    let mut out: Vec<CdsSequence> = Vec::new();
    let mut id = String::new();
    let mut sequence = String::new();
    let mut i: usize = 0;
    while i < lines.len()
        invariant
            i <= lines.len(),
            cds_scan(lines.deep_view().take(i as int)).done == out.deep_view(),
            cds_scan(lines.deep_view().take(i as int)).id == id@,
            cds_scan(lines.deep_view().take(i as int)).sequence == sequence@,
        decreases lines.len() - i,
    {
        let line = lines[i].as_str();
        proof {
            let seen = lines.deep_view().take(i as int + 1);
            assert(seen.drop_last() =~= lines.deep_view().take(i as int));
        }
        if !line.is_empty() && line.get_char(0) == '>' {
            if !id.as_str().is_empty() {
                let record = CdsSequence { id, sequence };
                out.push(record);
                sequence = String::new();
            }
            id = read_cds_header(line);
        } else {
            sequence.append(line);
        }
        i = i + 1;
    }
    proof {
        assert(lines.deep_view().take(lines.len() as int) =~= lines.deep_view());
    }
    if !id.as_str().is_empty() {
        let record = CdsSequence { id, sequence };
        out.push(record);
    }
    out
}

/// Reads the coding sequences off the text of a file.
pub fn read_cds(text: &str) -> (out: Vec<CdsSequence>)
    ensures
        out.deep_view() == cds_of(lines_of(text@)),
{
    let all = lines(text);
    read_cds_lines(&all)
}

} // verus!
