//! Sequence records and the reader of record text.

use crate::text::{is_not_char, leading, lemma_leading, lemma_leading_run, lines, lines_of};
use vstd::prelude::*;

verus! {

/// One record of a sequence file.
#[derive(Debug)]
pub struct FastaSequence {
    /// The identifier: what the header line holds up to its first space.
    pub id: String,
    /// The rest of the header line.
    pub description: String,
    /// The symbols, one character each.
    pub sequence: String,
}

/// What a [`FastaSequence`] holds, as mathematical values.
pub struct Record {
    pub id: Seq<char>,
    pub description: Seq<char>,
    pub sequence: Seq<char>,
}

impl View for FastaSequence {
    type V = Record;

    open spec fn view(&self) -> Record {
        Record { id: self.id@, description: self.description@, sequence: self.sequence@ }
    }
}

impl DeepView for FastaSequence {
    type V = Record;

    open spec fn deep_view(&self) -> Record {
        self@
    }
}

/// Whether a symbol is the ambiguous marker, in either case.
pub open spec fn is_ambiguous(c: char) -> bool {
    c == 'N' || c == 'n'
}

/// Tests a symbol for being the ambiguous marker.
pub fn symbol_is_ambiguous(c: char) -> (b: bool)
    ensures
        b == is_ambiguous(c),
{
    c == 'N' || c == 'n'
}

/// Whether `line` is a header line: one that begins with the record marker.
pub open spec fn is_header(line: Seq<char>) -> bool {
    line.len() > 0 && line[0] == '>'
}

/// The index of the first space in `s`, or the length of `s` if it has none.
pub open spec fn first_space(s: Seq<char>) -> int {
    leading(s, is_not_char(' '))
}

/// The identifier that a header line gives: what follows the marker, up to the first
/// space.
pub open spec fn header_id(line: Seq<char>) -> Seq<char> {
    let rest = line.skip(1);
    rest.take(first_space(rest))
}

/// The description that a header line gives: what follows the first space after the
/// marker; empty if there is no space.
pub open spec fn header_description(line: Seq<char>) -> Seq<char> {
    let rest = line.skip(1);
    if first_space(rest) < rest.len() {
        rest.skip(first_space(rest) + 1)
    } else {
        Seq::empty()
    }
}

/// Reads the identifier and the description off a header line.
fn parse_header(line: &str) -> (r: (String, String))
    requires
        is_header(line@),
    ensures
        r.0@ == header_id(line@),
        r.1@ == header_description(line@),
{
    let mut id = String::new();
    let mut description = String::new();
    let mut first = true;
    let mut in_id = true;
    let ghost mut space_at: int = 0;
    for c in it: line.chars()
        invariant
            it.seq() == line@,
            first <==> it.index() == 0,
            in_id ==> description@.len() == 0 && (forall|j: int|
                1 <= j < it.index() ==> line@[j] != ' ') && (it.index() == 0 ==> id@.len() == 0)
                && (it.index() > 0 ==> id@ == line@.subrange(1, it.index() as int)),
            !in_id ==> 1 <= space_at < it.index() && line@[space_at] == ' ' && (forall|j: int|
                1 <= j < space_at ==> line@[j] != ' ') && id@ == line@.subrange(1, space_at)
                && description@ == line@.subrange(space_at + 1, it.index() as int),
    {
        let ghost i = it.index() as int;
        if first {
            first = false;
        } else if in_id {
            if c == ' ' {
                in_id = false;
                proof {
                    space_at = i;
                }
            } else {
                id.push(c);
            }
        } else {
            description.push(c);
        }
    }
    proof {
        let rest = line@.skip(1);
        if in_id {
            lemma_leading(rest, is_not_char(' '), rest.len() as int);
        } else {
            lemma_leading(rest, is_not_char(' '), space_at - 1);
        }
    }
    (id, description)
}

/// How far the reader has come: the records that are complete, and the one that is
/// still open, if any.
pub struct Scan {
    pub done: Seq<Record>,
    pub open: Option<Record>,
}

/// The records that are complete once whatever is open has been closed.
pub open spec fn closed(state: Scan) -> Seq<Record> {
    match state.open {
        Some(record) => state.done.push(record),
        None => state.done,
    }
}

/// One line's effect. A header line closes the open record and opens the record that it
/// names; a header line that names none, its identifier being empty, opens nothing. Any
/// other line is appended to the open record's sequence, and is dropped where no record
/// is open.
pub open spec fn scan_step(state: Scan, line: Seq<char>) -> Scan {
    if is_header(line) {
        Scan {
            done: closed(state),
            open: if header_id(line).len() > 0 {
                Some(
                    Record {
                        id: header_id(line),
                        description: header_description(line),
                        sequence: Seq::empty(),
                    },
                )
            } else {
                None
            },
        }
    } else {
        match state.open {
            Some(record) => Scan {
                done: state.done,
                open: Some(Record { sequence: record.sequence + line, ..record }),
            },
            None => state,
        }
    }
}

/// The reader's state after `lines`, starting with nothing read and no record open.
pub open spec fn scan(lines: Seq<Seq<char>>) -> Scan
    decreases lines.len(),
{
    if lines.len() == 0 {
        Scan { done: Seq::empty(), open: None }
    } else {
        scan_step(scan(lines.drop_last()), lines.last())
    }
}

/// The records that `lines` hold.
pub open spec fn records_of(lines: Seq<Seq<char>>) -> Seq<Record> {
    closed(scan(lines))
}

/// Whether `line` opens a record: it is a header line and gives an identifier.
pub open spec fn opens_record(line: Seq<char>) -> bool {
    is_header(line) && header_id(line).len() > 0
}

/// The test for opening a record, as a value.
pub open spec fn opening() -> spec_fn(Seq<char>) -> bool {
    |line: Seq<char>| opens_record(line)
}

/// An identifier that a header line gives holds no space.
pub proof fn lemma_header_id_has_no_space(line: Seq<char>, j: int)
    requires
        0 <= j < header_id(line).len(),
    ensures
        header_id(line)[j] != ' ',
{
    lemma_leading_run(line.skip(1), is_not_char(' '));
}

/// There are as many records as lines that open one: what stands before the first of
/// these lines belongs to no record.
pub proof fn lemma_record_count(lines: Seq<Seq<char>>)
    ensures
        records_of(lines).len() == lines.filter(opening()).len(),
{
    lemma_scan_count(lines);
}

/// The records that are complete and the one that is open are as many as the lines
/// that open one.
proof fn lemma_scan_count(lines: Seq<Seq<char>>)
    ensures
        scan(lines).done.len() + (if scan(lines).open is Some { 1int } else { 0int })
            == lines.filter(opening()).len(),
    decreases lines.len(),
{
    if lines.len() > 0 {
        let front = lines.drop_last();
        lemma_scan_count(front);
        assert(lines =~= front.push(lines.last()));
        Seq::lemma_filter_push(front, lines.last(), opening());
    } else {
        lines.lemma_filter_len(opening());
    }
}

/// Lines without a header line hold no record, whatever else they hold.
pub proof fn lemma_no_header_no_record(lines: Seq<Seq<char>>)
    requires
        forall|i: int| 0 <= i < lines.len() ==> !is_header(#[trigger] lines[i]),
    ensures
        records_of(lines) == Seq::<Record>::empty(),
    decreases lines.len(),
{
    if lines.len() > 0 {
        let front = lines.drop_last();
        lemma_no_header_no_record(front);
    }
}

/// Every record has an identifier, which is not empty and holds no space.
pub proof fn lemma_record_ids(lines: Seq<Seq<char>>, k: int)
    requires
        0 <= k < records_of(lines).len(),
    ensures
        records_of(lines)[k].id.len() > 0,
        forall|j: int| 0 <= j < records_of(lines)[k].id.len() ==> records_of(lines)[k].id[j] != ' ',
{
    lemma_scan_ids(lines);
}

/// Whether `id` is not empty and holds no space.
spec fn token(id: Seq<char>) -> bool {
    id.len() > 0 && forall|j: int| 0 <= j < id.len() ==> id[j] != ' '
}

/// Whatever the reader holds, complete or open, has such an identifier.
proof fn lemma_scan_ids(lines: Seq<Seq<char>>)
    ensures
        forall|k: int| 0 <= k < scan(lines).done.len() ==> token(#[trigger] scan(lines).done[k].id),
        scan(lines).open matches Some(record) ==> token(record.id),
    decreases lines.len(),
{
    if lines.len() > 0 {
        let front = lines.drop_last();
        let line = lines.last();
        lemma_scan_ids(front);
        if is_header(line) {
            assert forall|j: int| 0 <= j < header_id(line).len() implies header_id(line)[j]
                != ' ' by {
                lemma_header_id_has_no_space(line, j);
            }
        }
    }
}

/// Reads the records off the lines of a sequence file.
pub fn read_fasta_lines(lines: &Vec<String>) -> (out: Vec<FastaSequence>)
    ensures
        out.deep_view() == records_of(lines.deep_view()),
{
    let mut out: Vec<FastaSequence> = Vec::new();
    let mut is_open = false;
    let mut id = String::new();
    let mut description = String::new();
    let mut sequence = String::new();
    let mut i: usize = 0;
    while i < lines.len()
        invariant
            i <= lines.len(),
            out.deep_view() == scan(lines.deep_view().take(i as int)).done,
            scan(lines.deep_view().take(i as int)).open == if is_open {
                Some(Record { id: id@, description: description@, sequence: sequence@ })
            } else {
                None
            },
        decreases lines.len() - i,
    {
        let line = lines[i].as_str();
        proof {
            let seen = lines.deep_view().take(i as int + 1);
            assert(seen.drop_last() =~= lines.deep_view().take(i as int));
        }
        if !line.is_empty() && line.get_char(0) == '>' {
            if is_open {
                let record = FastaSequence { id, description, sequence };
                out.push(record);
            }
            let header = parse_header(line);
            id = header.0;
            description = header.1;
            sequence = String::new();
            is_open = !id.as_str().is_empty();
        } else if is_open {
            sequence.append(line);
        }
        i = i + 1;
    }
    proof {
        assert(lines.deep_view().take(lines.len() as int) =~= lines.deep_view());
    }
    if is_open {
        let record = FastaSequence { id, description, sequence };
        out.push(record);
    }
    out
}

/// Reads the records off the text of a sequence file.
pub fn read_fasta(text: &str) -> (out: Vec<FastaSequence>)
    ensures
        out.deep_view() == records_of(lines_of(text@)),
{
    let all = lines(text);
    read_fasta_lines(&all)
}

} // verus!
