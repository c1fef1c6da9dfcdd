//! Intervals and the reader of interval text.

use crate::number::{integer_of, parse_integer};
use crate::text::{lines, lines_of, pieces, split};
use vstd::prelude::*;

verus! {

/// One interval of an interval file: the symbols of the record `chrom` at the indices
/// from `start` up to, and without, `end`, counted from 0.
///
/// The reader gives no interval with a negative `start` or `end`. It does give one whose
/// `start` lies at or behind its `end`: the extraction refuses such an interval.
#[derive(Debug)]
pub struct BedRecord {
    /// The identifier of the record that the interval lies in.
    pub chrom: String,
    /// The index of the first symbol.
    pub start: i64,
    /// The index behind the last symbol.
    pub end: i64,
    /// The identifier for what is extracted, where the file gives one.
    pub name: Option<String>,
}

/// What a [`BedRecord`] holds, as mathematical values.
pub struct Interval {
    pub chrom: Seq<char>,
    pub start: int,
    pub end: int,
    pub name: Option<Seq<char>>,
}

impl View for BedRecord {
    type V = Interval;

    open spec fn view(&self) -> Interval {
        Interval {
            chrom: self.chrom@,
            start: self.start as int,
            end: self.end as int,
            name: match self.name {
                Some(name) => Some(name@),
                None => None,
            },
        }
    }
}

impl DeepView for BedRecord {
    type V = Interval;

    open spec fn deep_view(&self) -> Interval {
        self@
    }
}

/// What is wrong with a line of an interval file.
#[derive(Debug, Clone, Copy, PartialEq, Eq, Structural)]
pub enum FormatErrorKind {
    /// The line does not have three or four fields.
    FieldCount,
    /// The second field is not an integer.
    Start,
    /// The third field is not an integer.
    End,
}

/// The first line of an interval file that is not an interval.
#[derive(Debug, Clone, Copy, PartialEq, Eq, Structural)]
pub struct FormatError {
    /// The index of the line, counted from 0.
    pub line: usize,
    /// What is wrong with it.
    pub kind: FormatErrorKind,
}

impl FormatError {
    /// The error in words.
    pub fn message(&self) -> (text: String)
        ensures
            text@ == match self.kind {
                FormatErrorKind::FieldCount => "Invalid BED format"@,
                FormatErrorKind::Start => "Invalid start position"@,
                FormatErrorKind::End => "Invalid end position"@,
            },
    {
        match self.kind {
            FormatErrorKind::FieldCount => String::from_str("Invalid BED format"),
            FormatErrorKind::Start => String::from_str("Invalid start position"),
            FormatErrorKind::End => String::from_str("Invalid end position"),
        }
    }
}

/// The coordinate that `s` writes: an integer that is not negative. `None` for every
/// other text, a negative integer among them.
pub open spec fn coordinate_of(s: Seq<char>) -> Option<int> {
    match integer_of(s) {
        Some(value) => if value >= 0 {
            Some(value)
        } else {
            None
        },
        None => None,
    }
}

/// The interval that `line` writes: three or four fields with a tab between
/// neighbours, the second and the third a coordinate each. Where the line is none, what
/// is wrong with it: the number of fields first, then the second field, then the third.
pub open spec fn interval_of(line: Seq<char>) -> Result<Interval, FormatErrorKind> {
    let fields = pieces(line, '\t');
    if fields.len() < 3 || fields.len() > 4 {
        Err(FormatErrorKind::FieldCount)
    } else if coordinate_of(fields[1]) is None {
        Err(FormatErrorKind::Start)
    } else if coordinate_of(fields[2]) is None {
        Err(FormatErrorKind::End)
    } else {
        Ok(
            Interval {
                chrom: fields[0],
                start: coordinate_of(fields[1]).unwrap(),
                end: coordinate_of(fields[2]).unwrap(),
                name: if fields.len() == 4 {
                    Some(fields[3])
                } else {
                    None
                },
            },
        )
    }
}

/// Reads `s` as a coordinate.
pub fn parse_coordinate(s: &str) -> (r: Option<i64>)
    ensures
        r is Some <==> coordinate_of(s@) is Some,
        r matches Some(v) ==> coordinate_of(s@) == Some(v as int),
{
    match parse_integer(s) {
        Some(value) => if value >= 0 {
            Some(value)
        } else {
            None
        },
        None => None,
    }
}

/// Reads one line of an interval file.
pub fn read_bed_line(line: &str) -> (out: Result<BedRecord, FormatErrorKind>)
    ensures
        match out {
            Ok(record) => interval_of(line@) == Ok::<Interval, FormatErrorKind>(record@),
            Err(kind) => interval_of(line@) == Err::<Interval, FormatErrorKind>(kind),
        },
        out matches Ok(record) ==> 0 <= record.start && 0 <= record.end,
{
    let fields = split(line, '\t');
    if fields.len() < 3 || fields.len() > 4 {
        return Err(FormatErrorKind::FieldCount);
    }
    let start = match parse_coordinate(fields[1].as_str()) {
        Some(value) => value,
        None => {
            return Err(FormatErrorKind::Start);
        },
    };
    let end = match parse_coordinate(fields[2].as_str()) {
        Some(value) => value,
        None => {
            return Err(FormatErrorKind::End);
        },
    };
    let name = if fields.len() == 4 {
        Some(fields[3].clone())
    } else {
        None
    };
    Ok(BedRecord { chrom: fields[0].clone(), start, end, name })
}

/// No interval that a line writes has a negative coordinate.
pub proof fn lemma_interval_not_negative(line: Seq<char>)
    ensures
        interval_of(line) matches Ok(interval) ==> 0 <= interval.start && 0 <= interval.end,
{
}

/// Whether no coordinate of `records` is negative.
pub open spec fn none_negative(records: Seq<Interval>) -> bool {
    forall|i: int|
        0 <= i < records.len() ==> 0 <= (#[trigger] records[i]).start && 0 <= records[i].end
}

/// Whatever a text and its lines hold, no interval that was read off them has a negative
/// coordinate: a line that writes one fails the whole file.
pub proof fn lemma_read_not_negative(
    lines: Seq<Seq<char>>,
    out: Result<Vec<BedRecord>, FormatError>,
)
    requires
        reads_as(lines, out),
    ensures
        out matches Ok(records) ==> none_negative(records.deep_view()),
{
    if let Ok(records) = out {
        assert forall|i: int| 0 <= i < records.deep_view().len() implies 0 <= (
        #[trigger] records.deep_view()[i]).start && 0 <= records.deep_view()[i].end by {
            lemma_interval_not_negative(lines[i]);
        }
    }
}

/// Whether `out` is what reading `lines` gives: every line's interval, in order, where
/// every line is an interval; else the first line that is none, with what is wrong with
/// it, and no interval at all.
pub open spec fn reads_as(lines: Seq<Seq<char>>, out: Result<Vec<BedRecord>, FormatError>) -> bool {
    match out {
        Ok(records) => {
            &&& records.len() == lines.len()
            &&& forall|i: int|
                0 <= i < lines.len() ==> interval_of(#[trigger] lines[i]) == Ok::<
                    Interval,
                    FormatErrorKind,
                >(records[i]@)
        },
        Err(error) => {
            &&& error.line < lines.len()
            &&& interval_of(lines[error.line as int]) == Err::<Interval, FormatErrorKind>(
                error.kind,
            )
            &&& forall|i: int| 0 <= i < error.line ==> interval_of(#[trigger] lines[i]) is Ok
        },
    }
}

/// Reads the intervals off the lines of an interval file. One line that is no interval
/// fails the whole file.
pub fn read_bed_lines(lines: &Vec<String>) -> (out: Result<Vec<BedRecord>, FormatError>)
    ensures
        reads_as(lines.deep_view(), out),
        out matches Ok(records) ==> none_negative(records.deep_view()),
{
    let mut records: Vec<BedRecord> = Vec::new();
    let mut i: usize = 0;
    while i < lines.len()
        invariant
            i <= lines.len(),
            records.len() == i,
            forall|k: int|
                0 <= k < i ==> interval_of(#[trigger] lines.deep_view()[k]) == Ok::<
                    Interval,
                    FormatErrorKind,
                >(records[k]@),
        decreases lines.len() - i,
    {
        match read_bed_line(lines[i].as_str()) {
            Ok(record) => {
                records.push(record);
            },
            Err(kind) => {
                return Err(FormatError { line: i, kind });
            },
        }
        i = i + 1;
    }
    proof {
        lemma_read_not_negative(lines.deep_view(), Ok(records));
    }
    Ok(records)
}

/// Reads the intervals off the text of an interval file.
pub fn read_bed(text: &str) -> (out: Result<Vec<BedRecord>, FormatError>)
    ensures
        reads_as(lines_of(text@), out),
        out matches Ok(records) ==> none_negative(records.deep_view()),
{
    let all = lines(text);
    read_bed_lines(&all)
}

} // verus!
