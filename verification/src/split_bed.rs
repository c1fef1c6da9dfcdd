//! Extraction of the intervals of an interval list from a batch of records.

use crate::bed::{BedRecord, Interval};
use crate::fasta::{FastaSequence, Record};
use crate::number::{push_decimal, push_signed_decimal, signed_decimal};
use crate::split::numbered_id;
use vstd::prelude::*;
use vstd::string::is_ascii;
use vstd::utf8::{is_ascii_chars, is_ascii_chars_encode_utf8};

verus! {

/// What was extracted for one interval.
#[derive(Debug)]
pub struct BedSplitResult {
    /// The identifier of the source record.
    pub id: String,
    /// The interval's first index, counted from 0.
    pub start: i64,
    /// The index behind the interval's last, counted from 0.
    pub end: i64,
    /// The identifier of what was extracted.
    pub new_id: String,
    /// The symbols of the source record in the interval.
    pub sequence: String,
}

/// What a [`BedSplitResult`] holds, as mathematical values.
pub struct Extraction {
    pub id: Seq<char>,
    pub start: int,
    pub end: int,
    pub new_id: Seq<char>,
    pub sequence: Seq<char>,
}

impl View for BedSplitResult {
    type V = Extraction;

    open spec fn view(&self) -> Extraction {
        Extraction {
            id: self.id@,
            start: self.start as int,
            end: self.end as int,
            new_id: self.new_id@,
            sequence: self.sequence@,
        }
    }
}

impl DeepView for BedSplitResult {
    type V = Extraction;

    open spec fn deep_view(&self) -> Extraction {
        self@
    }
}

/// Whether the record at `i` is the first of `records` with the identifier `chrom`.
pub open spec fn is_first_match(records: Seq<Record>, chrom: Seq<char>, i: int) -> bool {
    &&& 0 <= i < records.len()
    &&& records[i].id == chrom
    &&& forall|j: int| 0 <= j < i ==> (#[trigger] records[j]).id != chrom
}

/// The index of the first of `records` with the identifier `chrom`, if there is one.
/// Records that share an identifier are no error: all but the first are never found.
pub open spec fn located(records: Seq<Record>, chrom: Seq<char>) -> Option<int> {
    if exists|i: int| is_first_match(records, chrom, i) {
        Some(choose|i: int| is_first_match(records, chrom, i))
    } else {
        None
    }
}

/// Whether `interval` can be extracted: a record has its identifier, and in the first
/// such record the interval is not empty and lies within the sequence.
pub open spec fn extractable(records: Seq<Record>, interval: Interval) -> bool {
    located(records, interval.chrom) matches Some(i) && 0 <= interval.start < interval.end
        <= records[i].sequence.len()
}

/// What is extracted for `interval`, as the `number`-th extraction of its batch, counted
/// from 1. An interval without a name is given the record's identifier and that number:
/// the number counts the extractions of the whole batch, not those of one record.
pub open spec fn extraction(records: Seq<Record>, interval: Interval, number: nat) -> Extraction {
    let source = records[located(records, interval.chrom).unwrap()];
    Extraction {
        id: interval.chrom,
        start: interval.start,
        end: interval.end,
        new_id: match interval.name {
            Some(name) => name,
            None => numbered_id(interval.chrom, number),
        },
        sequence: source.sequence.subrange(interval.start, interval.end),
    }
}

/// The message for an interval whose record is missing.
pub open spec fn not_found_message(chrom: Seq<char>) -> Seq<char> {
    ("chromosome "@ + chrom) + " not found"@
}

/// The message for an interval that is empty, inverted or not within its record.
pub open spec fn out_of_range_message(interval: Interval) -> Seq<char> {
    ((("Invalid BED record for "@ + interval.chrom) + ": start "@) + signed_decimal(
        interval.start,
    ) + ", end "@) + signed_decimal(interval.end)
}

/// The message for an interval that cannot be extracted.
pub open spec fn failure(records: Seq<Record>, interval: Interval) -> Seq<char> {
    if located(records, interval.chrom) is None {
        not_found_message(interval.chrom)
    } else {
        out_of_range_message(interval)
    }
}

/// The test for being extractable from `records`, as a value.
pub open spec fn succeeds(records: Seq<Record>) -> spec_fn(Interval) -> bool {
    |interval: Interval| extractable(records, interval)
}

/// The test for not being extractable from `records`, as a value.
pub open spec fn fails(records: Seq<Record>) -> spec_fn(Interval) -> bool {
    |interval: Interval| !extractable(records, interval)
}

/// The extractions of a batch: one for each interval that can be extracted, in the order
/// of the intervals, numbered from 1.
pub open spec fn extractions(records: Seq<Record>, intervals: Seq<Interval>) -> Seq<Extraction> {
    intervals.filter(succeeds(records)).map(
        |k: int, interval: Interval| extraction(records, interval, (k + 1) as nat),
    )
}

/// The messages of a batch: one for each interval that cannot be extracted, in the order
/// of the intervals.
pub open spec fn failures(records: Seq<Record>, intervals: Seq<Interval>) -> Seq<Seq<char>> {
    intervals.filter(fails(records)).map(|k: int, interval: Interval| failure(records, interval))
}

/// A first match is the one that `located` names.
pub proof fn lemma_located(records: Seq<Record>, chrom: Seq<char>, i: int)
    requires
        is_first_match(records, chrom, i),
    ensures
        located(records, chrom) == Some(i),
{
}

/// Finds the first record with the identifier `chrom`.
pub fn find_record(sequences: &Vec<FastaSequence>, chrom: &String) -> (found: Option<usize>)
    ensures
        found is Some <==> located(sequences.deep_view(), chrom@) is Some,
        found matches Some(i) ==> located(sequences.deep_view(), chrom@) == Some(i as int),
{
    let ghost records = sequences.deep_view();
    let mut i: usize = 0;
    while i < sequences.len()
        invariant
            i <= sequences.len(),
            records == sequences.deep_view(),
            forall|j: int| 0 <= j < i ==> (#[trigger] records[j]).id != chrom@,
        decreases sequences.len() - i,
    {
        if sequences[i].id == *chrom {
            proof {
                lemma_located(records, chrom@, i as int);
            }
            return Some(i);
        }
        i = i + 1;
    }
    None
}

/// What is known of a sequence before anything is cut from it: the number of its
/// symbols, and whether every symbol is one byte, so that a symbol is found by its index
/// without a walk through the sequence.
struct Shape {
    symbols: usize,
    ascii: bool,
}

/// Whether `shape` is the shape of the sequence of `record`.
spec fn fits(shape: Shape, record: Record) -> bool {
    shape.symbols == record.sequence.len() && shape.ascii == is_ascii_chars(record.sequence)
}

/// The symbols of `s` at the indices from `from` up to, and without, `to`.
fn slice(s: &str, ascii: bool, from: usize, to: usize) -> (out: String)
    requires
        ascii == is_ascii(s),
        from <= to <= s@.len(),
    ensures
        out@ == s@.subrange(from as int, to as int),
{
    if ascii {
        String::from_str(s.substring_ascii(from, to))
    } else {
        String::from_str(s.substring_char(from, to))
    }
}

/// Looks at a sequence once.
fn shape_of(s: &str) -> (shape: Shape)
    ensures
        shape.symbols == s@.len(),
        shape.ascii == is_ascii(s),
{
    if s.is_ascii() {
        proof {
            is_ascii_chars_encode_utf8(s@);
        }
        Shape { symbols: s.as_bytes().len(), ascii: true }
    } else {
        Shape { symbols: s.unicode_len(), ascii: false }
    }
}

/// Looks at every sequence once.
fn shapes_of(sequences: &Vec<FastaSequence>) -> (shapes: Vec<Shape>)
    ensures
        shapes.len() == sequences.len(),
        forall|i: int| 0 <= i < shapes.len() ==> fits(#[trigger] shapes[i], sequences[i]@),
{
    let mut shapes: Vec<Shape> = Vec::new();
    let mut i: usize = 0;
    while i < sequences.len()
        invariant
            i <= sequences.len(),
            shapes.len() == i,
            forall|k: int| 0 <= k < i ==> fits(#[trigger] shapes[k], sequences[k]@),
        decreases sequences.len() - i,
    {
        shapes.push(shape_of(sequences[i].sequence.as_str()));
        i = i + 1;
    }
    shapes
}

/// Extracts the intervals of `bed_records` from `sequences`, in the order of the
/// intervals. An interval that cannot be extracted adds a message to the second list and
/// changes nothing else: the batch goes on.
pub fn split_by_bed(sequences: &Vec<FastaSequence>, bed_records: &Vec<BedRecord>) -> (out: (
    Vec<BedSplitResult>,
    Vec<String>,
))
    ensures
        out.0.deep_view() == extractions(sequences.deep_view(), bed_records.deep_view()),
        out.1.deep_view() == failures(sequences.deep_view(), bed_records.deep_view()),
{
    let ghost records = sequences.deep_view();
    let ghost intervals = bed_records.deep_view();
    let shapes = shapes_of(sequences);
    let mut results: Vec<BedSplitResult> = Vec::new();
    let mut errors: Vec<String> = Vec::new();
    let mut j: usize = 0;
    while j < bed_records.len()
        invariant
            j <= bed_records.len(),
            shapes.len() == sequences.len(),
            forall|i: int| 0 <= i < shapes.len() ==> fits(#[trigger] shapes[i], sequences[i]@),
            records == sequences.deep_view(),
            intervals == bed_records.deep_view(),
            results.deep_view() == extractions(records, intervals.take(j as int)),
            errors.deep_view() == failures(records, intervals.take(j as int)),
        decreases bed_records.len() - j,
    {
        let record = &bed_records[j];
        let ghost interval = record@;
        let ghost seen = intervals.take(j as int);
        let ghost extracted = seen.filter(succeeds(records));
        proof {
            assert(intervals.take(j + 1) =~= seen.push(interval));
            Seq::lemma_filter_push(seen, interval, succeeds(records));
            Seq::lemma_filter_push(seen, interval, fails(records));
            seen.lemma_filter_len(succeeds(records));
            assert(results.deep_view().len() == extracted.len());
        }
        match find_record(sequences, &record.chrom) {
            None => {
                let mut message = String::from_str("chromosome ");
                message.append(record.chrom.as_str());
                message.append(" not found");
                errors.push(message);
                proof {
                    assert(failures(records, seen.push(interval)) =~= failures(records, seen).push(
                        failure(records, interval),
                    ));
                }
            },
            Some(i) => {
                let source = &sequences[i];
                let length = shapes[i].symbols;
                if record.start < 0 || record.end < 0 || record.start >= record.end
                    || record.end as u64 > length as u64 {
                    let mut message = String::from_str("Invalid BED record for ");
                    message.append(record.chrom.as_str());
                    message.append(": start ");
                    push_signed_decimal(&mut message, record.start);
                    message.append(", end ");
                    push_signed_decimal(&mut message, record.end);
                    errors.push(message);
                    proof {
                        assert(failures(records, seen.push(interval)) =~= failures(
                            records,
                            seen,
                        ).push(failure(records, interval)));
                    }
                } else {
                    let new_id = match &record.name {
                        Some(name) => name.clone(),
                        None => {
                            let mut id = record.chrom.clone();
                            id.push('_');
                            push_decimal(&mut id, (results.len() + 1) as u64);
                            assert(id@ =~= numbered_id(record.chrom@, (results.len() + 1) as nat));
                            id
                        },
                    };
                    let sequence = slice(
                        source.sequence.as_str(),
                        shapes[i].ascii,
                        record.start as usize,
                        record.end as usize,
                    );
                    let result = BedSplitResult {
                        id: record.chrom.clone(),
                        start: record.start,
                        end: record.end,
                        new_id,
                        sequence,
                    };
                    results.push(result);
                    proof {
                        assert(extractions(records, seen.push(interval)) =~= extractions(
                            records,
                            seen,
                        ).push(extraction(records, interval, (extracted.len() + 1) as nat)));
                    }
                }
            },
        }
        j = j + 1;
    }
    proof {
        assert(intervals.take(bed_records.len() as int) =~= intervals);
    }
    (results, errors)
}

/// Every interval gives one of the two, an extraction or a message, and not both.
pub proof fn lemma_one_outcome_each(records: Seq<Record>, intervals: Seq<Interval>)
    ensures
        extractions(records, intervals).len() + failures(records, intervals).len()
            == intervals.len(),
    decreases intervals.len(),
{
    if intervals.len() > 0 {
        let front = intervals.drop_last();
        lemma_one_outcome_each(records, front);
        assert(intervals =~= front.push(intervals.last()));
        Seq::lemma_filter_push(front, intervals.last(), succeeds(records));
        Seq::lemma_filter_push(front, intervals.last(), fails(records));
    } else {
        intervals.lemma_filter_len(succeeds(records));
        intervals.lemma_filter_len(fails(records));
    }
}

/// An interval that cannot be extracted, because no record has its identifier, or it is
/// empty or inverted, or it does not lie within the record, gives no extraction and one
/// message, and is not in the way of the others: the extractions of the batch are those
/// of the batch without it, and the messages are those of the batch without it with its
/// own put in at its place.
pub proof fn lemma_failed_interval(records: Seq<Record>, intervals: Seq<Interval>, j: int)
    requires
        0 <= j < intervals.len(),
        !extractable(records, intervals[j]),
    ensures
        extractions(records, intervals) == extractions(records, intervals.remove(j)),
        failures(records, intervals.remove(j)) == failures(records, intervals.take(j)) + failures(
            records,
            intervals.skip(j + 1),
        ),
        failures(records, intervals) == failures(records, intervals.take(j)).push(
            failure(records, intervals[j]),
        ) + failures(records, intervals.skip(j + 1)),
{
    let before = intervals.take(j);
    let after = intervals.skip(j + 1);
    let failed = intervals[j];
    assert(intervals =~= before.push(failed) + after);
    Seq::lemma_filter_push(before, failed, succeeds(records));
    Seq::lemma_filter_push(before, failed, fails(records));
    Seq::filter_distributes_over_add(before.push(failed), after, succeeds(records));
    Seq::filter_distributes_over_add(before.push(failed), after, fails(records));
    Seq::filter_distributes_over_add(before, after, succeeds(records));
    Seq::filter_distributes_over_add(before, after, fails(records));
}

} // verus!
