//! Splitting of records at runs of the ambiguous symbol.

use crate::fasta::{is_ambiguous, symbol_is_ambiguous, FastaSequence, Record};
use crate::number::{decimal, push_decimal};
use crate::runs::{
    all_ambiguous, boundary, end_before, ended_runs, lemma_boundary_bounds,
    lemma_runs_all_ambiguous, lemma_runs_are_maximal, lemma_runs_segment,
    lemma_runs_without_ambiguous, none_ambiguous, placed, runs, Span,
};
use crate::stats::{ambiguous, ambiguous_count};
use crate::text::character_bound;
use vstd::prelude::*;

verus! {

/// Where a fragment lies in the record that it was cut from.
#[derive(Debug)]
pub struct SplitPosition {
    /// The identifier of the source record.
    pub id: String,
    /// The position of the fragment's first symbol in the source, counted from 1.
    pub start: usize,
    /// The position of the fragment's last symbol in the source, counted from 1.
    pub end: usize,
    /// The identifier of the fragment.
    pub new_id: String,
}

/// What a [`SplitPosition`] holds, as mathematical values.
pub struct Position {
    pub id: Seq<char>,
    pub start: int,
    pub end: int,
    pub new_id: Seq<char>,
}

impl View for SplitPosition {
    type V = Position;

    open spec fn view(&self) -> Position {
        Position {
            id: self.id@,
            start: self.start as int,
            end: self.end as int,
            new_id: self.new_id@,
        }
    }
}

impl DeepView for SplitPosition {
    type V = Position;

    open spec fn deep_view(&self) -> Position {
        self@
    }
}

/// An identifier followed by an underscore and a number in decimal.
pub open spec fn numbered_id(id: Seq<char>, number: nat) -> Seq<char> {
    (id + seq!['_']) + decimal(number)
}

/// The fragment that the run `span`, the `k`-th of its record counted from 0, gives.
pub open spec fn fragment(record: Record, span: Span, k: int) -> Record {
    Record {
        id: numbered_id(record.id, (k + 1) as nat),
        description: record.description,
        sequence: record.sequence.subrange(span.start, span.end),
    }
}

/// The position that is recorded for that fragment: first and last symbol, counted
/// from 1.
pub open spec fn position(record: Record, span: Span, k: int) -> Position {
    Position {
        id: record.id,
        start: span.start + 1,
        end: span.end,
        new_id: numbered_id(record.id, (k + 1) as nat),
    }
}

/// The fragments that the runs `spans` of `record` give.
pub open spec fn fragments_at(record: Record, spans: Seq<Span>) -> Seq<Record> {
    spans.map(|k: int, span: Span| fragment(record, span, k))
}

/// The positions that the runs `spans` of `record` give.
pub open spec fn positions_at(record: Record, spans: Seq<Span>) -> Seq<Position> {
    spans.map(|k: int, span: Span| position(record, span, k))
}

/// The fragments of one record, in scan order, numbered from 1.
pub open spec fn record_fragments(record: Record) -> Seq<Record> {
    fragments_at(record, runs(record.sequence))
}

/// The positions of one record's fragments.
pub open spec fn record_positions(record: Record) -> Seq<Position> {
    positions_at(record, runs(record.sequence))
}

/// The fragments of a batch: those of each record, in the order of the records.
pub open spec fn fragments(records: Seq<Record>) -> Seq<Record> {
    records.flat_map(|record: Record| record_fragments(record))
}

/// The positions of a batch's fragments, in the same order.
pub open spec fn positions(records: Seq<Record>) -> Seq<Position> {
    records.flat_map(|record: Record| record_positions(record))
}

/// Fewer runs have ended among the first `n` symbols than there are symbols.
proof fn lemma_ended_runs_len(s: Seq<char>, n: int)
    ensures
        ended_runs(s, n).len() <= if n <= 1 { 0 } else { n - 1 },
    decreases n,
{
    if n > 0 {
        lemma_ended_runs_len(s, n - 1);
    }
}

/// Appends one fragment and its position.
fn emit(
    record: &FastaSequence,
    symbols: String,
    start: usize,
    end: usize,
    number: usize,
    fragments: &mut Vec<FastaSequence>,
    positions: &mut Vec<SplitPosition>,
)
    requires
        number >= 1,
        0 <= start <= end <= record.sequence@.len(),
        start < usize::MAX,
        symbols@ == record.sequence@.subrange(start as int, end as int),
    ensures
        final(fragments).deep_view() == old(fragments).deep_view().push(
            fragment(record@, Span { start: start as int, end: end as int }, number - 1),
        ),
        final(positions).deep_view() == old(positions).deep_view().push(
            position(record@, Span { start: start as int, end: end as int }, number - 1),
        ),
{
    let mut new_id = record.id.clone();
    new_id.push('_');
    push_decimal(&mut new_id, number as u64);
    assert(new_id@ =~= numbered_id(record.id@, number as nat));
    let piece = FastaSequence {
        id: new_id.clone(),
        description: record.description.clone(),
        sequence: symbols,
    };
    let place = SplitPosition { id: record.id.clone(), start: start + 1, end, new_id };
    fragments.push(piece);
    positions.push(place);
}

/// Splits one record and appends its fragments and their positions.
pub fn split_record(
    record: &FastaSequence,
    fragments: &mut Vec<FastaSequence>,
    positions: &mut Vec<SplitPosition>,
)
    ensures
        final(fragments).deep_view() == old(fragments).deep_view() + record_fragments(record@),
        final(positions).deep_view() == old(positions).deep_view() + record_positions(record@),
{
    let ghost s = record.sequence@;
    let bound = character_bound(record.sequence.as_str());
    let mut i: usize = 0;
    let mut start: usize = 0;
    let mut segment_count: usize = 1;
    let mut current = String::new();
    for c in it: record.sequence.as_str().chars()
        invariant
            it.seq() == s,
            s == record.sequence@,
            s.len() <= bound,
            i == it.index(),
            start == boundary(s, i as int),
            start <= i,
            current@ == s.subrange(start as int, i as int),
            segment_count == ended_runs(s, i as int).len() + 1,
            fragments.deep_view() == old(fragments).deep_view() + fragments_at(
                record@,
                ended_runs(s, i as int),
            ),
            positions.deep_view() == old(positions).deep_view() + positions_at(
                record@,
                ended_runs(s, i as int),
            ),
    {
        proof {
            lemma_ended_runs_len(s, i as int);
        }
        if symbol_is_ambiguous(c) {
            if start < i {
                emit(record, current, start, i, segment_count, fragments, positions);
                current = String::new();
                segment_count = segment_count + 1;
            }
            start = i + 1;
        } else {
            current.push(c);
        }
        i = i + 1;
    }
    if start < i {
        emit(record, current, start, i, segment_count, fragments, positions);
    }
}

/// Splits every record at its runs of the ambiguous symbol. The fragments come in the
/// order of the records and, within a record, in scan order; their numbers start at 1
/// in every record. A position is returned for each fragment, in the same order.
pub fn split_sequences(sequences: &Vec<FastaSequence>) -> (out: (
    Vec<FastaSequence>,
    Vec<SplitPosition>,
))
    ensures
        out.0.deep_view() == fragments(sequences.deep_view()),
        out.1.deep_view() == positions(sequences.deep_view()),
{
    let mut new_sequences: Vec<FastaSequence> = Vec::new();
    let mut split_positions: Vec<SplitPosition> = Vec::new();
    let mut r: usize = 0;
    while r < sequences.len()
        invariant
            r <= sequences.len(),
            new_sequences.deep_view() == fragments(sequences.deep_view().take(r as int)),
            split_positions.deep_view() == positions(sequences.deep_view().take(r as int)),
        decreases sequences.len() - r,
    {
        proof {
            let seen = sequences.deep_view().take(r as int);
            let record = sequences[r as int]@;
            assert(sequences.deep_view().take(r + 1) =~= seen.push(record));
            seen.lemma_flat_map_push(|record: Record| record_fragments(record), record);
            seen.lemma_flat_map_push(|record: Record| record_positions(record), record);
        }
        split_record(&sequences[r], &mut new_sequences, &mut split_positions);
        r = r + 1;
    }
    proof {
        assert(sequences.deep_view().take(sequences.len() as int) =~= sequences.deep_view());
    }
    (new_sequences, split_positions)
}

/// A fragment and its position belong together: the position names the fragment and
/// the source, and it says where in the source the fragment's symbols stand. No
/// fragment is empty, and none holds an ambiguous symbol.
pub proof fn lemma_fragment_at_position(record: Record, k: int)
    requires
        0 <= k < record_fragments(record).len(),
    ensures
        record_positions(record).len() == record_fragments(record).len(),
        ({
            let piece = record_fragments(record)[k];
            let place = record_positions(record)[k];
            &&& place.id == record.id
            &&& place.new_id == piece.id
            &&& piece.description == record.description
            &&& 1 <= place.start <= place.end <= record.sequence.len()
            &&& piece.sequence == record.sequence.subrange(place.start - 1, place.end)
            &&& none_ambiguous(piece.sequence, 0, piece.sequence.len() as int)
        }),
{
    lemma_runs_are_maximal(record.sequence, k);
}

/// A record that is not empty and holds no ambiguous symbol gives one fragment: its
/// whole sequence, with the number 1, at the positions from 1 to its length.
pub proof fn lemma_unbroken_record(record: Record)
    requires
        record.sequence.len() > 0,
        none_ambiguous(record.sequence, 0, record.sequence.len() as int),
    ensures
        record_fragments(record) == seq![
            Record {
                id: record.id + seq!['_', '1'],
                description: record.description,
                sequence: record.sequence,
            },
        ],
        record_positions(record) == seq![
            Position {
                id: record.id,
                start: 1,
                end: record.sequence.len() as int,
                new_id: record.id + seq!['_', '1'],
            },
        ],
{
    let s = record.sequence;
    lemma_runs_without_ambiguous(s);
    assert(numbered_id(record.id, 1) =~= record.id + seq!['_', '1']);
    assert(s.subrange(0, s.len() as int) =~= s);
}

/// A record of ambiguous symbols only, and so an empty record too, gives no fragment
/// and no position.
pub proof fn lemma_ambiguous_record(record: Record)
    requires
        all_ambiguous(record.sequence, 0, record.sequence.len() as int),
    ensures
        record_fragments(record) == Seq::<Record>::empty(),
        record_positions(record) == Seq::<Position>::empty(),
{
    lemma_runs_all_ambiguous(record.sequence);
}

/// `n` ambiguous symbols, written in upper case; nothing where `n` is not positive.
pub open spec fn gap(n: int) -> Seq<char> {
    Seq::new(if n > 0 { n as nat } else { 0 }, |i: int| 'N')
}

/// `s` with every ambiguous symbol written in upper case.
pub open spec fn canonical(s: Seq<char>) -> Seq<char> {
    Seq::new(s.len(), |i: int| if is_ambiguous(s[i]) { 'N' } else { s[i] })
}

/// The source up to the end of the `k`-th fragment, put together again: each fragment
/// behind the one before it, with as many ambiguous symbols in between as its position
/// leaves room for.
pub open spec fn rebuilt_upto(fragments: Seq<Record>, positions: Seq<Position>, k: int) -> Seq<
    char,
>
    decreases k,
{
    if k <= 0 {
        Seq::empty()
    } else {
        let before = rebuilt_upto(fragments, positions, k - 1);
        (before + gap(positions[k - 1].start - 1 - before.len())) + fragments[k - 1].sequence
    }
}

/// The source put together again from its fragments, their positions and its length.
pub open spec fn rebuilt(fragments: Seq<Record>, positions: Seq<Position>, length: int) -> Seq<
    char,
> {
    let body = rebuilt_upto(fragments, positions, fragments.len() as int);
    body + gap(length - body.len())
}

/// What is put together up to the `k`-th fragment is the source up to that fragment's
/// end, with its ambiguous symbols in upper case.
proof fn lemma_rebuilt_upto(record: Record, k: int)
    requires
        0 <= k <= runs(record.sequence).len(),
    ensures
        rebuilt_upto(record_fragments(record), record_positions(record), k) == canonical(
            record.sequence,
        ).take(end_before(runs(record.sequence), k)),
    decreases k,
{
    let s = record.sequence;
    let spans = runs(s);
    lemma_runs_segment(s);
    if k > 0 {
        lemma_rebuilt_upto(record, k - 1);
        assert(placed(s, spans, k - 1));
    }
}

/// The fragments of a record, each put at its position, and ambiguous symbols in the
/// gaps between them and up to the record's length, give the record's sequence back,
/// with its ambiguous symbols in upper case: a fragment does not tell in which case an
/// ambiguous symbol was written. A sequence without the lower-case marker comes back as
/// it was.
pub proof fn lemma_round_trip(record: Record)
    ensures
        rebuilt(
            record_fragments(record),
            record_positions(record),
            record.sequence.len() as int,
        ) == canonical(record.sequence),
        (forall|j: int| 0 <= j < record.sequence.len() ==> record.sequence[j] != 'n') ==> rebuilt(
            record_fragments(record),
            record_positions(record),
            record.sequence.len() as int,
        ) == record.sequence,
{
    let s = record.sequence;
    let spans = runs(s);
    lemma_runs_segment(s);
    lemma_rebuilt_upto(record, spans.len() as int);
}

/// Without the record's length, fragments and positions give the sequence back as far
/// as the last fragment reaches: how many ambiguous symbols follow it, no position
/// tells. So a sequence that does not end with an ambiguous symbol comes back whole.
pub proof fn lemma_round_trip_without_length(record: Record)
    ensures
        ({
            let body = rebuilt_upto(
                record_fragments(record),
                record_positions(record),
                record_fragments(record).len() as int,
            );
            &&& body == canonical(record.sequence).take(body.len() as int)
            &&& body.len() <= record.sequence.len()
            &&& all_ambiguous(
                record.sequence,
                body.len() as int,
                record.sequence.len() as int,
            )
        }),
{
    let s = record.sequence;
    let spans = runs(s);
    lemma_runs_segment(s);
    lemma_rebuilt_upto(record, spans.len() as int);
}

/// The number of symbols that the fragments at `positions` hold.
pub open spec fn covered(positions: Seq<Position>) -> int
    decreases positions.len(),
{
    if positions.len() == 0 {
        0
    } else {
        covered(positions.drop_last()) + (positions.last().end - positions.last().start + 1)
    }
}

/// One more run adds its symbols to those that are covered.
proof fn lemma_covered_push(record: Record, spans: Seq<Span>, span: Span)
    ensures
        covered(positions_at(record, spans.push(span))) == covered(positions_at(record, spans)) + (
        span.end - span.start),
{
    let grown = positions_at(record, spans.push(span));
    assert(grown.drop_last() =~= positions_at(record, spans));
}

/// After `n` symbols, each of them is ambiguous, or lies in a run that has ended, or
/// lies in the open run.
proof fn lemma_scan_counts(record: Record, n: int)
    requires
        0 <= n <= record.sequence.len(),
    ensures
        ambiguous_count(record.sequence.take(n)) + covered(
            positions_at(record, ended_runs(record.sequence, n)),
        ) + (n - boundary(record.sequence, n)) == n,
    decreases n,
{
    let s = record.sequence;
    if n > 0 {
        lemma_scan_counts(record, n - 1);
        lemma_boundary_bounds(s, n - 1);
        assert(s.take(n) =~= s.take(n - 1).push(s[n - 1]));
        Seq::lemma_filter_push(s.take(n - 1), s[n - 1], ambiguous());
        if is_ambiguous(s[n - 1]) && boundary(s, n - 1) < n - 1 {
            lemma_covered_push(
                record,
                ended_runs(s, n - 1),
                Span { start: boundary(s, n - 1), end: n - 1 },
            );
        }
    }
}

/// The ambiguous symbols of a record are the symbols that none of its fragments holds:
/// their number and the number of the symbols that the fragments hold add up to the
/// record's length.
pub proof fn lemma_ambiguous_is_uncovered(record: Record)
    ensures
        ambiguous_count(record.sequence) + covered(record_positions(record))
            == record.sequence.len(),
{
    let s = record.sequence;
    let n = s.len() as int;
    lemma_scan_counts(record, n);
    lemma_boundary_bounds(s, n);
    assert(s.take(n) =~= s);
    if boundary(s, n) < n {
        lemma_covered_push(record, ended_runs(s, n), Span { start: boundary(s, n), end: n });
    }
}

} // verus!
