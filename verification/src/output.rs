//! The text of the output files. Every writer appends to a text that the caller holds,
//! so that a file is written in one piece or not at all.

use crate::cds::ErrorReport;
use crate::fasta::{FastaSequence, Record};
use crate::number::{decimal, push_decimal, push_signed_decimal, signed_decimal};
use crate::report::{Entry, ReportTable};
use crate::size::{SequenceSize, Size};
use crate::split::{Position, SplitPosition};
use crate::split_bed::{BedSplitResult, Extraction};
use crate::stats::{SequenceStats, Stat};
use vstd::prelude::*;

verus! {

/// The row of the statistics table for one record: identifier, length and number of
/// ambiguous symbols, with a tab between neighbours.
pub open spec fn stats_row(stat: Stat) -> Seq<char> {
    (((stat.id.push('\t') + signed_decimal(stat.total_length)).push('\t')) + decimal(
        stat.n_count as nat,
    )).push('\n')
}

/// The rows of the statistics table.
pub open spec fn stats_rows(stats: Seq<Stat>) -> Seq<char> {
    stats.flat_map(|stat: Stat| stats_row(stat))
}

/// The statistics table: the header row, then one row for each record.
pub open spec fn stats_table(stats: Seq<Stat>) -> Seq<char> {
    "id\ttotal_length\tambiguous_count\n"@ + stats_rows(stats)
}

/// Appends the statistics table to `out`.
pub fn write_stats(stats: &Vec<SequenceStats>, out: &mut String)
    ensures
        final(out)@ == old(out)@ + stats_table(stats.deep_view()),
{
    out.append("id\ttotal_length\tambiguous_count\n");
    let ghost head = out@;
    let mut i: usize = 0;
    while i < stats.len()
        invariant
            i <= stats.len(),
            out@ == head + stats_rows(stats.deep_view().take(i as int)),
        decreases stats.len() - i,
    {
        let stat = &stats[i];
        out.append(stat.id.as_str());
        out.push('\t');
        push_signed_decimal(out, stat.total_length);
        out.push('\t');
        push_decimal(out, stat.n_count as u64);
        out.push('\n');
        proof {
            let seen = stats.deep_view().take(i as int);
            assert(stats.deep_view().take(i + 1) =~= seen.push(stat@));
            seen.lemma_flat_map_push(|stat: Stat| stats_row(stat), stat@);
        }
        i = i + 1;
    }
    proof {
        assert(stats.deep_view().take(stats.len() as int) =~= stats.deep_view());
    }
}

/// The row of the position log for one fragment: source identifier, first and last
/// position counted from 1, and the fragment's identifier.
pub open spec fn position_row(position: Position) -> Seq<char> {
    ((((position.id.push('\t') + decimal(position.start as nat)).push('\t')) + decimal(
        position.end as nat,
    )).push('\t') + position.new_id).push('\n')
}

/// The rows of the position log.
pub open spec fn position_rows(positions: Seq<Position>) -> Seq<char> {
    positions.flat_map(|position: Position| position_row(position))
}

/// The position log: the header row, then one row for each fragment.
pub open spec fn position_table(positions: Seq<Position>) -> Seq<char> {
    "id\tstart\tend\tnew_id\n"@ + position_rows(positions)
}

/// Appends the position log to `out`.
pub fn write_split_positions(positions: &Vec<SplitPosition>, out: &mut String)
    ensures
        final(out)@ == old(out)@ + position_table(positions.deep_view()),
{
    out.append("id\tstart\tend\tnew_id\n");
    let ghost head = out@;
    let mut i: usize = 0;
    while i < positions.len()
        invariant
            i <= positions.len(),
            out@ == head + position_rows(positions.deep_view().take(i as int)),
        decreases positions.len() - i,
    {
        let position = &positions[i];
        out.append(position.id.as_str());
        out.push('\t');
        push_decimal(out, position.start as u64);
        out.push('\t');
        push_decimal(out, position.end as u64);
        out.push('\t');
        out.append(position.new_id.as_str());
        out.push('\n');
        proof {
            let seen = positions.deep_view().take(i as int);
            assert(positions.deep_view().take(i + 1) =~= seen.push(position@));
            seen.lemma_flat_map_push(|position: Position| position_row(position), position@);
        }
        i = i + 1;
    }
    proof {
        assert(positions.deep_view().take(positions.len() as int) =~= positions.deep_view());
    }
}

/// A record as two lines: the header with identifier and description, one space between
/// them also where the description is empty, and the sequence.
pub open spec fn record_text(record: Record) -> Seq<char> {
    ((((seq!['>'] + record.id).push(' ')) + record.description).push('\n') + record.sequence).push(
        '\n',
    )
}

/// The text of a sequence file with these records.
pub open spec fn records_text(records: Seq<Record>) -> Seq<char> {
    records.flat_map(|record: Record| record_text(record))
}

/// Appends the records to `out`, as the text of a sequence file.
pub fn write_new_sequences(sequences: &Vec<FastaSequence>, out: &mut String)
    ensures
        final(out)@ == old(out)@ + records_text(sequences.deep_view()),
{
    let mut i: usize = 0;
    while i < sequences.len()
        invariant
            i <= sequences.len(),
            out@ == old(out)@ + records_text(sequences.deep_view().take(i as int)),
        decreases sequences.len() - i,
    {
        let record = &sequences[i];
        out.push('>');
        out.append(record.id.as_str());
        out.push(' ');
        out.append(record.description.as_str());
        out.push('\n');
        out.append(record.sequence.as_str());
        out.push('\n');
        proof {
            let seen = sequences.deep_view().take(i as int);
            assert(sequences.deep_view().take(i + 1) =~= seen.push(record@));
            seen.lemma_flat_map_push(|record: Record| record_text(record), record@);
        }
        i = i + 1;
    }
    proof {
        assert(sequences.deep_view().take(sequences.len() as int) =~= sequences.deep_view());
    }
}

/// An extraction as two lines: the header with its identifier, and the sequence.
pub open spec fn extraction_text(extraction: Extraction) -> Seq<char> {
    (((seq!['>'] + extraction.new_id).push('\n')) + extraction.sequence).push('\n')
}

/// The text of a sequence file with these extractions.
pub open spec fn extractions_text(extractions: Seq<Extraction>) -> Seq<char> {
    extractions.flat_map(|extraction: Extraction| extraction_text(extraction))
}

/// Appends the extractions to `out`, as the text of a sequence file.
pub fn write_new_sequences_bed(results: &Vec<BedSplitResult>, out: &mut String)
    ensures
        final(out)@ == old(out)@ + extractions_text(results.deep_view()),
{
    let mut i: usize = 0;
    while i < results.len()
        invariant
            i <= results.len(),
            out@ == old(out)@ + extractions_text(results.deep_view().take(i as int)),
        decreases results.len() - i,
    {
        let result = &results[i];
        out.push('>');
        out.append(result.new_id.as_str());
        out.push('\n');
        out.append(result.sequence.as_str());
        out.push('\n');
        proof {
            let seen = results.deep_view().take(i as int);
            assert(results.deep_view().take(i + 1) =~= seen.push(result@));
            seen.lemma_flat_map_push(
                |extraction: Extraction| extraction_text(extraction),
                result@,
            );
        }
        i = i + 1;
    }
    proof {
        assert(results.deep_view().take(results.len() as int) =~= results.deep_view());
    }
}

/// The row of the size table for one record: its name and its length, with a tab
/// between them.
pub open spec fn size_row(size: Size) -> Seq<char> {
    (size.name.push('\t') + decimal(size.length as nat)).push('\n')
}

/// The size table: one row for each record, and no header row.
pub open spec fn size_table(sizes: Seq<Size>) -> Seq<char> {
    sizes.flat_map(|size: Size| size_row(size))
}

/// Appends the size table to `out`.
pub fn write_sizes(sizes: &Vec<SequenceSize>, out: &mut String)
    ensures
        final(out)@ == old(out)@ + size_table(sizes.deep_view()),
{
    let mut i: usize = 0;
    while i < sizes.len()
        invariant
            i <= sizes.len(),
            out@ == old(out)@ + size_table(sizes.deep_view().take(i as int)),
        decreases sizes.len() - i,
    {
        let size = &sizes[i];
        out.append(size.name.as_str());
        out.push('\t');
        push_decimal(out, size.length as u64);
        out.push('\n');
        proof {
            let seen = sizes.deep_view().take(i as int);
            assert(sizes.deep_view().take(i + 1) =~= seen.push(size@));
            seen.lemma_flat_map_push(|size: Size| size_row(size), size@);
        }
        i = i + 1;
    }
    proof {
        assert(sizes.deep_view().take(sizes.len() as int) =~= sizes.deep_view());
    }
}

/// A flag as one digit.
pub open spec fn flag(raised: bool) -> char {
    if raised {
        '1'
    } else {
        '0'
    }
}

/// The row of the report table for one coding sequence: its identifier, then one digit
/// for each check, 1 where the check failed.
pub open spec fn report_row(entry: Entry) -> Seq<char> {
    entry.id + seq![
        '\t',
        flag(entry.report.missing_start_codon),
        '\t',
        flag(entry.report.missing_stop_codon),
        '\t',
        flag(entry.report.illegal_codon_sequence),
        '\t',
        flag(entry.report.non_multiple_of_three_length),
        '\t',
        flag(entry.report.premature_stop_codon),
        '\n',
    ]
}

/// The rows of the report table.
pub open spec fn report_rows(entries: Seq<Entry>) -> Seq<char> {
    entries.flat_map(|entry: Entry| report_row(entry))
}

/// The header row of the report table. The name of the next to last column ends with a
/// bracket.
pub open spec fn report_header() -> Seq<char> {
    "Sequence_ID\tMissing_Start_Codon\tMissing_Stop_Codon\tIllegal_Codon_Sequence\t\
     Non_Multiple_Of_Three_Length]\tPremature_stop_codon\n"@
}

/// The report table: the header row, then one row for each entry.
pub open spec fn report_table(entries: Seq<Entry>) -> Seq<char> {
    report_header() + report_rows(entries)
}

/// Appends a tab and a flag.
fn push_flag(out: &mut String, raised: bool)
    ensures
        final(out)@ == old(out)@.push('\t').push(flag(raised)),
{
    out.push('\t');
    out.push(if raised { '1' } else { '0' });
}

/// Appends the report table to `out`: the header row, then one row for each coding
/// sequence in the table, in the order of the table.
pub fn write_report_table(table: &ReportTable, out: &mut String)
    ensures
        final(out)@ == old(out)@ + report_table(table@),
{
    out.append(
        "Sequence_ID\tMissing_Start_Codon\tMissing_Stop_Codon\tIllegal_Codon_Sequence\t\
         Non_Multiple_Of_Three_Length]\tPremature_stop_codon\n",
    );
    let ghost head = out@;
    let mut i: usize = 0;
    while i < table.len()
        invariant
            i <= table@.len(),
            out@ == head + report_rows(table@.take(i as int)),
        decreases table@.len() - i,
    {
        let row = table.row(i);
        let report: ErrorReport = row.report;
        let ghost before = out@;
        out.append(row.id.as_str());
        push_flag(out, report.missing_start_codon);
        push_flag(out, report.missing_stop_codon);
        push_flag(out, report.illegal_codon_sequence);
        push_flag(out, report.non_multiple_of_three_length);
        push_flag(out, report.premature_stop_codon);
        out.push('\n');
        proof {
            let seen = table@.take(i as int);
            assert(table@.take(i + 1) =~= seen.push(row@));
            seen.lemma_flat_map_push(|entry: Entry| report_row(entry), row@);
            assert(out@ =~= before + report_row(row@));
        }
        i = i + 1;
    }
    proof {
        assert(table@.take(table@.len() as int) =~= table@);
    }
}

} // verus!
