//! Per-record statistics.

use crate::fasta::{is_ambiguous, symbol_is_ambiguous, FastaSequence, Record};
use crate::text::character_bound;
use vstd::prelude::*;

verus! {

/// The summary of one record.
#[derive(Debug)]
pub struct SequenceStats {
    /// The identifier of the record.
    pub id: String,
    /// The number of symbols of the sequence.
    pub total_length: i64,
    /// The number of those symbols that are the ambiguous marker, in either case.
    pub n_count: usize,
}

/// What a [`SequenceStats`] holds, as mathematical values.
pub struct Stat {
    pub id: Seq<char>,
    pub total_length: int,
    pub n_count: int,
}

impl View for SequenceStats {
    type V = Stat;

    open spec fn view(&self) -> Stat {
        Stat {
            id: self.id@,
            total_length: self.total_length as int,
            n_count: self.n_count as int,
        }
    }
}

impl DeepView for SequenceStats {
    type V = Stat;

    open spec fn deep_view(&self) -> Stat {
        self@
    }
}

/// The test for the ambiguous marker, as a value.
pub open spec fn ambiguous() -> spec_fn(char) -> bool {
    |c: char| is_ambiguous(c)
}

/// The number of ambiguous symbols in `s`.
pub open spec fn ambiguous_count(s: Seq<char>) -> nat {
    s.filter(ambiguous()).len()
}

/// The summary of `record`. The length is the number of symbols as an `i64` holds it:
/// the number itself wherever it is no more than the greatest `i64`.
pub open spec fn stat_of(record: Record) -> Stat {
    Stat {
        id: record.id,
        total_length: (record.sequence.len() as i64) as int,
        n_count: ambiguous_count(record.sequence) as int,
    }
}

/// The length in a summary is the number of the symbols of the sequence, for every
/// sequence whose symbols an `i64` can count.
pub proof fn lemma_total_length(record: Record)
    requires
        record.sequence.len() <= i64::MAX,
    ensures
        stat_of(record).total_length == record.sequence.len(),
{
}

/// Summarises one record.
pub fn record_stats(record: &FastaSequence) -> (out: SequenceStats)
    ensures
        out@ == stat_of(record@),
        record.sequence@.len() <= i64::MAX ==> out.total_length == record.sequence@.len(),
{
    let ghost s = record.sequence@;
    let bound = character_bound(record.sequence.as_str());
    let mut total_length: usize = 0;
    let mut n_count: usize = 0;
    for c in it: record.sequence.as_str().chars()
        invariant
            it.seq() == s,
            s.len() <= bound,
            total_length == it.index(),
            n_count == ambiguous_count(s.take(it.index() as int)),
            n_count <= total_length,
    {
        proof {
            let seen = s.take(it.index() as int);
            assert(s.take(it.index() + 1) =~= seen.push(c));
            Seq::lemma_filter_push(seen, c, ambiguous());
        }
        if symbol_is_ambiguous(c) {
            n_count = n_count + 1;
        }
        total_length = total_length + 1;
    }
    proof {
        assert(s.take(s.len() as int) =~= s);
    }
    SequenceStats {
        id: record.id.clone(),
        total_length: #[verifier::truncate] (total_length as i64),
        n_count,
    }
}

/// Summarises every record: one summary for each, in the same order.
pub fn calculate_stats(sequences: &Vec<FastaSequence>) -> (out: Vec<SequenceStats>)
    ensures
        out.len() == sequences.len(),
        forall|i: int| 0 <= i < out.len() ==> (#[trigger] out[i])@ == stat_of(sequences[i]@),
{
    let mut out: Vec<SequenceStats> = Vec::new();
    let mut i: usize = 0;
    while i < sequences.len()
        invariant
            i <= sequences.len(),
            out.len() == i,
            forall|k: int| 0 <= k < i ==> (#[trigger] out[k])@ == stat_of(sequences[k]@),
        decreases sequences.len() - i,
    {
        out.push(record_stats(&sequences[i]));
        i = i + 1;
    }
    out
}

} // verus!
