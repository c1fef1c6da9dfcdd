use fasta_split::fasta::FastaSequence;
use fasta_split::stats::{calculate_stats, record_stats};

fn record(id: &str, sequence: &str) -> FastaSequence {
    FastaSequence {
        id: id.to_string(),
        description: String::new(),
        sequence: sequence.to_string(),
    }
}

#[test]
fn counts_length_and_ambiguous_symbols() {
    let sequences = vec![record("seq1", "ATCGNNNNATCG"), record("seq2", "GCTAGCTA")];
    let stats = calculate_stats(&sequences);
    assert_eq!(stats.len(), 2);
    assert_eq!(stats[0].id, "seq1");
    assert_eq!(stats[0].total_length, 12);
    assert_eq!(stats[0].n_count, 4);
    assert_eq!(stats[1].id, "seq2");
    assert_eq!(stats[1].total_length, 8);
    assert_eq!(stats[1].n_count, 0);
}

#[test]
fn counts_the_marker_in_either_case() {
    let stats = record_stats(&record("s", "nNaNn"));
    assert_eq!(stats.total_length, 5);
    assert_eq!(stats.n_count, 4);
}

#[test]
fn summarises_nothing_as_nothing() {
    assert!(calculate_stats(&Vec::new()).is_empty());
    let stats = record_stats(&record("empty", ""));
    assert_eq!(stats.id, "empty");
    assert_eq!(stats.total_length, 0);
    assert_eq!(stats.n_count, 0);
}

#[test]
fn counts_symbols_not_bytes() {
    let stats = record_stats(&record("s", "éNé"));
    assert_eq!(stats.total_length, 3);
    assert_eq!(stats.n_count, 1);
}
