use fasta_split::bed::BedRecord;
use fasta_split::fasta::{read_fasta, FastaSequence};
use fasta_split::output::{
    write_new_sequences, write_new_sequences_bed, write_split_positions, write_stats,
};
use fasta_split::split::split_sequences;
use fasta_split::split_bed::split_by_bed;
use fasta_split::stats::calculate_stats;

fn records() -> Vec<FastaSequence> {
    read_fasta(">seq1 first record\nATCGNNNN\nATCG\n>seq2\nGCTAGCTA\n")
}

#[test]
fn writes_the_statistics_table() {
    let mut out = String::new();
    write_stats(&calculate_stats(&records()), &mut out);
    assert_eq!(out, "id\ttotal_length\tambiguous_count\nseq1\t12\t4\nseq2\t8\t0\n");
}

#[test]
fn writes_only_the_header_for_no_record() {
    let mut out = String::new();
    write_stats(&Vec::new(), &mut out);
    assert_eq!(out, "id\ttotal_length\tambiguous_count\n");
    let mut out = String::new();
    write_split_positions(&Vec::new(), &mut out);
    assert_eq!(out, "id\tstart\tend\tnew_id\n");
    let mut out = String::new();
    write_new_sequences(&Vec::new(), &mut out);
    assert_eq!(out, "");
    let mut out = String::new();
    write_new_sequences_bed(&Vec::new(), &mut out);
    assert_eq!(out, "");
}

#[test]
fn writes_the_position_log() {
    let (_, positions) = split_sequences(&records());
    let mut out = String::new();
    write_split_positions(&positions, &mut out);
    assert_eq!(
        out,
        "id\tstart\tend\tnew_id\nseq1\t1\t4\tseq1_1\nseq1\t9\t12\tseq1_2\nseq2\t1\t8\tseq2_1\n"
    );
}

#[test]
fn writes_the_fragments_with_their_description() {
    let (fragments, _) = split_sequences(&records());
    let mut out = String::new();
    write_new_sequences(&fragments, &mut out);
    assert_eq!(
        out,
        ">seq1_1 first record\nATCG\n>seq1_2 first record\nATCG\n>seq2_1 \nGCTAGCTA\n"
    );
}

#[test]
fn writes_the_extractions() {
    let intervals = vec![
        BedRecord { chrom: "seq2".to_string(), start: 0, end: 4, name: None },
        BedRecord { chrom: "seq1".to_string(), start: 2, end: 6, name: Some("cut".to_string()) },
    ];
    let (results, errors) = split_by_bed(&records(), &intervals);
    assert!(errors.is_empty());
    let mut out = String::new();
    write_new_sequences_bed(&results, &mut out);
    assert_eq!(out, ">seq2_1\nGCTA\n>cut\nCGNN\n");
}

#[test]
fn appends_to_what_the_text_holds() {
    let mut out = String::from("# kept\n");
    write_stats(&calculate_stats(&records()), &mut out);
    assert!(out.starts_with("# kept\nid\ttotal_length\tambiguous_count\nseq1\t12\t4\n"));
}

#[test]
fn reads_back_what_it_wrote() {
    let (fragments, _) = split_sequences(&records());
    let mut out = String::new();
    write_new_sequences(&fragments, &mut out);
    let again = read_fasta(&out);
    assert_eq!(again.len(), fragments.len());
    for (a, b) in again.iter().zip(&fragments) {
        assert_eq!(a.id, b.id);
        assert_eq!(a.description, b.description);
        assert_eq!(a.sequence, b.sequence);
    }
}
