use fasta_split::bed::BedRecord;
use fasta_split::fasta::FastaSequence;
use fasta_split::split_bed::{find_record, split_by_bed};

fn record(id: &str, sequence: &str) -> FastaSequence {
    FastaSequence {
        id: id.to_string(),
        description: String::new(),
        sequence: sequence.to_string(),
    }
}

fn interval(chrom: &str, start: i64, end: i64, name: Option<&str>) -> BedRecord {
    BedRecord { chrom: chrom.to_string(), start, end, name: name.map(|n| n.to_string()) }
}

#[test]
fn extracts_a_half_open_interval() {
    let sequences = vec![record("seq1", "ATCGATCG")];
    let (results, errors) = split_by_bed(&sequences, &vec![interval("seq1", 2, 5, None)]);
    assert!(errors.is_empty());
    assert_eq!(results.len(), 1);
    assert_eq!(results[0].id, "seq1");
    assert_eq!(results[0].start, 2);
    assert_eq!(results[0].end, 5);
    assert_eq!(results[0].new_id, "seq1_1");
    assert_eq!(results[0].sequence, "CGA");
}

#[test]
fn refuses_an_inverted_interval() {
    let sequences = vec![record("seq1", "ATCGATCG")];
    let (results, errors) = split_by_bed(&sequences, &vec![interval("seq1", 5, 2, None)]);
    assert!(results.is_empty());
    assert_eq!(errors.len(), 1);
    assert!(errors[0].contains("seq1"));
    assert_eq!(errors[0], "Invalid BED record for seq1: start 5, end 2");
}

#[test]
fn numbers_unnamed_intervals_over_the_whole_batch() {
    let sequences = vec![record("chrA", "ATCGATCG"), record("chrB", "GGGGCCCC")];
    let intervals = vec![interval("chrA", 0, 4, None), interval("chrB", 4, 8, None)];
    let (results, errors) = split_by_bed(&sequences, &intervals);
    assert!(errors.is_empty());
    assert_eq!(results.len(), 2);
    assert_eq!(results[0].new_id, "chrA_1");
    assert_eq!(results[0].sequence, "ATCG");
    assert_eq!(results[1].new_id, "chrB_2");
    assert_eq!(results[1].sequence, "CCCC");
}

#[test]
fn uses_a_name_as_it_is_and_still_counts_the_extraction() {
    let sequences = vec![record("c", "ACGTACGT")];
    let intervals = vec![
        interval("c", 0, 2, Some("first piece")),
        interval("c", 2, 4, None),
        interval("c", 9, 10, None),
        interval("c", 4, 6, None),
    ];
    let (results, errors) = split_by_bed(&sequences, &intervals);
    let ids: Vec<&str> = results.iter().map(|r| r.new_id.as_str()).collect();
    assert_eq!(ids, vec!["first piece", "c_2", "c_3"]);
    assert_eq!(errors, vec!["Invalid BED record for c: start 9, end 10"]);
}

#[test]
fn reports_a_missing_record_and_goes_on() {
    let sequences = vec![record("seq1", "ATCGATCG")];
    let intervals = vec![
        interval("nowhere", 0, 1, None),
        interval("seq1", 0, 8, None),
        interval("seq1", 0, 9, None),
        interval("seq1", 3, 3, None),
        interval("seq1", 7, 8, Some("last")),
    ];
    let (results, errors) = split_by_bed(&sequences, &intervals);
    assert_eq!(results.len(), 2);
    assert_eq!(results[0].new_id, "seq1_1");
    assert_eq!(results[0].sequence, "ATCGATCG");
    assert_eq!(results[1].new_id, "last");
    assert_eq!(results[1].sequence, "G");
    assert_eq!(
        errors,
        vec![
            "chromosome nowhere not found",
            "Invalid BED record for seq1: start 0, end 9",
            "Invalid BED record for seq1: start 3, end 3",
        ]
    );
    assert_eq!(results.len() + errors.len(), intervals.len());
}

#[test]
fn leaves_the_results_alone_when_a_failing_interval_goes() {
    let sequences = vec![record("a", "ACGTACGT"), record("b", "TTTT")];
    let with = vec![
        interval("a", 1, 3, None),
        interval("b", 2, 9, None),
        interval("b", 1, 2, None),
    ];
    let without = vec![interval("a", 1, 3, None), interval("b", 1, 2, None)];
    let (results_with, errors_with) = split_by_bed(&sequences, &with);
    let (results_without, errors_without) = split_by_bed(&sequences, &without);
    let ids = |rs: &Vec<fasta_split::split_bed::BedSplitResult>| -> Vec<(String, String)> {
        rs.iter().map(|r| (r.new_id.clone(), r.sequence.clone())).collect()
    };
    assert_eq!(ids(&results_with), ids(&results_without));
    assert_eq!(errors_with.len(), errors_without.len() + 1);
}

#[test]
fn refuses_negative_coordinates() {
    let sequences = vec![record("s", "ACGT")];
    let intervals = vec![interval("s", -1, 3, None), interval("s", -5, -2, None)];
    let (results, errors) = split_by_bed(&sequences, &intervals);
    assert!(results.is_empty());
    assert_eq!(
        errors,
        vec![
            "Invalid BED record for s: start -1, end 3",
            "Invalid BED record for s: start -5, end -2",
        ]
    );
}

#[test]
fn writes_the_least_and_the_greatest_coordinate() {
    let sequences = vec![record("s", "ACGT")];
    let intervals = vec![interval("s", i64::MIN, i64::MAX, None)];
    let (_, errors) = split_by_bed(&sequences, &intervals);
    assert_eq!(
        errors,
        vec!["Invalid BED record for s: start -9223372036854775808, end 9223372036854775807"]
    );
}

#[test]
fn takes_the_first_of_records_that_share_an_identifier() {
    let sequences = vec![record("dup", "AAAA"), record("dup", "CCCCCCCC")];
    assert_eq!(find_record(&sequences, &"dup".to_string()), Some(0));
    assert_eq!(find_record(&sequences, &"other".to_string()), None);
    let intervals = vec![interval("dup", 0, 2, None), interval("dup", 4, 8, None)];
    let (results, errors) = split_by_bed(&sequences, &intervals);
    assert_eq!(results.len(), 1);
    assert_eq!(results[0].sequence, "AA");
    assert_eq!(errors.len(), 1);
}

#[test]
fn slices_by_symbols() {
    let sequences = vec![record("s", "aébçd")];
    let (results, errors) = split_by_bed(&sequences, &vec![interval("s", 1, 4, None)]);
    assert!(errors.is_empty());
    assert_eq!(results[0].sequence, "ébç");
    let (results, errors) = split_by_bed(&sequences, &vec![interval("s", 3, 5, None)]);
    assert!(errors.is_empty());
    assert_eq!(results[0].sequence, "çd");
    let (results, errors) = split_by_bed(&sequences, &vec![interval("s", 3, 6, None)]);
    assert!(results.is_empty());
    assert_eq!(errors.len(), 1);
}
