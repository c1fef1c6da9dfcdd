use fasta_split::cds::{
    check_for_errors, check_upper_case, read_cds, read_cds_lines, CdsSequence, ErrorReport,
};
use fasta_split::output::write_report_table;
use fasta_split::report::{generate_report_table, ReportTable};

const CLEAN: ErrorReport = ErrorReport {
    missing_start_codon: false,
    missing_stop_codon: false,
    illegal_codon_sequence: false,
    non_multiple_of_three_length: false,
    premature_stop_codon: false,
};

fn cds(id: &str, sequence: &str) -> CdsSequence {
    CdsSequence { id: id.to_string(), sequence: sequence.to_string() }
}

#[test]
fn finds_nothing_wrong_with_a_proper_sequence() {
    assert_eq!(check_for_errors("ATGGCCTAA"), CLEAN);
    assert_eq!(check_for_errors("ATGTAG"), CLEAN);
    assert_eq!(check_for_errors("ATGCCCGGGTGA"), CLEAN);
    assert!(!check_for_errors("ATGGCCTAA").has_error());
}

#[test]
fn checks_the_upper_case_equivalent() {
    assert_eq!(check_for_errors("atggcctaa"), CLEAN);
    assert_eq!(check_for_errors("AtgGccTaa"), CLEAN);
    let report = check_upper_case("atggcctaa");
    assert!(report.missing_start_codon);
    assert!(report.missing_stop_codon);
    assert!(report.illegal_codon_sequence);
    assert!(!report.non_multiple_of_three_length);
    assert!(!report.premature_stop_codon);
}

#[test]
fn misses_the_start_codon() {
    let report = check_for_errors("CTGGCCTAA");
    assert_eq!(report, ErrorReport { missing_start_codon: true, ..CLEAN });
    assert!(report.has_error());
}

#[test]
fn misses_the_stop_codon() {
    assert_eq!(check_for_errors("ATGGCCGCC"), ErrorReport { missing_stop_codon: true, ..CLEAN });
    assert_eq!(check_for_errors("ATGGCCTGG"), ErrorReport { missing_stop_codon: true, ..CLEAN });
}

#[test]
fn finds_a_symbol_that_is_no_base() {
    assert_eq!(
        check_for_errors("ATGNCCTAA"),
        ErrorReport { illegal_codon_sequence: true, ..CLEAN }
    );
    assert_eq!(
        check_for_errors("ATG-CCTAA"),
        ErrorReport { illegal_codon_sequence: true, ..CLEAN }
    );
}

#[test]
fn finds_a_length_that_is_no_multiple_of_three() {
    assert_eq!(
        check_for_errors("ATGGCTAA"),
        ErrorReport { non_multiple_of_three_length: true, ..CLEAN }
    );
    assert_eq!(
        check_for_errors("ATGGGCCTAA"),
        ErrorReport { non_multiple_of_three_length: true, ..CLEAN }
    );
}

#[test]
fn counts_the_length_in_bytes() {
    // Three symbols, four bytes.
    let report = check_for_errors("AéG");
    assert!(report.non_multiple_of_three_length);
    assert!(report.illegal_codon_sequence);
    // Two symbols, three bytes.
    let report = check_for_errors("Aé");
    assert!(!report.non_multiple_of_three_length);
    // One symbol that becomes two in upper case.
    let report = check_for_errors("ß");
    assert!(report.illegal_codon_sequence);
    assert!(report.non_multiple_of_three_length);
}

#[test]
fn finds_a_stop_codon_before_the_last_codon() {
    assert_eq!(
        check_for_errors("ATGTAAGCCTAA"),
        ErrorReport { premature_stop_codon: true, ..CLEAN }
    );
    assert_eq!(
        check_for_errors("ATGTGATAG"),
        ErrorReport { premature_stop_codon: true, ..CLEAN }
    );
    // A stop codon out of frame is none.
    assert_eq!(check_for_errors("ATGCTAAGCTAA"), CLEAN);
    // The last codon may be a stop codon, also where it is followed by a part of one.
    let report = check_for_errors("ATGTAAG");
    assert!(report.premature_stop_codon);
    let report = check_for_errors("ATGTAA");
    assert!(!report.premature_stop_codon);
}

#[test]
fn flags_the_empty_and_the_short_sequence() {
    assert_eq!(
        check_for_errors(""),
        ErrorReport { missing_start_codon: true, missing_stop_codon: true, ..CLEAN }
    );
    assert_eq!(
        check_for_errors("AT"),
        ErrorReport {
            missing_start_codon: true,
            missing_stop_codon: true,
            non_multiple_of_three_length: true,
            ..CLEAN
        }
    );
    assert_eq!(check_for_errors("TAA"), ErrorReport { missing_start_codon: true, ..CLEAN });
    assert_eq!(check_for_errors("ATG"), ErrorReport { missing_stop_codon: true, ..CLEAN });
}

#[test]
fn reads_coding_sequences() {
    let sequences = read_cds(">gene1 some text\nATG\nTAA\n>>gene2\nATGTGA\n");
    assert_eq!(sequences.len(), 2);
    assert_eq!(sequences[0].id, "gene1 some text");
    assert_eq!(sequences[0].sequence, "ATGTAA");
    assert_eq!(sequences[1].id, "gene2");
    assert_eq!(sequences[1].sequence, "ATGTGA");
    assert!(read_cds("").is_empty());
    assert!(read_cds("ATG\nTAA\n").is_empty());
}

#[test]
fn keeps_the_symbols_that_no_open_sequence_takes() {
    let sequences = read_cds("AAA\n>g1\nCCC\n>\nGGG\n>g2\nTTT\n");
    let got: Vec<(&str, &str)> =
        sequences.iter().map(|s| (s.id.as_str(), s.sequence.as_str())).collect();
    assert_eq!(got, vec![("g1", "AAACCC"), ("g2", "GGGTTT")]);
    let lines = vec!["x".to_string(), ">a".to_string()];
    let sequences = read_cds_lines(&lines);
    assert_eq!(sequences.len(), 1);
    assert_eq!(sequences[0].sequence, "x");
}

#[test]
fn collects_the_sequences_that_something_is_wrong_with() {
    let sequences = vec![
        cds("good", "ATGGCCTAA"),
        cds("late", "ATGGCCGCC"),
        cds("odd", "ATGGCTAA"),
        cds("lower", "atgtaa"),
    ];
    let table = generate_report_table(&sequences);
    assert_eq!(table.len(), 2);
    assert_eq!(table.row(0).id, "late");
    assert_eq!(table.row(0).report, ErrorReport { missing_stop_codon: true, ..CLEAN });
    assert_eq!(table.row(1).id, "odd");
    assert_eq!(table.get("odd"), Some(ErrorReport { non_multiple_of_three_length: true, ..CLEAN }));
    assert_eq!(table.get("good"), None);
    assert_eq!(table.get("lower"), None);
    assert_eq!(generate_report_table(&[]).len(), 0);
}

#[test]
fn lets_the_last_flagged_sequence_of_an_identifier_decide() {
    let sequences = vec![
        cds("twin", "CTGGCCTAA"),
        cds("other", "ATG"),
        cds("twin", "ATGGCCGCC"),
        cds("twin", "ATGGCCTAA"),
    ];
    let table = generate_report_table(&sequences);
    assert_eq!(table.len(), 2);
    assert_eq!(table.row(0).id, "twin");
    assert_eq!(table.row(0).report, ErrorReport { missing_stop_codon: true, ..CLEAN });
    assert_eq!(table.row(1).id, "other");
}

#[test]
fn replaces_a_report_in_its_row() {
    let mut table = ReportTable::new();
    assert_eq!(table.len(), 0);
    table.insert("a".to_string(), ErrorReport { missing_start_codon: true, ..CLEAN });
    table.insert("b".to_string(), ErrorReport { missing_stop_codon: true, ..CLEAN });
    table.insert("a".to_string(), ErrorReport { premature_stop_codon: true, ..CLEAN });
    assert_eq!(table.len(), 2);
    assert_eq!(table.row(0).id, "a");
    assert_eq!(table.get("a"), Some(ErrorReport { premature_stop_codon: true, ..CLEAN }));
    assert_eq!(table.get("b"), Some(ErrorReport { missing_stop_codon: true, ..CLEAN }));
    assert_eq!(table.get("c"), None);
}

#[test]
fn writes_the_report_table() {
    let sequences = vec![cds("g1", "CTGTAAGCCGC"), cds("g2", "ATGNNNTAA"), cds("g3", "ATGTAA")];
    let table = generate_report_table(&sequences);
    let mut out = String::new();
    write_report_table(&table, &mut out);
    let header = [
        "Sequence_ID",
        "Missing_Start_Codon",
        "Missing_Stop_Codon",
        "Illegal_Codon_Sequence",
        "Non_Multiple_Of_Three_Length]",
        "Premature_stop_codon",
    ]
    .join("\t");
    assert_eq!(out, header + "\ng1\t1\t1\t0\t1\t1\ng2\t0\t0\t1\t0\t0\n");
}
