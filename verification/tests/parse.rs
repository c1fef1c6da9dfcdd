use fasta_split::bed::{
    parse_coordinate, read_bed, read_bed_line, FormatError, FormatErrorKind,
};
use fasta_split::fasta::{read_fasta, read_fasta_lines};
use fasta_split::number::{parse_integer, push_decimal, push_signed_decimal};
use fasta_split::text::{character_bound, lines, split};

#[test]
fn reads_records_with_id_and_description() {
    let records = read_fasta(">seq1 description\nATCG\n>seq2 another description\nGCTA");
    assert_eq!(records.len(), 2);
    assert_eq!(records[0].id, "seq1");
    assert_eq!(records[0].description, "description");
    assert_eq!(records[0].sequence, "ATCG");
    assert_eq!(records[1].id, "seq2");
    assert_eq!(records[1].description, "another description");
    assert_eq!(records[1].sequence, "GCTA");
}

#[test]
fn joins_the_lines_of_a_sequence_as_they_are() {
    let records = read_fasta(">s\nAC gt\n\n  NN\r\nTT\n");
    assert_eq!(records.len(), 1);
    assert_eq!(records[0].id, "s");
    assert_eq!(records[0].description, "");
    assert_eq!(records[0].sequence, "AC gt  NNTT");
}

#[test]
fn drops_what_stands_before_the_first_header() {
    let records = read_fasta("ACGT\nTTTT\n>seq1\nGG\n");
    assert_eq!(records.len(), 1);
    assert_eq!(records[0].id, "seq1");
    assert_eq!(records[0].sequence, "GG");
}

#[test]
fn reads_no_record_without_a_header() {
    assert!(read_fasta("ACGT\nTTTT\n").is_empty());
    assert!(read_fasta("").is_empty());
    assert!(read_fasta_lines(&Vec::new()).is_empty());
}

#[test]
fn keeps_a_record_without_sequence() {
    let records = read_fasta(">a first\n>b\nAC\n>c");
    let got: Vec<(&str, &str, &str)> = records
        .iter()
        .map(|r| (r.id.as_str(), r.description.as_str(), r.sequence.as_str()))
        .collect();
    assert_eq!(got, vec![("a", "first", ""), ("b", "", "AC"), ("c", "", "")]);
}

#[test]
fn splits_the_header_at_its_first_space_only() {
    let records = read_fasta(">id  two  spaces \nA\n>tab\there\nC\n");
    assert_eq!(records[0].id, "id");
    assert_eq!(records[0].description, " two  spaces ");
    assert_eq!(records[1].id, "tab\there");
    assert_eq!(records[1].description, "");
}

#[test]
fn opens_no_record_for_a_header_without_identifier() {
    let records = read_fasta(">a\nAC\n> only a description\nGG\n>\nTT\n>b\nCA\n");
    let got: Vec<(&str, &str)> =
        records.iter().map(|r| (r.id.as_str(), r.sequence.as_str())).collect();
    assert_eq!(got, vec![("a", "AC"), ("b", "CA")]);
}

#[test]
fn reads_records_from_lines() {
    let lines = vec![">x y z".to_string(), "AC".to_string(), "GT".to_string()];
    let records = read_fasta_lines(&lines);
    assert_eq!(records.len(), 1);
    assert_eq!(records[0].id, "x");
    assert_eq!(records[0].description, "y z");
    assert_eq!(records[0].sequence, "ACGT");
}

#[test]
fn reads_intervals_with_and_without_name() {
    let intervals = read_bed("seq1\t2\t5\nseq2\t0\t10\tgene one\n").unwrap();
    assert_eq!(intervals.len(), 2);
    assert_eq!(intervals[0].chrom, "seq1");
    assert_eq!(intervals[0].start, 2);
    assert_eq!(intervals[0].end, 5);
    assert_eq!(intervals[0].name, None);
    assert_eq!(intervals[1].chrom, "seq2");
    assert_eq!(intervals[1].start, 0);
    assert_eq!(intervals[1].end, 10);
    assert_eq!(intervals[1].name, Some("gene one".to_string()));
}

#[test]
fn reads_no_interval_from_an_empty_text() {
    assert!(read_bed("").unwrap().is_empty());
}

#[test]
fn takes_an_inverted_interval_as_written() {
    let intervals = read_bed("c\t5\t2\nc\t+3\t+7\r\nc\t-0\t0\n").unwrap();
    assert_eq!((intervals[0].start, intervals[0].end), (5, 2));
    assert_eq!((intervals[1].start, intervals[1].end), (3, 7));
    assert_eq!((intervals[2].start, intervals[2].end), (0, 0));
}

#[test]
fn fails_on_a_negative_coordinate() {
    let error = read_bed("seq1\t-3\t5\n").unwrap_err();
    assert_eq!(error, FormatError { line: 0, kind: FormatErrorKind::Start });
    assert_eq!(error.message(), "Invalid start position");
    let error = read_bed("seq1\t0\t5\nseq1\t3\t-5\tname\n").unwrap_err();
    assert_eq!(error, FormatError { line: 1, kind: FormatErrorKind::End });
    assert_eq!(error.message(), "Invalid end position");
    let error = read_bed("seq1\t-3\t-5\n").unwrap_err();
    assert_eq!(error.kind, FormatErrorKind::Start);
    assert_eq!(read_bed_line("seq1\t-1\t5").unwrap_err(), FormatErrorKind::Start);
    assert_eq!(read_bed_line("seq1\t-9223372036854775808\t5").unwrap_err(), FormatErrorKind::Start);
}

#[test]
fn reads_a_coordinate() {
    for text in ["0", "7", "+7", "-0", "007", "9223372036854775807"] {
        assert_eq!(parse_coordinate(text), text.parse::<i64>().ok(), "{:?}", text);
    }
    for text in ["-1", "-7", "-9223372036854775808", "", "-", "x", "1 ", "9223372036854775808"] {
        assert_eq!(parse_coordinate(text), None, "{:?}", text);
    }
}

#[test]
fn gives_no_negative_coordinate_whatever_the_text() {
    let fields = ["c", "0", "-0", "5", "-5", "+5", "x", "", "-", "12", "-12"];
    for a in fields {
        for b in fields {
            for c in fields {
                let text = format!("{}\t{}\t{}\nchr\t1\t2\n", a, b, c);
                if let Ok(intervals) = read_bed(&text) {
                    assert!(intervals.iter().all(|i| i.start >= 0 && i.end >= 0), "{:?}", text);
                    assert_eq!(intervals.len(), 2);
                } else {
                    assert!(b.parse::<i64>().map_or(true, |v| v < 0)
                        || c.parse::<i64>().map_or(true, |v| v < 0));
                }
            }
        }
    }
}

#[test]
fn fails_on_a_wrong_number_of_fields() {
    let error = read_bed("c\t1\t2\nc\t1\n").unwrap_err();
    assert_eq!(error, FormatError { line: 1, kind: FormatErrorKind::FieldCount });
    assert_eq!(error.message(), "Invalid BED format");
    let error = read_bed("c\t1\t2\ta\tb\n").unwrap_err();
    assert_eq!(error, FormatError { line: 0, kind: FormatErrorKind::FieldCount });
    let error = read_bed("c\t1\t2\n\nc\t3\t4\n").unwrap_err();
    assert_eq!(error, FormatError { line: 1, kind: FormatErrorKind::FieldCount });
    let error = read_bed("c 1 2\n").unwrap_err();
    assert_eq!(error.kind, FormatErrorKind::FieldCount);
}

#[test]
fn fails_on_a_coordinate_that_is_no_integer() {
    let error = read_bed("c\tx\ty\n").unwrap_err();
    assert_eq!(error, FormatError { line: 0, kind: FormatErrorKind::Start });
    assert_eq!(error.message(), "Invalid start position");
    let error = read_bed("c\t1\t2\nc\t1\t2.5\n").unwrap_err();
    assert_eq!(error, FormatError { line: 1, kind: FormatErrorKind::End });
    assert_eq!(error.message(), "Invalid end position");
    let error = read_bed("c\t 1\t2\n").unwrap_err();
    assert_eq!(error.kind, FormatErrorKind::Start);
    let error = read_bed("c\t1\t\n").unwrap_err();
    assert_eq!(error.kind, FormatErrorKind::End);
}

#[test]
fn names_the_first_line_that_fails() {
    let error = read_bed("c\t1\t2\nc\t1\tz\nc\n").unwrap_err();
    assert_eq!(error, FormatError { line: 1, kind: FormatErrorKind::End });
}

#[test]
fn reads_one_line() {
    let interval = read_bed_line("chr1\t10\t20\t").unwrap();
    assert_eq!(interval.chrom, "chr1");
    assert_eq!(interval.name, Some(String::new()));
    assert_eq!(read_bed_line("chr1\t10").unwrap_err(), FormatErrorKind::FieldCount);
}

#[test]
fn splits_at_every_separator() {
    assert_eq!(split("a\tb\t\tc", '\t'), vec!["a", "b", "", "c"]);
    assert_eq!(split("", '\t'), vec![""]);
    assert_eq!(split("\t", '\t'), vec!["", ""]);
    assert_eq!(split("abc", '\t'), vec!["abc"]);
}

#[test]
fn splits_into_lines_as_the_standard_library_does() {
    for text in [
        "",
        "\n",
        "a",
        "a\n",
        "a\nb",
        "a\r\nb\r\n",
        "a\rb\n",
        "a\r",
        "\r\n\r\n",
        "a\n\nb\n",
        "a\r\r\nb",
        "\r",
        "x\n\r",
    ] {
        let expected: Vec<String> = text.lines().map(|l| l.to_string()).collect();
        assert_eq!(lines(text), expected, "{:?}", text);
    }
    assert_eq!(lines("a\r\nb\r"), vec!["a", "b\r"]);
}

#[test]
fn reads_integers_as_the_standard_library_does() {
    for text in [
        "0",
        "7",
        "-7",
        "+7",
        "007",
        "-0",
        "",
        "-",
        "+",
        "1 ",
        " 1",
        "1_000",
        "12a",
        "--1",
        "+-1",
        "9223372036854775807",
        "9223372036854775808",
        "-9223372036854775808",
        "-9223372036854775809",
        "00000000000000000000000000000012",
        "99999999999999999999999999999999",
        "１２",
    ] {
        assert_eq!(parse_integer(text), text.parse::<i64>().ok(), "{:?}", text);
    }
    assert_eq!(parse_integer("-42"), Some(-42));
    assert_eq!(parse_integer("4x2"), None);
}

#[test]
fn writes_integers_in_decimal() {
    for value in [0u64, 1, 9, 10, 11, 99, 100, 12345, u64::MAX] {
        let mut out = String::from("n=");
        push_decimal(&mut out, value);
        assert_eq!(out, format!("n={}", value));
    }
    for value in [0i64, 1, -1, 10, -10, 120, -4096, i64::MAX, i64::MIN] {
        let mut out = String::new();
        push_signed_decimal(&mut out, value);
        assert_eq!(out, format!("{}", value));
        assert_eq!(parse_integer(&out), Some(value));
    }
}

#[test]
fn bounds_the_number_of_characters() {
    assert_eq!(character_bound("abc"), 3);
    assert_eq!(character_bound("aé"), 3);
    assert_eq!(character_bound(""), 0);
}
