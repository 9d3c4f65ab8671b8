use fastx::fastq::{parse_single_fastq, quality_scores};
use fastx::lines::{read_line, Parse};
use fastx::scan::find;
use fastx::Record;

#[test]
fn test_parse_fastq() {
    let bytes = b"@id1 desc \nTTTTTTAAAAAA\n+\nFFFFFFFFFFFFF\n@id2\nGGGGGGCCCCCC\n+\nFFFFFFFFFFFFF\n";
    let (rest, record1) = match parse_single_fastq(bytes) {
        Parse::Done(rest, record) => (rest, record),
        other => panic!("first record: {:?}", other),
    };
    let (_, record2) = match parse_single_fastq(rest) {
        Parse::Done(rest, record) => (rest, record),
        other => panic!("second record: {:?}", other),
    };
    let rec1 = Record {
        id: String::from("id1 desc"),
        seq: b"TTTTTTAAAAAA".to_vec(),
        qual: Some(b"FFFFFFFFFFFFF".to_vec()),
    };
    let rec2 = Record {
        id: String::from("id2"),
        seq: b"GGGGGGCCCCCC".to_vec(),
        qual: Some(b"FFFFFFFFFFFFF".to_vec()),
    };
    assert_eq!(rec1, record1);
    assert_eq!(rec2, record2);
}

#[test]
fn parse_leaves_the_next_record() {
    let bytes = b"@a\nAC\n+\nFF\n@b\nGT\n+\nII\n";
    match parse_single_fastq(bytes) {
        Parse::Done(rest, _) => assert_eq!(rest, b"@b\nGT\n+\nII\n"),
        other => panic!("{:?}", other),
    }
}

#[test]
fn line_splits_content_from_terminator() {
    assert_eq!(read_line(b"abc\ndef"), Parse::Done(&b"def"[..], &b"abc"[..]));
    assert_eq!(read_line(b"abc\r\ndef"), Parse::Done(&b"def"[..], &b"abc"[..]));
    assert_eq!(read_line(b"\n"), Parse::Done(&b""[..], &b""[..]));
    assert_eq!(read_line(b"\r\nx"), Parse::Done(&b"x"[..], &b""[..]));
}

#[test]
fn line_without_terminator_is_incomplete() {
    assert_eq!(read_line(b""), Parse::Incomplete);
    assert_eq!(read_line(b"abc"), Parse::Incomplete);
    assert_eq!(read_line(b"abc\r"), Parse::Incomplete);
}

#[test]
fn line_with_lone_carriage_return_fails() {
    assert_eq!(read_line(b"abc\rdef\n"), Parse::Error);
    assert_eq!(read_line(b"\rx"), Parse::Error);
}

#[test]
fn quality_scores_reads_separator_and_scores() {
    assert_eq!(quality_scores(b"+\nFFFF\nrest"), Parse::Done(&b"\nrest"[..], b"FFFF".to_vec()));
    assert_eq!(quality_scores(b"+id1 desc\nII\n"), Parse::Done(&b"\n"[..], b"II".to_vec()));
    assert_eq!(quality_scores(b"+\r\nII\r\n"), Parse::Done(&b"\r\n"[..], b"II".to_vec()));
}

#[test]
fn quality_scores_needs_the_separator() {
    assert_eq!(quality_scores(b""), Parse::Incomplete);
    assert_eq!(quality_scores(b"+"), Parse::Incomplete);
    assert_eq!(quality_scores(b"+abc"), Parse::Incomplete);
    assert_eq!(quality_scores(b"FFFF\n"), Parse::Error);
    assert_eq!(quality_scores(b"\n"), Parse::Error);
}

#[test]
fn record_without_quality_ends_with_empty_line() {
    let expected = Record { id: String::from("id"), seq: b"ACGT".to_vec(), qual: None };
    assert_eq!(parse_single_fastq(b"@id\nACGT\n\n@next"), Parse::Done(&b"@next"[..], expected));
}

#[test]
fn record_with_carriage_returns() {
    let expected =
        Record { id: String::from("id"), seq: b"ACGT".to_vec(), qual: Some(b"IIII".to_vec()) };
    assert_eq!(parse_single_fastq(b"@id\r\nACGT\r\n+\r\nIIII\r\n"), Parse::Done(&b""[..], expected));
}

#[test]
fn record_with_text_on_separator_line() {
    let expected =
        Record { id: String::from("id"), seq: b"ACGT".to_vec(), qual: Some(b"IIII".to_vec()) };
    assert_eq!(parse_single_fastq(b"@id\nACGT\n+id\nIIII\n"), Parse::Done(&b""[..], expected));
}

#[test]
fn record_with_empty_lines() {
    let expected = Record { id: String::new(), seq: Vec::new(), qual: Some(Vec::new()) };
    assert_eq!(parse_single_fastq(b"@\n\n+\n\n"), Parse::Done(&b""[..], expected));
}

#[test]
fn unfinished_record_is_incomplete() {
    assert_eq!(parse_single_fastq(b""), Parse::Incomplete);
    assert_eq!(parse_single_fastq(b"@"), Parse::Incomplete);
    assert_eq!(parse_single_fastq(b"@id"), Parse::Incomplete);
    assert_eq!(parse_single_fastq(b"@id\n"), Parse::Incomplete);
    assert_eq!(parse_single_fastq(b"@id\nACGT"), Parse::Incomplete);
    assert_eq!(parse_single_fastq(b"@id\nACGT\n"), Parse::Incomplete);
    assert_eq!(parse_single_fastq(b"@id\nACGT\n+"), Parse::Incomplete);
    assert_eq!(parse_single_fastq(b"@id\nACGT\n+\n"), Parse::Incomplete);
    assert_eq!(parse_single_fastq(b"@id\nACGT\n+\nIIII"), Parse::Incomplete);
    assert_eq!(parse_single_fastq(b"@id\nACGT\n+\nIIII\r"), Parse::Incomplete);
}

#[test]
fn header_cut_within_a_character_is_incomplete() {
    assert_eq!(parse_single_fastq(&[b'@', b'i', 0xc3]), Parse::Incomplete);
}

#[test]
fn wrong_framing_is_an_error() {
    assert_eq!(parse_single_fastq(b">id\nACGT\n"), Parse::Error);
    assert_eq!(parse_single_fastq(b"@id\nACGT\n@id2\n"), Parse::Error);
    assert_eq!(parse_single_fastq(b"@id\nACGT\nIIII\n"), Parse::Error);
    assert_eq!(parse_single_fastq(b"@id\rx\nACGT\n+\nIIII\n"), Parse::Error);
    assert_eq!(parse_single_fastq(b"@id\nACGT\n+\nII\rII\n"), Parse::Error);
}

#[test]
fn header_that_is_not_utf8_is_an_error() {
    assert_eq!(parse_single_fastq(&[b'@', 0xff, b'\n', b'A', b'\n', b'+', b'\n', b'I', b'\n']), Parse::Error);
}

#[test]
fn find_gives_the_first_place() {
    assert_eq!(find(b"abc\ndef\n", b'\n'), 3);
    assert_eq!(find(b"\n", b'\n'), 0);
    assert_eq!(find(b"abc", b'\n'), 3);
    assert_eq!(find(b"", b'>'), 0);
    assert_eq!(find(b"a>b>", b'>'), 1);
}
