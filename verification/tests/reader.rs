use fastx::{read_all, Ending, Format, Outcome, Record, Sequences, Step};

fn record(id: &str, seq: &[u8], qual: Option<&[u8]>) -> Record {
    Record { id: String::from(id), seq: seq.to_vec(), qual: qual.map(|q| q.to_vec()) }
}

/// Runs a reader over `data` as the owner of a source would, with `ready`
/// bytes ready at each step, and counts the bytes taken.
fn drive(mut reader: Sequences, data: &[u8], ready: usize) -> (Vec<Record>, Outcome, usize) {
    let mut found = Vec::new();
    let mut at = 0;
    let mut steps = 0;
    loop {
        let end = if data.len() - at <= ready { data.len() } else { at + ready };
        let step = reader.next(&data[at..end]);
        assert!(step.consumed <= end - at);
        at += step.consumed;
        steps += 1;
        assert!(steps <= 2 * data.len() + 2);
        match step.outcome {
            Outcome::Pending => assert!(step.consumed > 0),
            Outcome::Record(record) => found.push(record),
            ending => return (found, ending, at),
        }
    }
}

const FASTA_INPUT: &[u8] = b">id1 desc \nTTTTTT\nAAAAAA\n>id2\nGGGGGG\nCCCCCC\n";

const FASTQ_INPUT: &[u8] =
    b"@id1 desc \nTTTTTTAAAAAA\n+\nFFFFFFFFFFFFF\n@id2\nGGGGGGCCCCCC\n+\nFFFFFFFFFFFFF\n";

#[test]
fn fasta_two_records() {
    let (found, ending, taken) = drive(Sequences::from_fasta(), FASTA_INPUT, FASTA_INPUT.len());
    assert_eq!(
        found,
        vec![record("id1 desc", b"TTTTTTAAAAAA", None), record("id2", b"GGGGGGCCCCCC", None)]
    );
    assert_eq!(ending, Outcome::End);
    assert_eq!(taken, FASTA_INPUT.len());
}

#[test]
fn fastq_two_records() {
    let (found, ending, taken) = drive(Sequences::from_fastq(), FASTQ_INPUT, FASTQ_INPUT.len());
    assert_eq!(
        found,
        vec![
            record("id1 desc", b"TTTTTTAAAAAA", Some(b"FFFFFFFFFFFFF")),
            record("id2", b"GGGGGGCCCCCC", Some(b"FFFFFFFFFFFFF")),
        ]
    );
    assert_eq!(ending, Outcome::End);
    assert_eq!(taken, FASTQ_INPUT.len());
}

#[test]
fn fastq_truncated_after_sequence_line_is_malformed() {
    let data = b"@id1 desc \nTTTTTTAAAAAA\n";
    for ready in 1..=data.len() {
        let (found, ending, _) = drive(Sequences::from_fastq(), data, ready);
        assert_eq!(found, Vec::<Record>::new());
        assert_eq!(ending, Outcome::Malformed);
    }
}

#[test]
fn fastq_truncated_second_record_is_malformed() {
    let data = b"@a\nAC\n+\nFF\n@b\nGT\n";
    for ready in 1..=data.len() {
        let (found, ending, _) = drive(Sequences::from_fastq(), data, ready);
        assert_eq!(found, vec![record("a", b"AC", Some(b"FF"))]);
        assert_eq!(ending, Outcome::Malformed);
    }
}

#[test]
fn fasta_chunks_of_one_byte_give_the_same_records() {
    let whole = drive(Sequences::from_fasta(), FASTA_INPUT, FASTA_INPUT.len());
    let bytewise = drive(Sequences::from_fasta(), FASTA_INPUT, 1);
    assert_eq!(whole, bytewise);
    assert_eq!(bytewise.0.len(), 2);
}

#[test]
fn every_chunk_size_gives_the_same_records() {
    let fasta = drive(Sequences::from_fasta(), FASTA_INPUT, FASTA_INPUT.len());
    for ready in 1..FASTA_INPUT.len() {
        assert_eq!(drive(Sequences::from_fasta(), FASTA_INPUT, ready), fasta);
    }
    let fastq = drive(Sequences::from_fastq(), FASTQ_INPUT, FASTQ_INPUT.len());
    for ready in 1..FASTQ_INPUT.len() {
        assert_eq!(drive(Sequences::from_fastq(), FASTQ_INPUT, ready), fastq);
    }
}

#[test]
fn reading_twice_gives_the_same_records() {
    assert_eq!(
        drive(Sequences::from_fasta(), FASTA_INPUT, 7),
        drive(Sequences::from_fasta(), FASTA_INPUT, 7)
    );
    assert_eq!(
        drive(Sequences::from_fastq(), FASTQ_INPUT, 7),
        drive(Sequences::from_fastq(), FASTQ_INPUT, 7)
    );
}

#[test]
fn end_is_reported_again() {
    let mut reader = Sequences::from_fasta();
    assert_eq!(reader.next(b""), Step { consumed: 0, outcome: Outcome::End });
    assert_eq!(reader.next(b""), Step { consumed: 0, outcome: Outcome::End });
    assert_eq!(reader.next(b">id\nACGT\n"), Step { consumed: 0, outcome: Outcome::End });
    let mut reader = Sequences::from_fastq();
    assert_eq!(reader.next(b""), Step { consumed: 0, outcome: Outcome::End });
    assert_eq!(reader.next(b"@id\nACGT\n+\nIIII\n"), Step { consumed: 0, outcome: Outcome::End });
    assert_eq!(reader.next(b""), Step { consumed: 0, outcome: Outcome::End });
}

#[test]
fn malformed_is_reported_again() {
    let mut reader = Sequences::from_fastq();
    assert_eq!(reader.next(b">id\n"), Step { consumed: 0, outcome: Outcome::Malformed });
    assert_eq!(reader.next(b"@id\nACGT\n+\nIIII\n"), Step { consumed: 0, outcome: Outcome::Malformed });
    assert_eq!(reader.next(b""), Step { consumed: 0, outcome: Outcome::Malformed });
}

#[test]
fn fastq_takes_no_byte_of_the_next_record() {
    let mut reader = Sequences::from_fastq();
    let step = reader.next(FASTQ_INPUT);
    assert_eq!(step.consumed, 40);
    assert_eq!(step.outcome, Outcome::Record(record("id1 desc", b"TTTTTTAAAAAA", Some(b"FFFFFFFFFFFFF"))));
    let step = reader.next(&FASTQ_INPUT[40..]);
    assert_eq!(step.consumed, 34);
    assert_eq!(step.outcome, Outcome::Record(record("id2", b"GGGGGGCCCCCC", Some(b"FFFFFFFFFFFFF"))));
    assert_eq!(reader.next(b""), Step { consumed: 0, outcome: Outcome::End });
}

#[test]
fn fastq_carries_an_unfinished_record_over() {
    let mut reader = Sequences::from_fastq();
    assert_eq!(reader.next(b"@id\nAC"), Step { consumed: 6, outcome: Outcome::Pending });
    assert_eq!(reader.next(b"GT\n+\nII"), Step { consumed: 7, outcome: Outcome::Pending });
    let step = reader.next(b"II\n@next\n");
    assert_eq!(step.consumed, 3);
    assert_eq!(step.outcome, Outcome::Record(record("id", b"ACGT", Some(b"IIII"))));
}

#[test]
fn fastq_without_last_terminator_is_malformed() {
    let (found, ending, _) = drive(Sequences::from_fastq(), b"@id\nACGT\n+\nIIII", 4);
    assert_eq!(found, Vec::<Record>::new());
    assert_eq!(ending, Outcome::Malformed);
}

#[test]
fn fastq_wrong_marker_is_malformed_and_takes_nothing() {
    let mut reader = Sequences::from_fastq();
    assert_eq!(reader.next(b">id\nACGT\n"), Step { consumed: 0, outcome: Outcome::Malformed });
}

#[test]
fn fastq_header_that_is_not_utf8_is_malformed() {
    let data = [b'@', 0xff, b'\n', b'A', b'\n', b'+', b'\n', b'I', b'\n'];
    let (found, ending, _) = drive(Sequences::from_fastq(), &data, 3);
    assert_eq!(found, Vec::<Record>::new());
    assert_eq!(ending, Outcome::Malformed);
}

#[test]
fn fastq_header_split_within_a_character() {
    let data = "@s\u{e9}q\nAC\n+\nII\n".as_bytes();
    for ready in 1..=data.len() {
        let (found, ending, _) = drive(Sequences::from_fastq(), data, ready);
        assert_eq!(found, vec![record("s\u{e9}q", b"AC", Some(b"II"))]);
        assert_eq!(ending, Outcome::End);
    }
}

#[test]
fn empty_input_has_no_record() {
    assert_eq!(drive(Sequences::from_fasta(), b"", 1), (Vec::new(), Outcome::End, 0));
    assert_eq!(drive(Sequences::from_fastq(), b"", 1), (Vec::new(), Outcome::End, 0));
}

#[test]
fn fasta_passes_over_what_comes_before_the_first_marker() {
    let data = b"; a comment\n\n>id\nACGT\n";
    for ready in 1..=data.len() {
        let (found, ending, taken) = drive(Sequences::from_fasta(), data, ready);
        assert_eq!(found, vec![record("id", b"ACGT", None)]);
        assert_eq!(ending, Outcome::End);
        assert_eq!(taken, data.len());
    }
}

#[test]
fn fasta_input_without_marker_has_no_record() {
    let (found, ending, taken) = drive(Sequences::from_fasta(), b"ACGT\nACGT\n", 3);
    assert_eq!(found, Vec::<Record>::new());
    assert_eq!(ending, Outcome::End);
    assert_eq!(taken, 10);
}

#[test]
fn fasta_record_with_empty_body() {
    let data = b">id1\n>id2\nAC\n>id3";
    for ready in 1..=data.len() {
        let (found, ending, _) = drive(Sequences::from_fasta(), data, ready);
        assert_eq!(
            found,
            vec![record("id1", b"", None), record("id2", b"AC", None), record("id3", b"", None)]
        );
        assert_eq!(ending, Outcome::End);
    }
}

#[test]
fn fasta_last_line_without_terminator() {
    let data = b">id\nAC\nGT";
    for ready in 1..=data.len() {
        let (found, ending, _) = drive(Sequences::from_fasta(), data, ready);
        assert_eq!(found, vec![record("id", b"ACGT", None)]);
        assert_eq!(ending, Outcome::End);
    }
}

#[test]
fn fasta_empty_lines_add_nothing() {
    let data = b">id\nAC\n\n\nGT\n\n";
    for ready in 1..=data.len() {
        let (found, _, _) = drive(Sequences::from_fasta(), data, ready);
        assert_eq!(found, vec![record("id", b"ACGT", None)]);
    }
}

#[test]
fn fasta_marker_within_a_line_is_sequence() {
    let data = b">id\nAC>GT\nA\n>id2\n";
    for ready in 1..=data.len() {
        let (found, _, _) = drive(Sequences::from_fasta(), data, ready);
        assert_eq!(found, vec![record("id", b"AC>GTA", None), record("id2", b"", None)]);
    }
}

#[test]
fn fasta_keeps_carriage_returns_in_the_sequence() {
    let (found, _, _) = drive(Sequences::from_fasta(), b">id \r\nAC\r\nGT\r\n", 5);
    assert_eq!(found, vec![record("id", b"AC\rGT\r", None)]);
}

#[test]
fn fasta_leaves_the_next_marker_in_the_source() {
    let mut reader = Sequences::from_fasta();
    let data = b">a\nAC\n>b\nGT\n";
    assert_eq!(reader.next(data), Step { consumed: 1, outcome: Outcome::Pending });
    assert_eq!(reader.next(&data[1..]), Step { consumed: 2, outcome: Outcome::Pending });
    assert_eq!(reader.next(&data[3..]), Step { consumed: 3, outcome: Outcome::Pending });
    assert_eq!(
        reader.next(&data[6..]),
        Step { consumed: 0, outcome: Outcome::Record(record("a", b"AC", None)) }
    );
    assert_eq!(reader.next(&data[6..]), Step { consumed: 3, outcome: Outcome::Pending });
    assert_eq!(reader.next(&data[9..]), Step { consumed: 3, outcome: Outcome::Pending });
    assert_eq!(
        reader.next(b""),
        Step { consumed: 0, outcome: Outcome::Record(record("b", b"GT", None)) }
    );
    assert_eq!(reader.next(b""), Step { consumed: 0, outcome: Outcome::End });
}

#[test]
fn fasta_header_that_is_not_utf8_is_malformed() {
    let data = [b'>', b'i', 0xff, b'\n', b'A', b'\n'];
    for ready in 1..=data.len() {
        let (found, ending, _) = drive(Sequences::from_fasta(), &data, ready);
        assert_eq!(found, Vec::<Record>::new());
        assert_eq!(ending, Outcome::Malformed);
    }
}

#[test]
fn fasta_header_must_begin_with_the_marker() {
    let mut reader = Sequences::from_fasta();
    let data = b">a\nAC\n>b\n";
    assert_eq!(reader.next(data), Step { consumed: 1, outcome: Outcome::Pending });
    assert_eq!(reader.next(&data[1..]), Step { consumed: 2, outcome: Outcome::Pending });
    assert_eq!(reader.next(&data[3..]), Step { consumed: 3, outcome: Outcome::Pending });
    assert_eq!(
        reader.next(&data[6..]),
        Step { consumed: 0, outcome: Outcome::Record(record("a", b"AC", None)) }
    );
    assert_eq!(reader.next(b"b\n"), Step { consumed: 0, outcome: Outcome::Malformed });
    assert_eq!(reader.next(&data[6..]), Step { consumed: 0, outcome: Outcome::Malformed });
}

#[test]
fn read_all_gives_records_and_ending() {
    let (found, ending) = read_all(Format::Fasta, FASTA_INPUT, 4096);
    assert_eq!(
        found,
        vec![record("id1 desc", b"TTTTTTAAAAAA", None), record("id2", b"GGGGGGCCCCCC", None)]
    );
    assert_eq!(ending, Ending::End);
    let (found, ending) = read_all(Format::Fastq, b"@a\nAC\n+\nFF\n@b\nGT\n", 4096);
    assert_eq!(found, vec![record("a", b"AC", Some(b"FF"))]);
    assert_eq!(ending, Ending::Malformed);
}

#[test]
fn read_all_is_the_same_for_every_chunk_size() {
    let fasta = read_all(Format::Fasta, FASTA_INPUT, usize::MAX);
    let fastq = read_all(Format::Fastq, FASTQ_INPUT, usize::MAX);
    assert_eq!(fasta.0.len(), 2);
    assert_eq!(fastq.0.len(), 2);
    for ready in 0..50 {
        assert_eq!(read_all(Format::Fasta, FASTA_INPUT, ready), fasta);
        assert_eq!(read_all(Format::Fastq, FASTQ_INPUT, ready), fastq);
    }
}

#[test]
fn many_records_in_file_order() {
    let mut data = Vec::new();
    let mut expected = Vec::new();
    for i in 0..100 {
        let id = format!("read{}", i);
        data.extend_from_slice(format!(">{} length=8\nACGT\nTGCA\n", id).as_bytes());
        expected.push(record(&format!("{} length=8", id), b"ACGTTGCA", None));
    }
    let (found, ending) = read_all(Format::Fasta, &data, 13);
    assert_eq!(found, expected);
    assert_eq!(ending, Ending::End);
}
