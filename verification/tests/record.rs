use fastx::record::deref;
use fastx::text::header_id;
use fastx::Record;

#[test]
fn new_record_is_empty() {
    let record = Record::new();
    assert_eq!(record.id, "");
    assert_eq!(record.seq, Vec::<u8>::new());
    assert_eq!(record.qual, None);
    assert!(record.is_empty());
}

#[test]
fn clear_resets_every_field() {
    let mut record = Record {
        id: String::from("id1"),
        seq: b"ACGT".to_vec(),
        qual: Some(b"FFFF".to_vec()),
    };
    assert!(!record.is_empty());
    record.clear();
    assert_eq!(record, Record::new());
    assert!(record.is_empty());
}

#[test]
fn is_empty_looks_at_each_field() {
    let mut record = Record::new();
    record.id = String::from("x");
    assert!(!record.is_empty());
    let mut record = Record::new();
    record.seq = b"A".to_vec();
    assert!(!record.is_empty());
    let mut record = Record::new();
    record.qual = Some(Vec::new());
    assert!(!record.is_empty());
}

#[test]
fn deref_copies_the_bytes() {
    assert_eq!(deref(b"TTTTTTAAAAAA"), b"TTTTTTAAAAAA".to_vec());
    assert_eq!(deref(b""), Vec::<u8>::new());
}

#[test]
fn header_id_trims_white_space() {
    assert_eq!(header_id(b"id1 desc "), Some(String::from("id1 desc")));
    assert_eq!(header_id(b" \tid2\r"), Some(String::from("id2")));
    assert_eq!(header_id(b""), Some(String::new()));
    assert_eq!(header_id(b"   "), Some(String::new()));
}

#[test]
fn header_id_reads_utf8() {
    assert_eq!(header_id("s\u{e9}q \u{3b1}".as_bytes()), Some(String::from("s\u{e9}q \u{3b1}")));
}

#[test]
fn header_id_refuses_invalid_utf8() {
    assert_eq!(header_id(&[b'i', b'd', 0xff]), None);
    assert_eq!(header_id(&[0xc3]), None);
}
