//! Inputs that are written as the formats ask, and the records that they
//! give.
//!
//! An entry is what a writer has in hand: the content of each line. The
//! laws here say that reading what was written gives the entries back.
use vstd::prelude::*;
use vstd::utf8::{decode_utf8, valid_utf8};
use crate::fastq::{
    spec_parse_single_fastq, spec_record_body, spec_record_end, HEADER_MARK, SEPARATOR_MARK,
};
use crate::lines::{eol, is_plain, lemma_line_of, Parsed, LF};
use crate::scan::{has_no, lemma_index_of_is};
use crate::reader::RECORD_MARK;
use crate::record::RecordView;
use crate::stream::{
    body, body_len, fasta_from, fasta_records, fastq_records, lemma_body_line,
    lemma_fasta_from_header, Ending, Trace,
};
use crate::text::{spec_header_id, trimmed};

verus! {

/// One FASTQ record as it is written: the content of its four lines, and
/// the terminator that ends each of them.
pub struct FastqEntry {
    /// The header line, without the `@`.
    pub header: Seq<u8>,
    pub seq: Seq<u8>,
    /// The separator line, without the `+`.
    pub separator: Seq<u8>,
    pub qual: Seq<u8>,
    /// Lines end with a carriage return and a line feed.
    pub crlf: bool,
}

impl FastqEntry {
    /// No line holds a terminator byte, and the header is valid UTF-8.
    pub open spec fn wf(self) -> bool {
        &&& is_plain(self.header)
        &&& is_plain(self.seq)
        &&& is_plain(self.separator)
        &&& is_plain(self.qual)
        &&& valid_utf8(self.header)
    }

    /// What follows the header line.
    pub open spec fn body_bytes(self) -> Seq<u8> {
        self.seq + eol(self.crlf) + self.end_bytes()
    }

    /// What follows the sequence line.
    pub open spec fn end_bytes(self) -> Seq<u8> {
        seq![SEPARATOR_MARK] + self.separator + eol(self.crlf) + (self.qual + eol(self.crlf))
    }

    /// The entry, written.
    pub open spec fn bytes(self) -> Seq<u8> {
        seq![HEADER_MARK] + self.header + eol(self.crlf) + self.body_bytes()
    }

    /// The record that the entry stands for.
    pub open spec fn record(self) -> RecordView {
        RecordView { id: spec_header_id(self.header)->0, seq: self.seq, qual: Some(self.qual) }
    }
}

/// The entries, written one after the other.
pub open spec fn fastq_bytes(entries: Seq<FastqEntry>) -> Seq<u8>
    decreases entries.len(),
{
    if entries.len() == 0 {
        Seq::empty()
    } else {
        entries[0].bytes() + fastq_bytes(entries.skip(1))
    }
}

/// The grammar finds the written end of an entry.
proof fn lemma_entry_end_parses(entry: FastqEntry, tail: Seq<u8>)
    requires
        entry.wf(),
    ensures
        spec_record_end(entry.end_bytes() + tail) == (Parsed::Done {
            used: entry.end_bytes().len() as int,
            out: Some(entry.qual),
        }),
{
    let end = eol(entry.crlf);
    let s = entry.end_bytes() + tail;
    let quality = entry.qual + end + tail;
    let separator_len = (entry.separator + end).len() as int;
    assert(s.skip(1) =~= entry.separator + end + quality);
    lemma_line_of(entry.separator, entry.crlf, quality);
    assert(s.skip(1 + separator_len) =~= quality);
    lemma_line_of(entry.qual, entry.crlf, tail);
}

/// The grammar finds what is written of an entry after its header line.
proof fn lemma_entry_body_parses(entry: FastqEntry, tail: Seq<u8>, id: Seq<char>)
    requires
        entry.wf(),
    ensures
        spec_record_body(entry.body_bytes() + tail, id) == (Parsed::Done {
            used: entry.body_bytes().len() as int,
            out: RecordView { id, seq: entry.seq, qual: Some(entry.qual) },
        }),
{
    let end = eol(entry.crlf);
    let s = entry.body_bytes() + tail;
    let after = entry.end_bytes() + tail;
    let seq_len = (entry.seq + end).len() as int;
    assert(s =~= entry.seq + end + after);
    lemma_line_of(entry.seq, entry.crlf, after);
    assert(s.skip(seq_len) =~= after);
    lemma_entry_end_parses(entry, tail);
}

/// The grammar finds a written entry at the start of any input that begins
/// with it, and takes exactly the bytes of the entry.
pub proof fn lemma_entry_parses(entry: FastqEntry, tail: Seq<u8>)
    requires
        entry.wf(),
    ensures
        spec_parse_single_fastq(entry.bytes() + tail) == (Parsed::Done {
            used: entry.bytes().len() as int,
            out: entry.record(),
        }),
{
    reveal(spec_parse_single_fastq);
    let end = eol(entry.crlf);
    let s = entry.bytes() + tail;
    let after = entry.body_bytes() + tail;
    let header_len = (entry.header + end).len() as int;
    assert(s.skip(1) =~= entry.header + end + after);
    lemma_line_of(entry.header, entry.crlf, after);
    assert(s.skip(1 + header_len) =~= after);
    lemma_entry_body_parses(entry, tail, entry.record().id);
}

/// Reading what was written gives it back: a FASTQ input made of written
/// entries holds one record for each entry, in their order, and ends well.
/// The quality string of each record is the content of the fourth line of
/// its entry, and its sequence that of the second.
pub proof fn lemma_fastq_written(entries: Seq<FastqEntry>)
    requires
        forall|i: int| 0 <= i < entries.len() ==> (#[trigger] entries[i]).wf(),
    ensures
        fastq_records(fastq_bytes(entries)) == (Trace {
            records: entries.map_values(|entry: FastqEntry| entry.record()),
            ending: Ending::End,
        }),
        fastq_records(fastq_bytes(entries)).records.len() == entries.len(),
        forall|i: int|
            0 <= i < entries.len() ==> fastq_records(fastq_bytes(entries)).records[i] == (
            RecordView {
                id: trimmed(decode_utf8((#[trigger] entries[i]).header)),
                seq: entries[i].seq,
                qual: Some(entries[i].qual),
            }),
    decreases entries.len(),
{
    let records = entries.map_values(|entry: FastqEntry| entry.record());
    if entries.len() == 0 {
        assert(records =~= Seq::<RecordView>::empty());
    } else {
        let first = entries[0];
        let others = entries.skip(1);
        let data = fastq_bytes(entries);
        lemma_entry_parses(first, fastq_bytes(others));
        assert(data.skip(first.bytes().len() as int) =~= fastq_bytes(others));
        lemma_fastq_written(others);
        assert(seq![first.record()] + others.map_values(|entry: FastqEntry| entry.record())
            =~= records);
    }
}

/// One FASTA record as it is written: the content of its header line and of
/// the lines of its body. Each line ends with a line feed.
pub struct FastaEntry {
    /// The header line, without the `>`.
    pub header: Seq<u8>,
    pub lines: Seq<Seq<u8>>,
}

impl FastaEntry {
    /// No line holds a line feed, the header stands for an identifier, and
    /// no line of the body begins with the record marker.
    pub open spec fn wf(self) -> bool {
        &&& has_no(self.header, LF)
        &&& valid_utf8(self.header)
        &&& forall|i: int|
            0 <= i < self.lines.len() ==> {
                &&& has_no(#[trigger] self.lines[i], LF)
                &&& self.lines[i].len() > 0 ==> self.lines[i][0] != RECORD_MARK
            }
    }

    /// The entry, written.
    pub open spec fn bytes(self) -> Seq<u8> {
        seq![RECORD_MARK] + self.header + seq![LF] + lines_bytes(self.lines)
    }

    /// The record that the entry stands for: its sequence is the lines of
    /// the body, joined.
    pub open spec fn record(self) -> RecordView {
        RecordView { id: spec_header_id(self.header)->0, seq: self.lines.flatten(), qual: None }
    }
}

/// The lines, written one after the other, each with its line feed.
pub open spec fn lines_bytes(lines: Seq<Seq<u8>>) -> Seq<u8>
    decreases lines.len(),
{
    if lines.len() == 0 {
        Seq::empty()
    } else {
        lines[0] + seq![LF] + lines_bytes(lines.skip(1))
    }
}

/// The entries, written one after the other.
pub open spec fn fasta_bytes(entries: Seq<FastaEntry>) -> Seq<u8>
    decreases entries.len(),
{
    if entries.len() == 0 {
        Seq::empty()
    } else {
        entries[0].bytes() + fasta_bytes(entries.skip(1))
    }
}

/// Written lines that are followed by the next record, or by nothing, are
/// the whole body, and the sequence is the lines joined.
pub proof fn lemma_lines_are_body(lines: Seq<Seq<u8>>, tail: Seq<u8>)
    requires
        forall|i: int|
            0 <= i < lines.len() ==> {
                &&& has_no(#[trigger] lines[i], LF)
                &&& lines[i].len() > 0 ==> lines[i][0] != RECORD_MARK
            },
        tail.len() > 0 ==> tail[0] == RECORD_MARK,
    ensures
        body_len(lines_bytes(lines) + tail, true) == lines_bytes(lines).len(),
        body(lines_bytes(lines) + tail, true) == lines.flatten(),
    decreases lines.len(),
{
    let s = lines_bytes(lines) + tail;
    if lines.len() != 0 {
        let first = lines[0];
        let others = lines.skip(1);
        let feed = first.len() as int;
        assert(s[0] != RECORD_MARK);
        lemma_body_line(s, true, feed);
        assert(s.skip(feed + 1) =~= lines_bytes(others) + tail);
        lemma_lines_are_body(others, tail);
    }
}

/// What is written begins with a record marker, unless it is empty.
pub proof fn lemma_fasta_bytes_begin(entries: Seq<FastaEntry>)
    ensures
        fasta_bytes(entries).len() > 0 ==> fasta_bytes(entries)[0] == RECORD_MARK,
        entries.len() > 0 ==> fasta_bytes(entries).len() > 0,
{
}

/// Reading what was written gives it back, from a record boundary on.
pub proof fn lemma_fasta_from_written(entries: Seq<FastaEntry>)
    requires
        forall|i: int| 0 <= i < entries.len() ==> (#[trigger] entries[i]).wf(),
    ensures
        fasta_from(fasta_bytes(entries)) == (Trace {
            records: entries.map_values(|entry: FastaEntry| entry.record()),
            ending: Ending::End,
        }),
    decreases entries.len(),
{
    let records = entries.map_values(|entry: FastaEntry| entry.record());
    if entries.len() == 0 {
        assert(records =~= Seq::<RecordView>::empty());
    } else {
        let first = entries[0];
        let others = entries.skip(1);
        let tail = fasta_bytes(others);
        let s = fasta_bytes(entries);
        let feed = first.header.len() as int + 1;
        lemma_fasta_from_header(s, feed);
        assert(s.subrange(1, feed) =~= first.header);
        let rest = s.skip(feed + 1);
        assert(rest =~= lines_bytes(first.lines) + tail);
        lemma_fasta_bytes_begin(others);
        lemma_lines_are_body(first.lines, tail);
        assert(rest.skip(body_len(rest, true)) =~= tail);
        lemma_fasta_from_written(others);
        assert(seq![first.record()] + others.map_values(|entry: FastaEntry| entry.record())
            =~= records);
    }
}

/// Reading what was written gives it back: a FASTA input made of anything
/// that holds no record marker, and then of written entries, holds one
/// record for each entry, in their order, and ends well. The identifier of
/// each record is that of the header of its entry, and its sequence is the
/// lines of the entry's body, joined.
pub proof fn lemma_fasta_written(preamble: Seq<u8>, entries: Seq<FastaEntry>)
    requires
        has_no(preamble, RECORD_MARK),
        forall|i: int| 0 <= i < entries.len() ==> (#[trigger] entries[i]).wf(),
    ensures
        fasta_records(preamble + fasta_bytes(entries)) == (Trace {
            records: entries.map_values(|entry: FastaEntry| entry.record()),
            ending: Ending::End,
        }),
        fasta_records(preamble + fasta_bytes(entries)).records.len() == entries.len(),
        forall|i: int|
            0 <= i < entries.len() ==> fasta_records(preamble + fasta_bytes(entries)).records[i]
                == (RecordView {
                id: trimmed(decode_utf8((#[trigger] entries[i]).header)),
                seq: entries[i].lines.flatten(),
                qual: None,
            }),
{
    let data = preamble + fasta_bytes(entries);
    let mark = preamble.len() as int;
    lemma_fasta_bytes_begin(entries);
    lemma_index_of_is(data, RECORD_MARK, mark);
    assert(data.skip(mark) =~= fasta_bytes(entries));
    lemma_fasta_from_written(entries);
}

} // verus!
