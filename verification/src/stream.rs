//! What a whole input holds.
//!
//! `fasta_records` and `fastq_records` say which records an input holds and
//! how it ends, with no word of readers, chunks or sources.
use vstd::prelude::*;
use crate::fastq::{lemma_parse_done, spec_parse_single_fastq};
use crate::lines::{Parsed, LF};
use crate::reader::{Format, RECORD_MARK};
use crate::record::RecordView;
use crate::scan::{has_no, index_of, lemma_index_of, lemma_index_of_is};
use crate::text::spec_header_id;

verus! {

/// How the records of an input end.
#[derive(Debug, Clone, Copy, PartialEq, Eq, Structural)]
pub enum Ending {
    /// With the end of the input.
    End,
    /// With bytes that do not match the format.
    Malformed,
}

/// The records that an input gives, in order, and what ends them.
pub struct Trace {
    pub records: Seq<RecordView>,
    pub ending: Ending,
}

impl Trace {
    /// No record, and then `ending`.
    pub open spec fn ends(ending: Ending) -> Trace {
        Trace { records: Seq::empty(), ending }
    }

    /// `record`, and then this trace.
    pub open spec fn after(self, record: RecordView) -> Trace {
        Trace { records: seq![record] + self.records, ending: self.ending }
    }

    /// `records`, and then this trace.
    pub open spec fn after_all(self, records: Seq<RecordView>) -> Trace {
        Trace { records: records + self.records, ending: self.ending }
    }
}

/// The records of a FASTQ input: one record after the other, as the grammar
/// finds them, to the end of the input. An input that ends within a record
/// is malformed there.
pub open spec fn fastq_records(data: Seq<u8>) -> Trace
    decreases data.len(),
    via fastq_records_decreases
{
    if data.len() == 0 {
        Trace::ends(Ending::End)
    } else {
        match spec_parse_single_fastq(data) {
            Parsed::Done { used, out } => fastq_records(data.skip(used)).after(out),
            _ => Trace::ends(Ending::Malformed),
        }
    }
}

#[via_fn]
proof fn fastq_records_decreases(data: Seq<u8>) {
    if spec_parse_single_fastq(data) is Done {
        lemma_parse_done(data);
    }
}

/// The length of the body of a FASTA record: the bytes of `s` up to the
/// first record marker that begins a line. `line_start` says whether `s`
/// itself begins a line.
pub open spec fn body_len(s: Seq<u8>, line_start: bool) -> int
    decreases s.len(),
{
    if s.len() == 0 || (line_start && s[0] == RECORD_MARK) {
        0
    } else {
        1 + body_len(s.skip(1), s[0] == LF)
    }
}

/// The sequence of a FASTA record: the bytes of its body that are no line
/// feeds.
pub open spec fn body(s: Seq<u8>, line_start: bool) -> Seq<u8>
    decreases s.len(),
{
    if s.len() == 0 || (line_start && s[0] == RECORD_MARK) {
        Seq::empty()
    } else if s[0] == LF {
        body(s.skip(1), true)
    } else {
        seq![s[0]] + body(s.skip(1), false)
    }
}

/// The records of FASTA input that stands at the start of a record, or at
/// the end of the input.
///
/// A record is a header line, which begins with the record marker and ends
/// at the first line feed or with the input, and a body. The header must
/// stand for an identifier. The body may be empty: the record then has an
/// empty sequence.
pub open spec fn fasta_from(s: Seq<u8>) -> Trace
    decreases s.len(),
    via fasta_from_decreases
{
    let feed = index_of(s, LF);
    let rest = s.skip(
        if feed < s.len() {
            feed + 1
        } else {
            feed
        },
    );
    if s.len() == 0 {
        Trace::ends(Ending::End)
    } else if s[0] != RECORD_MARK {
        Trace::ends(Ending::Malformed)
    } else {
        match spec_header_id(s.subrange(1, feed)) {
            Some(id) => fasta_from(rest.skip(body_len(rest, true))).after(
                RecordView { id, seq: body(rest, true), qual: None },
            ),
            None => Trace::ends(Ending::Malformed),
        }
    }
}

#[via_fn]
proof fn fasta_from_decreases(s: Seq<u8>) {
    lemma_index_of(s, LF);
    let feed = index_of(s, LF);
    if s.len() != 0 && s[0] == RECORD_MARK {
        let rest = s.skip(
            if feed < s.len() {
                feed + 1
            } else {
                feed
            },
        );
        lemma_body_len(rest, true);
    }
}

/// The body of a record lies within the input.
pub proof fn lemma_body_len(s: Seq<u8>, line_start: bool)
    ensures
        0 <= body_len(s, line_start) <= s.len(),
    decreases s.len(),
{
    if !(s.len() == 0 || (line_start && s[0] == RECORD_MARK)) {
        lemma_body_len(s.skip(1), s[0] == LF);
    }
}

/// The records of a FASTA input: what comes before the first record marker
/// is passed over.
pub open spec fn fasta_records(data: Seq<u8>) -> Trace {
    fasta_from(data.skip(index_of(data, RECORD_MARK)))
}

/// The records that an input of `format` holds.
pub open spec fn records(format: Format, data: Seq<u8>) -> Trace {
    match format {
        Format::Fasta => fasta_records(data),
        Format::Fastq => fastq_records(data),
    }
}

/// A body that begins with `n` bytes of one line, none of them a line
/// feed, holds those bytes and then the body of what follows them.
pub proof fn lemma_body_within_line(s: Seq<u8>, line_start: bool, n: int)
    requires
        0 < n <= s.len(),
        has_no(s.take(n), LF),
        !(line_start && s[0] == RECORD_MARK),
    ensures
        body_len(s, line_start) == n + body_len(s.skip(n), false),
        body(s, line_start) == s.take(n) + body(s.skip(n), false),
    decreases n,
{
    assert(s[0] == s.take(n)[0]);
    let rest = s.skip(1);
    if n == 1 {
    } else {
        assert forall|i: int| 0 <= i < n - 1 implies #[trigger] rest.take(n - 1)[i] != LF by {
            assert(rest.take(n - 1)[i] == s.take(n)[i + 1]);
        }
        lemma_body_within_line(rest, false, n - 1);
        assert(rest.skip(n - 1) =~= s.skip(n));
    }
}

/// A body whose first line feed stands at `feed` holds the bytes before it
/// and then the body that begins on the next line.
pub proof fn lemma_body_line(s: Seq<u8>, line_start: bool, feed: int)
    requires
        0 <= feed < s.len(),
        has_no(s.take(feed), LF),
        s[feed] == LF,
        !(line_start && s[0] == RECORD_MARK),
    ensures
        body_len(s, line_start) == feed + 1 + body_len(s.skip(feed + 1), true),
        body(s, line_start) == s.take(feed) + body(s.skip(feed + 1), true),
{
    if feed == 0 {
    } else {
        lemma_body_within_line(s, line_start, feed);
        assert(s.skip(feed).skip(1) =~= s.skip(feed + 1));
    }
}

/// The records of input that begins with a header line whose line feed
/// stands at `feed`, or which ends the input at `feed`.
pub proof fn lemma_fasta_from_header(s: Seq<u8>, feed: int)
    requires
        0 < feed <= s.len(),
        s[0] == RECORD_MARK,
        has_no(s.take(feed), LF),
        feed < s.len() ==> s[feed] == LF,
    ensures
        ({
            let rest = s.skip(
                if feed < s.len() {
                    feed + 1
                } else {
                    feed
                },
            );
            fasta_from(s) == match spec_header_id(s.subrange(1, feed)) {
                Some(id) => fasta_from(rest.skip(body_len(rest, true))).after(
                    RecordView { id, seq: body(rest, true), qual: None },
                ),
                None => Trace::ends(Ending::Malformed),
            }
        }),
{
    lemma_index_of_is(s, LF, feed);
}

} // verus!
