//! The grammar of one FASTQ record.
//!
//! A record is a header line that begins with `@`, a sequence line, and
//! then either a separator line that begins with `+` followed by a quality
//! line, or an empty line, in which case the record has no quality string.
use vstd::prelude::*;
use crate::lines::{
    lemma_line_done, lemma_line_ending_extends, lemma_line_ending_local, lemma_line_extends,
    lemma_line_local, line_ending, not_line_ending, read_line, spec_line, spec_line_ending,
    spec_not_line_ending, Parse, Parsed,
};
use crate::record::{deref, Record, RecordView};
use crate::text::{header_id, spec_header_id};

verus! {

/// The byte that begins a header line.
pub const HEADER_MARK: u8 = 64;

/// The byte that begins a separator line.
pub const SEPARATOR_MARK: u8 = 43;

/// A separator line and the content of the quality line after it. What
/// follows the `+` on the separator line is passed over. The terminator of
/// the quality line is left.
pub open spec fn spec_quality_scores(s: Seq<u8>) -> Parsed<Seq<u8>> {
    if s.len() == 0 {
        Parsed::Incomplete
    } else if s[0] != SEPARATOR_MARK {
        Parsed::Error
    } else {
        match spec_line(s.skip(1)) {
            Parsed::Done { used: separator, .. } => match spec_not_line_ending(
                s.skip(1 + separator),
            ) {
                Parsed::Done { used, out } => Parsed::Done { used: 1 + separator + used, out },
                Parsed::Incomplete => Parsed::Incomplete,
                Parsed::Error => Parsed::Error,
            },
            Parsed::Incomplete => Parsed::Incomplete,
            Parsed::Error => Parsed::Error,
        }
    }
}

/// The end of a record: either a separator line, which begins with `+`,
/// and a quality line, or a bare line terminator, which leaves the record
/// without a quality string.
pub open spec fn spec_record_end(s: Seq<u8>) -> Parsed<Option<Seq<u8>>> {
    if s.len() == 0 {
        Parsed::Incomplete
    } else if s[0] == SEPARATOR_MARK {
        match spec_line(s.skip(1)) {
            Parsed::Done { used: separator, .. } => match spec_line(s.skip(1 + separator)) {
                Parsed::Done { used, out } => Parsed::Done {
                    used: 1 + separator + used,
                    out: Some(out),
                },
                Parsed::Incomplete => Parsed::Incomplete,
                Parsed::Error => Parsed::Error,
            },
            Parsed::Incomplete => Parsed::Incomplete,
            Parsed::Error => Parsed::Error,
        }
    } else {
        match spec_line_ending(s) {
            Parsed::Done { used, .. } => Parsed::Done { used, out: None },
            Parsed::Incomplete => Parsed::Incomplete,
            Parsed::Error => Parsed::Error,
        }
    }
}

/// What is left of a record once its header line has been read: the
/// sequence line, then the end of the record.
pub open spec fn spec_record_body(s: Seq<u8>, id: Seq<char>) -> Parsed<RecordView> {
    match spec_line(s) {
        Parsed::Done { used: sequence, out: seq } => match spec_record_end(
            s.skip(sequence),
        ) {
            Parsed::Done { used, out: qual } => Parsed::Done {
                used: sequence + used,
                out: RecordView { id, seq, qual },
            },
            Parsed::Incomplete => Parsed::Incomplete,
            Parsed::Error => Parsed::Error,
        },
        Parsed::Incomplete => Parsed::Incomplete,
        Parsed::Error => Parsed::Error,
    }
}

/// One FASTQ record at the start of `s`. The header must be a whole line
/// of valid UTF-8 before anything is made of it.
#[verifier::opaque]
pub open spec fn spec_parse_single_fastq(s: Seq<u8>) -> Parsed<RecordView> {
    if s.len() == 0 {
        Parsed::Incomplete
    } else if s[0] != HEADER_MARK {
        Parsed::Error
    } else {
        match spec_line(s.skip(1)) {
            Parsed::Done { used: header, out } => match spec_header_id(out) {
                Some(id) => match spec_record_body(s.skip(1 + header), id) {
                    Parsed::Done { used, out } => Parsed::Done { used: 1 + header + used, out },
                    Parsed::Incomplete => Parsed::Incomplete,
                    Parsed::Error => Parsed::Error,
                },
                None => Parsed::Error,
            },
            Parsed::Incomplete => Parsed::Incomplete,
            Parsed::Error => Parsed::Error,
        }
    }
}

/// Reads a separator line and the content of the quality line after it.
pub fn quality_scores<'a>(input: &'a [u8]) -> (r: Parse<'a, Vec<u8>>)
    ensures
        r.is_result(input@, spec_quality_scores(input@)),
{
    if input.len() == 0 {
        return Parse::Incomplete;
    }
    if input[0] != SEPARATOR_MARK {
        return Parse::Error;
    }
    let after_mark = &input[1..input.len()];
    let quality = match read_line(after_mark) {
        Parse::Done(quality, _) => quality,
        Parse::Incomplete => { return Parse::Incomplete; },
        Parse::Error => { return Parse::Error; },
    };
    let ghost separator = spec_line(input@.skip(1))->used;
    assert(quality@ =~= input@.skip(1 + separator));
    match not_line_ending(quality) {
        Parse::Done(rest, scores) => {
            proof {
                let used = spec_not_line_ending(quality@)->used;
                assert(quality@.skip(used) =~= input@.skip(1 + separator + used));
            }
            Parse::Done(rest, deref(scores))
        },
        Parse::Incomplete => Parse::Incomplete,
        Parse::Error => Parse::Error,
    }
}

/// Reads the end of a record.
fn record_end<'a>(input: &'a [u8]) -> (r: Parse<'a, Option<Vec<u8>>>)
    ensures
        match spec_record_end(input@) {
            Parsed::Done { used, out } => {
                &&& 0 <= used <= input@.len()
                &&& r matches Parse::Done(rest, qual)
                &&& rest@ == input@.skip(used)
                &&& match out {
                    Some(scores) => qual matches Some(q) && q@ == scores,
                    None => qual is None,
                }
            },
            Parsed::Incomplete => r is Incomplete,
            Parsed::Error => r is Error,
        },
{
    match quality_scores(input) {
        Parse::Done(after, scores) => match line_ending(after) {
            Parse::Done(rest, _) => Parse::Done(rest, Some(scores)),
            Parse::Incomplete => Parse::Incomplete,
            Parse::Error => Parse::Error,
        },
        Parse::Incomplete => Parse::Incomplete,
        Parse::Error => match line_ending(input) {
            Parse::Done(rest, _) => Parse::Done(rest, None),
            Parse::Incomplete => Parse::Incomplete,
            Parse::Error => Parse::Error,
        },
    }
}

/// Reads one record from the start of `input`, and says what it left.
pub fn parse_single_fastq<'a>(input: &'a [u8]) -> (r: Parse<'a, Record>)
    ensures
        r.is_result(input@, spec_parse_single_fastq(input@)),
{
    reveal(spec_parse_single_fastq);
    if input.len() == 0 {
        return Parse::Incomplete;
    }
    if input[0] != HEADER_MARK {
        return Parse::Error;
    }
    let after_mark = &input[1..input.len()];
    let (body, id) = match read_line(after_mark) {
        Parse::Done(body, header) => match header_id(header) {
            Some(id) => (body, id),
            None => { return Parse::Error; },
        },
        Parse::Incomplete => { return Parse::Incomplete; },
        Parse::Error => { return Parse::Error; },
    };
    let ghost header = spec_line(input@.skip(1))->used;
    assert(body@ =~= input@.skip(1 + header));
    let (end, seq) = match read_line(body) {
        Parse::Done(end, sequence) => (end, deref(sequence)),
        Parse::Incomplete => { return Parse::Incomplete; },
        Parse::Error => { return Parse::Error; },
    };
    let ghost sequence = spec_line(body@)->used;
    match record_end(end) {
        Parse::Done(rest, qual) => {
            proof {
                let used = spec_record_end(end@)->used;
                assert(body@.skip(sequence).skip(used) =~= body@.skip(
                    sequence + used,
                ));
                assert(input@.skip(1 + header).skip(sequence + used) =~= input@.skip(
                    1 + header + sequence + used,
                ));
            }
            Parse::Done(rest, Record { id, seq, qual })
        },
        Parse::Incomplete => Parse::Incomplete,
        Parse::Error => Parse::Error,
    }
}

/// A prefix stays a prefix when both strings lose the same number of
/// leading bytes.
pub proof fn lemma_skip_prefix(s: Seq<u8>, t: Seq<u8>, k: int)
    requires
        s.is_prefix_of(t),
        0 <= k <= s.len(),
    ensures
        s.skip(k).is_prefix_of(t.skip(k)),
{
}

/// What the grammar of a record's end decides on a string, it decides on
/// every string that begins with it.
pub proof fn lemma_record_end_extends(s: Seq<u8>, t: Seq<u8>)
    requires
        s.is_prefix_of(t),
        !(spec_record_end(s) is Incomplete),
    ensures
        spec_record_end(t) == spec_record_end(s),
{
    if s[0] == SEPARATOR_MARK {
        lemma_skip_prefix(s, t, 1);
        lemma_line_extends(s.skip(1), t.skip(1));
        if spec_line(s.skip(1)) is Done {
            lemma_line_done(s.skip(1));
            let separator = spec_line(s.skip(1))->used;
            lemma_skip_prefix(s, t, 1 + separator);
            lemma_line_extends(s.skip(1 + separator), t.skip(1 + separator));
        }
    } else {
        lemma_line_ending_extends(s, t);
    }
}

/// The end of a record matched in a string is matched alike in each of its
/// prefixes that holds it whole.
pub proof fn lemma_record_end_local(s: Seq<u8>, t: Seq<u8>)
    requires
        s.is_prefix_of(t),
        spec_record_end(t) is Done,
        spec_record_end(t)->used <= s.len(),
    ensures
        spec_record_end(s) == spec_record_end(t),
{
    if t[0] == SEPARATOR_MARK {
        lemma_line_done(t.skip(1));
        let separator = spec_line(t.skip(1))->used;
        lemma_line_done(t.skip(1 + separator));
        lemma_skip_prefix(s, t, 1);
        lemma_line_local(s.skip(1), t.skip(1));
        lemma_skip_prefix(s, t, 1 + separator);
        lemma_line_local(s.skip(1 + separator), t.skip(1 + separator));
    } else {
        lemma_line_ending_local(s, t);
    }
}

/// A record's end that is matched takes at least one byte and ends within
/// the string.
pub proof fn lemma_record_end_done(s: Seq<u8>)
    requires
        spec_record_end(s) is Done,
    ensures
        0 < spec_record_end(s)->used <= s.len(),
{
    if s[0] == SEPARATOR_MARK {
        lemma_line_done(s.skip(1));
        let separator = spec_line(s.skip(1))->used;
        lemma_line_done(s.skip(1 + separator));
    }
}

/// What the grammar decides on a string past the header, it decides on
/// every string that begins with it.
pub proof fn lemma_record_body_extends(s: Seq<u8>, t: Seq<u8>, id: Seq<char>)
    requires
        s.is_prefix_of(t),
        !(spec_record_body(s, id) is Incomplete),
    ensures
        spec_record_body(t, id) == spec_record_body(s, id),
{
    lemma_line_extends(s, t);
    if spec_line(s) is Done {
        lemma_line_done(s);
        let sequence = spec_line(s)->used;
        lemma_skip_prefix(s, t, sequence);
        lemma_record_end_extends(s.skip(sequence), t.skip(sequence));
    }
}

/// What follows the header, once matched in a string, is matched alike in
/// each of its prefixes that holds it whole.
pub proof fn lemma_record_body_local(s: Seq<u8>, t: Seq<u8>, id: Seq<char>)
    requires
        s.is_prefix_of(t),
        spec_record_body(t, id) is Done,
        spec_record_body(t, id)->used <= s.len(),
    ensures
        spec_record_body(s, id) == spec_record_body(t, id),
{
    lemma_line_done(t);
    let sequence = spec_line(t)->used;
    lemma_record_end_done(t.skip(sequence));
    lemma_line_local(s, t);
    lemma_skip_prefix(s, t, sequence);
    lemma_record_end_local(s.skip(sequence), t.skip(sequence));
}

/// On no bytes at all the grammar cannot decide.
pub proof fn lemma_parse_empty()
    ensures
        spec_parse_single_fastq(Seq::empty()) is Incomplete,
{
    reveal(spec_parse_single_fastq);
}

/// A record that is matched takes at least one byte and ends within the
/// string.
pub proof fn lemma_parse_done(s: Seq<u8>)
    requires
        spec_parse_single_fastq(s) is Done,
    ensures
        0 < spec_parse_single_fastq(s)->used <= s.len(),
{
    reveal(spec_parse_single_fastq);
    lemma_line_done(s.skip(1));
    let header = spec_line(s.skip(1))->used;
    let body = s.skip(1 + header);
    lemma_line_done(body);
    lemma_record_end_done(body.skip(spec_line(body)->used));
}

/// Once the grammar has decided on a string, more input does not change
/// its mind: it decides the same on every string that begins with it.
pub proof fn lemma_parse_extends(s: Seq<u8>, t: Seq<u8>)
    requires
        s.is_prefix_of(t),
        !(spec_parse_single_fastq(s) is Incomplete),
    ensures
        spec_parse_single_fastq(t) == spec_parse_single_fastq(s),
{
    reveal(spec_parse_single_fastq);
    if s[0] == HEADER_MARK {
        lemma_skip_prefix(s, t, 1);
        lemma_line_extends(s.skip(1), t.skip(1));
        if spec_line(s.skip(1)) is Done {
            lemma_line_done(s.skip(1));
            let header = spec_line(s.skip(1))->used;
            match spec_header_id(spec_line(s.skip(1))->out) {
                Some(id) => {
                    lemma_skip_prefix(s, t, 1 + header);
                    lemma_record_body_extends(s.skip(1 + header), t.skip(1 + header), id);
                },
                None => {},
            }
        }
    }
}

/// A record matched in a string is matched alike in each of its prefixes
/// that holds the whole record: the grammar reads no byte past the record.
pub proof fn lemma_parse_local(s: Seq<u8>, t: Seq<u8>)
    requires
        s.is_prefix_of(t),
        spec_parse_single_fastq(t) is Done,
        spec_parse_single_fastq(t)->used <= s.len(),
    ensures
        spec_parse_single_fastq(s) == spec_parse_single_fastq(t),
{
    reveal(spec_parse_single_fastq);
    lemma_parse_done(t);
    lemma_line_done(t.skip(1));
    let header = spec_line(t.skip(1))->used;
    let id = spec_header_id(spec_line(t.skip(1))->out)->0;
    let body = t.skip(1 + header);
    lemma_line_done(body);
    lemma_record_end_done(body.skip(spec_line(body)->used));
    lemma_skip_prefix(s, t, 1);
    lemma_line_local(s.skip(1), t.skip(1));
    lemma_skip_prefix(s, t, 1 + header);
    lemma_record_body_local(s.skip(1 + header), body, id);
}

} // verus!
