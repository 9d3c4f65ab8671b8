//! Why a reader finds what its input holds.
//!
//! `expected` says what a reader has yet to give out, from the state it is
//! in and from what its source still holds. `lemma_next_keeps_meaning` says
//! that each step, whatever part of the source it is shown, gives out the
//! next of those records or leaves them all to come.
use vstd::prelude::*;
use crate::fastq::{
    lemma_parse_done, lemma_parse_empty, lemma_parse_extends, lemma_parse_local,
    spec_parse_single_fastq,
};
use crate::lines::{Parsed, LF};
use crate::reader::{
    fasta_body, fasta_header, fasta_preamble, fastq_step, spec_next, Format, OutcomeView, Phase,
    ReaderView, StepView, RECORD_MARK,
};
use crate::record::RecordView;
use crate::scan::{has_no, index_of, lemma_index_of, lemma_index_of_is, lemma_index_of_skip};
use crate::stream::{
    body, body_len, fasta_from, fasta_records, fastq_records, lemma_body_len, lemma_body_line,
    lemma_body_within_line, lemma_fasta_from_header, records, Ending, Trace,
};
use crate::text::spec_header_id;

verus! {

/// What a reader in state `reader` has yet to give out when `rest` is what
/// its source still holds.
#[verifier::opaque]
pub open spec fn expected(reader: ReaderView, rest: Seq<u8>) -> Trace {
    match reader.phase {
        Phase::Finished => Trace::ends(Ending::End),
        Phase::Failed => Trace::ends(Ending::Malformed),
        Phase::Group => fastq_records(reader.line + rest),
        Phase::Preamble => fasta_records(rest),
        Phase::Header => fasta_from(reader.line + rest),
        Phase::LineStart | Phase::InLine => {
            let line_start = reader.phase == Phase::LineStart;
            fasta_from(rest.skip(body_len(rest, line_start))).after(
                RecordView {
                    seq: reader.record.seq + body(rest, line_start),
                    ..reader.record
                },
            )
        },
    }
}

/// A bound on the number of steps that a reader in state `reader` takes
/// before it reports an ending, when `rest` is what its source still holds.
pub open spec fn steps_left(reader: ReaderView, rest: Seq<u8>) -> int {
    2 * rest.len() + match reader.phase {
        Phase::Finished | Phase::Failed => 0int,
        Phase::Preamble | Phase::Header | Phase::Group => 1int,
        Phase::LineStart | Phase::InLine => 2int,
    }
}

/// What a step on the first `k` bytes of `rest` must be, for the reader to
/// give out exactly the records that were to come.
pub open spec fn keeps_meaning(pre: ReaderView, rest: Seq<u8>, k: int) -> bool {
    let (post, step) = spec_next(pre, rest.take(k));
    let left = rest.skip(step.consumed);
    &&& post.wf()
    &&& 0 <= step.consumed <= k
    &&& step.outcome is Pending || step.outcome is Record ==> steps_left(post, left) < steps_left(
        pre,
        rest,
    )
    &&& match step.outcome {
        OutcomeView::Pending => {
            &&& step.consumed > 0
            &&& expected(post, left) == expected(pre, rest)
        },
        OutcomeView::Record(record) => expected(pre, rest) == expected(post, left).after(record),
        OutcomeView::End => {
            &&& expected(pre, rest) == Trace::ends(Ending::End)
            &&& post.phase == Phase::Finished
        },
        OutcomeView::Malformed => {
            &&& expected(pre, rest) == Trace::ends(Ending::Malformed)
            &&& post.phase == Phase::Failed
        },
    }
}

/// The law of one step, for a FASTQ reader.
proof fn lemma_fastq_keeps_meaning(pre: ReaderView, rest: Seq<u8>, k: int)
    requires
        pre.wf(),
        pre.phase == Phase::Group,
        0 <= k <= rest.len(),
        k == 0 ==> rest.len() == 0,
    ensures
        keeps_meaning(pre, rest, k),
{
    reveal(expected);
    reveal(fastq_step);
    let chunk = rest.take(k);
    let whole = pre.line + chunk;
    let total = pre.line + rest;
    let (post, step) = fastq_step(pre, chunk);
    let left = rest.skip(step.consumed);
    lemma_parse_empty();
    assert(whole.is_prefix_of(total));
    if k != 0 {
        match spec_parse_single_fastq(whole) {
            Parsed::Done { used, out } => {
                lemma_parse_done(whole);
                if used <= pre.line.len() {
                    lemma_parse_local(pre.line, whole);
                }
                lemma_parse_extends(whole, total);
                assert(post.line + left =~= total.skip(used));
            },
            Parsed::Incomplete => {
                assert(post.line + left =~= total);
            },
            Parsed::Error => {
                lemma_parse_extends(whole, total);
            },
        }
    }
}

/// The law of one step, before the first record marker.
proof fn lemma_preamble_keeps_meaning(pre: ReaderView, rest: Seq<u8>, k: int)
    requires
        pre.wf(),
        pre.phase == Phase::Preamble,
        0 <= k <= rest.len(),
        k == 0 ==> rest.len() == 0,
    ensures
        keeps_meaning(pre, rest, k),
{
    reveal(expected);
    reveal(fasta_preamble);
    let chunk = rest.take(k);
    let (post, step) = fasta_preamble(pre, chunk);
    let left = rest.skip(step.consumed);
    let mark = index_of(chunk, RECORD_MARK);
    lemma_index_of(chunk, RECORD_MARK);
    if k != 0 {
        assert(chunk.take(mark) =~= rest.take(mark));
        if mark < k {
            lemma_index_of_is(rest, RECORD_MARK, mark);
            assert(post.line + left =~= rest.skip(mark));
        } else {
            lemma_index_of_skip(rest, RECORD_MARK, k);
            lemma_index_of(left, RECORD_MARK);
            assert(left.skip(index_of(left, RECORD_MARK)) =~= rest.skip(
                index_of(rest, RECORD_MARK),
            ));
        }
    }
}

/// The law of one step, where the input ends at or within a header line.
proof fn lemma_header_end_keeps_meaning(pre: ReaderView, rest: Seq<u8>)
    requires
        pre.wf(),
        pre.phase == Phase::Header,
        rest.len() == 0,
    ensures
        keeps_meaning(pre, rest, 0),
{
    reveal(expected);
    reveal(fasta_header);
    let carried = pre.line.len() as int;
    if carried != 0 {
        lemma_fasta_from_header(pre.line, carried);
    }
}

/// The law of one step, within a header line that begins with its marker.
proof fn lemma_header_line_keeps_meaning(pre: ReaderView, rest: Seq<u8>, k: int)
    requires
        pre.wf(),
        pre.phase == Phase::Header,
        0 < k <= rest.len(),
        pre.line.len() > 0 || rest[0] == RECORD_MARK,
    ensures
        keeps_meaning(pre, rest, k),
{
    reveal(expected);
    reveal(fasta_header);
    let chunk = rest.take(k);
    let total = pre.line + rest;
    let (post, step) = fasta_header(pre, chunk);
    let left = rest.skip(step.consumed);
    let feed = index_of(chunk, LF);
    let carried = pre.line.len() as int;
    lemma_index_of(chunk, LF);
    assert(has_no(total.take(carried + feed), LF)) by {
        assert forall|i: int| 0 <= i < carried + feed implies #[trigger] total.take(
            carried + feed,
        )[i] != LF by {
            if i >= carried {
                assert(total.take(carried + feed)[i] == chunk.take(feed)[i - carried]);
            }
        }
    }
    if feed == k {
        assert(post.line =~= total.take(carried + feed));
        assert(post.line + left =~= total);
    } else {
        lemma_fasta_from_header(total, carried + feed);
        assert(total.subrange(1, carried + feed) =~= (pre.line + chunk.take(feed)).skip(1));
        assert(total.skip(carried + feed + 1) =~= rest.skip(feed + 1));
    }
}

/// The law of one step, at or within a header line.
proof fn lemma_header_keeps_meaning(pre: ReaderView, rest: Seq<u8>, k: int)
    requires
        pre.wf(),
        pre.phase == Phase::Header,
        0 <= k <= rest.len(),
        k == 0 ==> rest.len() == 0,
    ensures
        keeps_meaning(pre, rest, k),
{
    reveal(expected);
    reveal(fasta_header);
    if k == 0 {
        lemma_header_end_keeps_meaning(pre, rest);
    } else if pre.line.len() > 0 || rest[0] == RECORD_MARK {
        lemma_header_line_keeps_meaning(pre, rest, k);
    }
}

/// The law of one step, within the body of a FASTA record.
proof fn lemma_body_keeps_meaning(pre: ReaderView, rest: Seq<u8>, k: int)
    requires
        pre.wf(),
        pre.phase == Phase::LineStart || pre.phase == Phase::InLine,
        0 <= k <= rest.len(),
        k == 0 ==> rest.len() == 0,
    ensures
        keeps_meaning(pre, rest, k),
{
    reveal(expected);
    reveal(fasta_body);
    let chunk = rest.take(k);
    let (post, step) = fasta_body(pre, chunk);
    let left = rest.skip(step.consumed);
    let feed = index_of(chunk, LF);
    let line_start = pre.phase == Phase::LineStart;
    let sequence = pre.record.seq;
    lemma_index_of(chunk, LF);
    if k != 0 && !(line_start && chunk[0] == RECORD_MARK) {
        assert(chunk.take(feed) =~= rest.take(feed));
        if feed < k {
            lemma_body_line(rest, line_start, feed);
            lemma_body_len(left, true);
            assert(left.skip(body_len(left, true)) =~= rest.skip(body_len(rest, line_start)));
            assert(post.record.seq + body(left, true) =~= sequence + body(rest, line_start));
        } else {
            lemma_body_within_line(rest, line_start, k);
            lemma_body_len(left, false);
            assert(left.skip(body_len(left, false)) =~= rest.skip(body_len(rest, line_start)));
            assert(post.record.seq + body(left, false) =~= sequence + body(rest, line_start));
        }
    }
}

/// The law of one step. Let a reader stand where its source still holds
/// `rest`, and let it be shown the first `k` bytes of that, as few or as
/// many as the source has ready, none only where the source is exhausted.
/// Then the step takes no more than it was shown. A pending step takes at
/// least one byte and leaves to come exactly the records that were to come.
/// A step that gives out a record gives out the first of them, and leaves
/// the others, with the bytes they are made of, to come. A step that
/// reports the end or malformed input does so where no record is left.
/// Each step that reports no ending brings the ending closer.
pub proof fn lemma_next_keeps_meaning(pre: ReaderView, rest: Seq<u8>, k: int)
    requires
        pre.wf(),
        0 <= k <= rest.len(),
        k == 0 ==> rest.len() == 0,
    ensures
        keeps_meaning(pre, rest, k),
{
    reveal(expected);
    match pre.phase {
        Phase::Finished | Phase::Failed => {},
        Phase::Group => lemma_fastq_keeps_meaning(pre, rest, k),
        Phase::Preamble => lemma_preamble_keeps_meaning(pre, rest, k),
        Phase::Header => lemma_header_keeps_meaning(pre, rest, k),
        Phase::LineStart | Phase::InLine => lemma_body_keeps_meaning(pre, rest, k),
    }
}

/// A reader at the start of its input has yet to give out the records of
/// the whole input.
pub proof fn lemma_start_expects_all(format: Format, data: Seq<u8>)
    ensures
        ReaderView::start(format).wf(),
        expected(ReaderView::start(format), data) == records(format, data),
{
    reveal(expected);
    lemma_parse_empty();
}

/// Once a reader has reported the end of the input, or malformed input, it
/// reports the same on every later step, whatever it is shown, and takes
/// nothing.
pub proof fn lemma_ending_is_final(pre: ReaderView, chunk: Seq<u8>, later: Seq<u8>)
    requires
        pre.wf(),
        spec_next(pre, chunk).1.outcome is End || spec_next(pre, chunk).1.outcome is Malformed,
    ensures
        spec_next(spec_next(pre, chunk).0, later) == (
            spec_next(pre, chunk).0,
            StepView { consumed: 0, outcome: spec_next(pre, chunk).1.outcome },
        ),
{
    reveal(fastq_step);
    reveal(fasta_preamble);
    reveal(fasta_header);
    reveal(fasta_body);
}

} // verus!
