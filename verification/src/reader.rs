//! The reader: a cursor over a source of bytes that it never touches.
//!
//! The owner of the source shows the reader the chunk that the source has
//! ready, an empty chunk once the source is exhausted, takes from the
//! source as many bytes as the reader's answer says, and goes on until the
//! answer is something other than `Outcome::Pending`.
use vstd::prelude::*;
use crate::fastq::{
    lemma_parse_empty, lemma_parse_local, parse_single_fastq, spec_parse_single_fastq,
};
use crate::lines::{Parse, Parsed, LF};
use crate::scan::{find, has_no, index_of, lemma_index_of};
use crate::record::{Record, RecordView};
use crate::text::{header_id, spec_header_id};

verus! {

/// The byte that begins the header line of a FASTA record.
pub const RECORD_MARK: u8 = 62;

/// The two formats.
#[derive(Debug, Clone, Copy, PartialEq, Eq, Structural)]
pub enum Format {
    Fasta,
    Fastq,
}

/// Where a reader stands.
#[derive(Debug, Clone, Copy, PartialEq, Eq, Structural)]
pub enum Phase {
    /// FASTA, before the first record marker of the input.
    Preamble,
    /// FASTA, at or within a header line.
    Header,
    /// FASTA, within the body of a record, at the start of a line.
    LineStart,
    /// FASTA, within the body of a record, within a line.
    InLine,
    /// FASTQ, at or within a record.
    Group,
    /// The end of the input was reported.
    Finished,
    /// Malformed input was reported.
    Failed,
}

/// What one step of a reader found.
#[derive(Debug, Clone, PartialEq, Eq)]
pub enum Outcome {
    /// Nothing yet: show the reader the next chunk.
    Pending,
    /// One whole record.
    Record(Record),
    /// The input has ended, and no record was left unfinished.
    End,
    /// The input does not match the format.
    Malformed,
}

/// The answer of a reader to one chunk.
#[derive(Debug, Clone, PartialEq, Eq)]
pub struct Step {
    /// The number of bytes to take from the source, counted from the start
    /// of the chunk.
    pub consumed: usize,
    pub outcome: Outcome,
}

/// An [`Outcome`] as a mathematical value.
pub enum OutcomeView {
    Pending,
    Record(RecordView),
    End,
    Malformed,
}

/// A [`Step`] as a mathematical value.
pub struct StepView {
    pub consumed: int,
    pub outcome: OutcomeView,
}

impl View for Outcome {
    type V = OutcomeView;

    open spec fn view(&self) -> OutcomeView {
        match self {
            Outcome::Pending => OutcomeView::Pending,
            Outcome::Record(record) => OutcomeView::Record(record@),
            Outcome::End => OutcomeView::End,
            Outcome::Malformed => OutcomeView::Malformed,
        }
    }
}

impl View for Step {
    type V = StepView;

    open spec fn view(&self) -> StepView {
        StepView { consumed: self.consumed as int, outcome: self.outcome@ }
    }
}

/// The state of a reader as a mathematical value.
pub struct ReaderView {
    pub format: Format,
    pub phase: Phase,
    /// The bytes taken from the source and not yet given out in a record.
    pub line: Seq<u8>,
    /// The record under way.
    pub record: RecordView,
}

impl ReaderView {
    /// The state that a reader of `format` starts in.
    pub open spec fn start(format: Format) -> ReaderView {
        ReaderView {
            format,
            phase: match format {
                Format::Fasta => Phase::Preamble,
                Format::Fastq => Phase::Group,
            },
            line: Seq::empty(),
            record: RecordView::empty(),
        }
    }

    /// This state, moved to `phase`, with nothing carried over.
    pub open spec fn reset(self, phase: Phase) -> ReaderView {
        ReaderView { format: self.format, phase, line: Seq::empty(), record: RecordView::empty() }
    }

    /// The states that a reader can be in.
    pub open spec fn wf(self) -> bool {
        match self.phase {
            Phase::Group => {
                &&& self.format == Format::Fastq
                &&& self.record == RecordView::empty()
                &&& spec_parse_single_fastq(self.line) is Incomplete
            },
            Phase::Preamble => {
                &&& self.format == Format::Fasta
                &&& self.line.len() == 0
                &&& self.record == RecordView::empty()
            },
            Phase::Header => {
                &&& self.format == Format::Fasta
                &&& self.record == RecordView::empty()
                &&& has_no(self.line, LF)
                &&& self.line.len() > 0 ==> self.line[0] == RECORD_MARK
            },
            Phase::LineStart | Phase::InLine => {
                &&& self.format == Format::Fasta
                &&& self.line.len() == 0
                &&& self.record.qual is None
            },
            Phase::Finished | Phase::Failed => {
                &&& self.line.len() == 0
                &&& self.record == RecordView::empty()
            },
        }
    }
}

/// One step of a FASTQ reader that has carried `pre.line` over, on `chunk`.
///
/// On an empty chunk the input has ended: that is the end if nothing was
/// carried over, and malformed input otherwise. Else the grammar decides
/// on the bytes carried over followed by the chunk. A record takes from the
/// source the bytes of the record that were not carried over, and no more.
/// Where the grammar cannot decide yet, the whole chunk is carried over.
#[verifier::opaque]
pub open spec fn fastq_step(pre: ReaderView, chunk: Seq<u8>) -> (ReaderView, StepView) {
    if chunk.len() == 0 {
        if pre.line.len() == 0 {
            (pre.reset(Phase::Finished), StepView { consumed: 0, outcome: OutcomeView::End })
        } else {
            (pre.reset(Phase::Failed), StepView { consumed: 0, outcome: OutcomeView::Malformed })
        }
    } else {
        match spec_parse_single_fastq(pre.line + chunk) {
            Parsed::Done { used, out } => (
                pre.reset(Phase::Group),
                StepView { consumed: used - pre.line.len(), outcome: OutcomeView::Record(out) },
            ),
            Parsed::Incomplete => (
                ReaderView { line: pre.line + chunk, ..pre },
                StepView { consumed: chunk.len() as int, outcome: OutcomeView::Pending },
            ),
            Parsed::Error => (
                pre.reset(Phase::Failed),
                StepView { consumed: 0, outcome: OutcomeView::Malformed },
            ),
        }
    }
}

/// One step of a FASTA reader before the first record marker: it passes
/// over everything up to the marker, and takes the marker.
#[verifier::opaque]
pub open spec fn fasta_preamble(pre: ReaderView, chunk: Seq<u8>) -> (ReaderView, StepView) {
    let mark = index_of(chunk, RECORD_MARK);
    if chunk.len() == 0 {
        (pre.reset(Phase::Finished), StepView { consumed: 0, outcome: OutcomeView::End })
    } else if mark < chunk.len() {
        (
            ReaderView { phase: Phase::Header, line: seq![RECORD_MARK], ..pre },
            StepView { consumed: mark + 1, outcome: OutcomeView::Pending },
        )
    } else {
        (pre, StepView { consumed: chunk.len() as int, outcome: OutcomeView::Pending })
    }
}

/// The step that ends a header line in the midst of the input. `line` is
/// the whole line: the record marker, then the content of the header. Where
/// the content stands for an identifier, the body of the record begins and
/// `consumed` bytes are taken. Where it does not, the input is malformed
/// and nothing is taken.
pub open spec fn fasta_header_end(pre: ReaderView, line: Seq<u8>, consumed: int) -> (
    ReaderView,
    StepView,
) {
    match spec_header_id(line.skip(1)) {
        Some(id) => (
            ReaderView {
                phase: Phase::LineStart,
                line: Seq::empty(),
                record: RecordView { id, seq: Seq::empty(), qual: None },
                ..pre
            },
            StepView { consumed, outcome: OutcomeView::Pending },
        ),
        None => (
            pre.reset(Phase::Failed),
            StepView { consumed: 0, outcome: OutcomeView::Malformed },
        ),
    }
}

/// The step that ends a header line with the input: the record has an
/// empty body.
pub open spec fn fasta_header_last(pre: ReaderView) -> (ReaderView, StepView) {
    match spec_header_id(pre.line.skip(1)) {
        Some(id) => (
            pre.reset(Phase::Finished),
            StepView {
                consumed: 0,
                outcome: OutcomeView::Record(RecordView { id, seq: Seq::empty(), qual: None }),
            },
        ),
        None => (
            pre.reset(Phase::Failed),
            StepView { consumed: 0, outcome: OutcomeView::Malformed },
        ),
    }
}

/// One step of a FASTA reader at or within a header line.
///
/// The line must begin with the record marker. It ends at the first line
/// feed, which is taken with it, or with the input. Until then the chunk is
/// carried over.
#[verifier::opaque]
pub open spec fn fasta_header(pre: ReaderView, chunk: Seq<u8>) -> (ReaderView, StepView) {
    let feed = index_of(chunk, LF);
    if chunk.len() == 0 {
        if pre.line.len() == 0 {
            (pre.reset(Phase::Finished), StepView { consumed: 0, outcome: OutcomeView::End })
        } else {
            fasta_header_last(pre)
        }
    } else if pre.line.len() == 0 && chunk[0] != RECORD_MARK {
        (pre.reset(Phase::Failed), StepView { consumed: 0, outcome: OutcomeView::Malformed })
    } else if feed == chunk.len() {
        (
            ReaderView { line: pre.line + chunk, ..pre },
            StepView { consumed: chunk.len() as int, outcome: OutcomeView::Pending },
        )
    } else {
        fasta_header_end(pre, pre.line + chunk.take(feed), feed + 1)
    }
}

/// One step of a FASTA reader within the body of a record.
///
/// The record ends with the input, or before a record marker at the start
/// of a line, which is left in the source. Else the bytes up to the first
/// line feed of the chunk are added to the sequence, and the line feed is
/// taken with them.
#[verifier::opaque]
pub open spec fn fasta_body(pre: ReaderView, chunk: Seq<u8>) -> (ReaderView, StepView) {
    let feed = index_of(chunk, LF);
    if chunk.len() == 0 {
        (
            pre.reset(Phase::Finished),
            StepView { consumed: 0, outcome: OutcomeView::Record(pre.record) },
        )
    } else if pre.phase == Phase::LineStart && chunk[0] == RECORD_MARK {
        (
            pre.reset(Phase::Header),
            StepView { consumed: 0, outcome: OutcomeView::Record(pre.record) },
        )
    } else {
        (
            ReaderView {
                phase: if feed < chunk.len() {
                    Phase::LineStart
                } else {
                    Phase::InLine
                },
                record: RecordView { seq: pre.record.seq + chunk.take(feed), ..pre.record },
                ..pre
            },
            StepView {
                consumed: if feed < chunk.len() {
                    feed + 1
                } else {
                    feed
                },
                outcome: OutcomeView::Pending,
            },
        )
    }
}

/// One step of a FASTA reader in state `pre` on `chunk`.
pub open spec fn fasta_step(pre: ReaderView, chunk: Seq<u8>) -> (ReaderView, StepView) {
    match pre.phase {
        Phase::Preamble => fasta_preamble(pre, chunk),
        Phase::Header => fasta_header(pre, chunk),
        _ => fasta_body(pre, chunk),
    }
}

/// One step of a reader in state `pre` on `chunk`. A reader that has
/// reported the end of the input or malformed input reports it again,
/// whatever it is shown, and takes nothing.
pub open spec fn spec_next(pre: ReaderView, chunk: Seq<u8>) -> (ReaderView, StepView) {
    match pre.phase {
        Phase::Finished => (pre, StepView { consumed: 0, outcome: OutcomeView::End }),
        Phase::Failed => (pre, StepView { consumed: 0, outcome: OutcomeView::Malformed }),
        Phase::Group => fastq_step(pre, chunk),
        _ => fasta_step(pre, chunk),
    }
}

/// A reader of sequence records.
pub struct Sequences {
    format: Format,
    phase: Phase,
    line: Vec<u8>,
    record: Record,
}

impl View for Sequences {
    type V = ReaderView;

    closed spec fn view(&self) -> ReaderView {
        ReaderView { format: self.format, phase: self.phase, line: self.line@, record: self.record@ }
    }
}

/// The state of a FASTA reader that is made of these parts.
pub open spec fn fasta_state(phase: Phase, record: RecordView, line: Seq<u8>) -> ReaderView {
    ReaderView { format: Format::Fasta, phase, line, record }
}

/// The state of a FASTQ reader that is made of these parts.
pub open spec fn fastq_state(phase: Phase, line: Seq<u8>) -> ReaderView {
    ReaderView { format: Format::Fastq, phase, line, record: RecordView::empty() }
}

impl Sequences {
    #[verifier::type_invariant]
    spec fn inv(&self) -> bool {
        self@.wf()
    }

    /// A reader of FASTA records, at the start of its input.
    pub fn from_fasta() -> (reader: Sequences)
        ensures
            reader@ == ReaderView::start(Format::Fasta),
            reader@.wf(),
    {
        Sequences {
            format: Format::Fasta,
            phase: Phase::Preamble,
            line: Vec::new(),
            record: Record::new(),
        }
    }

    /// A reader of FASTQ records, at the start of its input.
    pub fn from_fastq() -> (reader: Sequences)
        ensures
            reader@ == ReaderView::start(Format::Fastq),
            reader@.wf(),
    {
        proof {
            lemma_parse_empty();
        }
        Sequences {
            format: Format::Fastq,
            phase: Phase::Group,
            line: Vec::new(),
            record: Record::new(),
        }
    }

    /// One step: the reader is shown the chunk that the source has ready,
    /// an empty one once the source is exhausted.
    pub fn next(&mut self, chunk: &[u8]) -> (step: Step)
        ensures
            (final(self)@, step@) == spec_next(old(self)@, chunk@),
            step.consumed <= chunk@.len(),
            old(self)@.wf(),
            final(self)@.wf(),
    {
        proof {
            use_type_invariant(&*self);
            lemma_parse_empty();
        }
        let mut phase = self.phase;
        match phase {
            Phase::Finished => { return Step { consumed: 0, outcome: Outcome::End }; },
            Phase::Failed => { return Step { consumed: 0, outcome: Outcome::Malformed }; },
            _ => {},
        }
        let mut line: Vec<u8> = Vec::new();
        let mut record = Record::new();
        std::mem::swap(&mut line, &mut self.line);
        std::mem::swap(&mut record, &mut self.record);
        let step = match phase {
            Phase::Group => read_fastq(&mut phase, &mut line, chunk),
            _ => read_fasta2(&mut phase, &mut record, &mut line, chunk),
        };
        *self = Sequences { format: self.format, phase, line, record };
        step
    }
}

/// Gives out the record under way and leaves an empty one in its place.
fn take_record(record: &mut Record) -> (taken: Record)
    ensures
        taken@ == old(record)@,
        final(record)@ == RecordView::empty(),
{
    let mut taken = Record::new();
    std::mem::swap(&mut taken, record);
    taken
}

/// Ends the header line carried over: reads the identifier out of it.
fn end_header(phase: &mut Phase, record: &mut Record, line: &mut Vec<u8>, consumed: usize) -> (step:
    Step)
    requires
        *old(phase) == Phase::Header,
        old(line)@.len() > 0,
        old(record)@ == RecordView::empty(),
    ensures
        (fasta_state(*final(phase), final(record)@, final(line)@), step@) == fasta_header_end(
            fasta_state(*old(phase), old(record)@, old(line)@),
            old(line)@,
            consumed as int,
        ),
{
    let id = header_id(&line.as_slice()[1..line.len()]);
    line.clear();
    match id {
        Some(id) => {
            record.id = id;
            *phase = Phase::LineStart;
            Step { consumed, outcome: Outcome::Pending }
        },
        None => {
            *phase = Phase::Failed;
            Step { consumed: 0, outcome: Outcome::Malformed }
        },
    }
}

/// One step of a FASTA reader that is made of these parts.
fn read_fasta2(phase: &mut Phase, record: &mut Record, line: &mut Vec<u8>, chunk: &[u8]) -> (step:
    Step)
    requires
        fasta_state(*old(phase), old(record)@, old(line)@).wf(),
        *old(phase) != Phase::Finished,
        *old(phase) != Phase::Failed,
    ensures
        fasta_state(*final(phase), final(record)@, final(line)@).wf(),
        (fasta_state(*final(phase), final(record)@, final(line)@), step@) == fasta_step(
            fasta_state(*old(phase), old(record)@, old(line)@),
            chunk@,
        ),
        step.consumed <= chunk@.len(),
{
    reveal(fasta_preamble);
    reveal(fasta_header);
    reveal(fasta_body);
    match *phase {
        Phase::Preamble => {
            if chunk.len() == 0 {
                *phase = Phase::Finished;
                assert(line@ =~= Seq::<u8>::empty());
                return Step { consumed: 0, outcome: Outcome::End };
            }
            let mark: usize = find(chunk, RECORD_MARK);
            proof {
                lemma_index_of(chunk@, RECORD_MARK);
            }
            if mark < chunk.len() {
                line.push(RECORD_MARK);
                *phase = Phase::Header;
                assert(line@ =~= seq![RECORD_MARK]);
                Step { consumed: mark + 1, outcome: Outcome::Pending }
            } else {
                Step { consumed: chunk.len(), outcome: Outcome::Pending }
            }
        },
        Phase::Header => {
            if chunk.len() == 0 {
                if line.len() == 0 {
                    *phase = Phase::Finished;
                    assert(line@ =~= Seq::<u8>::empty());
                    return Step { consumed: 0, outcome: Outcome::End };
                }
                let step = end_header(phase, record, line, 0);
                return match step.outcome {
                    Outcome::Pending => {
                        let found = take_record(record);
                        *phase = Phase::Finished;
                        Step { consumed: 0, outcome: Outcome::Record(found) }
                    },
                    _ => step,
                };
            }
            if line.len() == 0 && chunk[0] != RECORD_MARK {
                *phase = Phase::Failed;
                assert(line@ =~= Seq::<u8>::empty());
                return Step { consumed: 0, outcome: Outcome::Malformed };
            }
            let ghost carried = line@;
            let feed: usize = find(chunk, LF);
            proof {
                lemma_index_of(chunk@, LF);
            }
            line.extend_from_slice(&chunk[0..feed]);
            assert(line@ =~= carried + chunk@.take(feed as int));
            if feed == chunk.len() {
                assert(chunk@.take(feed as int) =~= chunk@);
                Step { consumed: feed, outcome: Outcome::Pending }
            } else {
                end_header(phase, record, line, feed + 1)
            }
        },
        _ => {
            if chunk.len() == 0 {
                let found = take_record(record);
                *phase = Phase::Finished;
                assert(line@ =~= Seq::<u8>::empty());
                return Step { consumed: 0, outcome: Outcome::Record(found) };
            }
            if chunk[0] == RECORD_MARK {
                if let Phase::LineStart = *phase {
                    let found = take_record(record);
                    *phase = Phase::Header;
                    assert(line@ =~= Seq::<u8>::empty());
                    return Step { consumed: 0, outcome: Outcome::Record(found) };
                }
            }
            let ghost sequence = record@.seq;
            let feed: usize = find(chunk, LF);
            proof {
                lemma_index_of(chunk@, LF);
            }
            record.seq.extend_from_slice(&chunk[0..feed]);
            assert(record@.seq =~= sequence + chunk@.take(feed as int));
            if feed < chunk.len() {
                *phase = Phase::LineStart;
                Step { consumed: feed + 1, outcome: Outcome::Pending }
            } else {
                *phase = Phase::InLine;
                Step { consumed: feed, outcome: Outcome::Pending }
            }
        },
    }
}

/// One step of a FASTQ reader that is made of these parts.
fn read_fastq(phase: &mut Phase, line: &mut Vec<u8>, chunk: &[u8]) -> (step: Step)
    requires
        fastq_state(*old(phase), old(line)@).wf(),
        *old(phase) == Phase::Group,
    ensures
        fastq_state(*final(phase), final(line)@).wf(),
        (fastq_state(*final(phase), final(line)@), step@) == fastq_step(
            fastq_state(*old(phase), old(line)@),
            chunk@,
        ),
        step.consumed <= chunk@.len(),
{
    reveal(fastq_step);
    if chunk.len() == 0 {
        if line.len() == 0 {
            *phase = Phase::Finished;
            assert(line@ =~= Seq::<u8>::empty());
            return Step { consumed: 0, outcome: Outcome::End };
        }
        line.clear();
        *phase = Phase::Failed;
        return Step { consumed: 0, outcome: Outcome::Malformed };
    }
    let ghost carried = line@;
    let ghost whole = carried + chunk@;
    let ghost decision = spec_parse_single_fastq(whole);
    proof {
        lemma_parse_empty();
    }
    if line.len() == 0 {
        assert(line@ =~= Seq::<u8>::empty());
        match parse_single_fastq(chunk) {
            Parse::Done(rest, record) => {
                let consumed: usize = chunk.len() - rest.len();
                Step { consumed, outcome: Outcome::Record(record) }
            },
            Parse::Incomplete => {
                line.extend_from_slice(chunk);
                assert(line@ =~= whole);
                Step { consumed: chunk.len(), outcome: Outcome::Pending }
            },
            Parse::Error => {
                *phase = Phase::Failed;
                Step { consumed: 0, outcome: Outcome::Malformed }
            },
        }
    } else {
        line.extend_from_slice(chunk);
        assert(line@ =~= whole);
        match parse_single_fastq(line.as_slice()) {
            Parse::Done(rest, record) => {
                proof {
                    if decision->used <= carried.len() {
                        lemma_parse_local(carried, whole);
                    }
                }
                let consumed: usize = chunk.len() - rest.len();
                line.clear();
                Step { consumed, outcome: Outcome::Record(record) }
            },
            Parse::Incomplete => Step { consumed: chunk.len(), outcome: Outcome::Pending },
            Parse::Error => {
                line.clear();
                *phase = Phase::Failed;
                Step { consumed: 0, outcome: Outcome::Malformed }
            },
        }
    }
}

} // verus!
