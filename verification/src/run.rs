//! A reader at work: the steps of a whole reading, one after the other.
use vstd::prelude::*;
use crate::reader::{spec_next, Format, Outcome, OutcomeView, ReaderView, Sequences};
use crate::record::{Record, RecordView};
use crate::steps::{expected, lemma_next_keeps_meaning, lemma_start_expects_all, steps_left};
use crate::stream::{records, Ending, Trace};

verus! {

/// The number of bytes that a reader is shown when its source still holds
/// `rest` and has `ready` of them ready: at least one, unless the source
/// is exhausted, and no more than there are.
pub open spec fn shown(rest: Seq<u8>, ready: int) -> int {
    if rest.len() == 0 {
        0
    } else if ready < 1 {
        1
    } else if ready > rest.len() {
        rest.len() as int
    } else {
        ready
    }
}

/// What the owner of a source collects from a reader in state `reader`
/// when the source still holds `rest` and `ready` lists, step by step, how
/// many bytes it has ready. After each step the owner takes from the source
/// what the step says, and it stops at the first ending. Where the steps
/// listed do not reach an ending, there is no result.
pub open spec fn run(reader: ReaderView, rest: Seq<u8>, ready: Seq<int>) -> Option<Trace>
    decreases ready.len(),
{
    if ready.len() == 0 {
        None
    } else {
        let (post, step) = spec_next(reader, rest.take(shown(rest, ready[0])));
        let left = rest.skip(step.consumed);
        match step.outcome {
            OutcomeView::Pending => run(post, left, ready.skip(1)),
            OutcomeView::Record(record) => match run(post, left, ready.skip(1)) {
                Some(trace) => Some(trace.after(record)),
                None => None,
            },
            OutcomeView::End => Some(Trace::ends(Ending::End)),
            OutcomeView::Malformed => Some(Trace::ends(Ending::Malformed)),
        }
    }
}

/// A run that lists more steps than `steps_left` allows reaches an ending,
/// and what it collects is what the reader had yet to give out.
pub proof fn lemma_run(reader: ReaderView, rest: Seq<u8>, ready: Seq<int>)
    requires
        reader.wf(),
    ensures
        run(reader, rest, ready) is Some ==> run(reader, rest, ready) == Some(
            expected(reader, rest),
        ),
        ready.len() > steps_left(reader, rest) ==> run(reader, rest, ready) is Some,
    decreases ready.len(),
{
    if ready.len() != 0 {
        let k = shown(rest, ready[0]);
        lemma_next_keeps_meaning(reader, rest, k);
        let (post, step) = spec_next(reader, rest.take(k));
        let left = rest.skip(step.consumed);
        if step.outcome is Pending || step.outcome is Record {
            lemma_run(post, left, ready.skip(1));
        }
    }
}

/// The size of the chunks decides nothing. However many bytes the source
/// has ready at each step, a reader that starts at the start of `data`
/// gives out the records of `data`, and the ending of `data`, and nothing
/// else. It does so within `2 * data.len() + 2` steps.
pub proof fn lemma_chunks_decide_nothing(format: Format, data: Seq<u8>, ready: Seq<int>)
    requires
        ready.len() > 2 * data.len() + 1,
    ensures
        run(ReaderView::start(format), data, ready) == Some(records(format, data)),
{
    lemma_start_expects_all(format, data);
    lemma_run(ReaderView::start(format), data, ready);
}

/// Reading is repeatable. Two runs over the same input, each with chunks
/// of its own sizes, collect the same records and the same ending.
pub proof fn lemma_runs_agree(format: Format, data: Seq<u8>, first: Seq<int>, second: Seq<int>)
    requires
        first.len() > 2 * data.len() + 1,
        second.len() > 2 * data.len() + 1,
    ensures
        run(ReaderView::start(format), data, first) is Some,
        run(ReaderView::start(format), data, first) == run(
            ReaderView::start(format),
            data,
            second,
        ),
{
    lemma_chunks_decide_nothing(format, data, first);
    lemma_chunks_decide_nothing(format, data, second);
}

/// The records of a vector, as mathematical values.
pub open spec fn views(records: Seq<Record>) -> Seq<RecordView> {
    records.map_values(|record: Record| record@)
}

/// Reads all the records of an input that is held in memory. The reader is
/// shown `ready` bytes at a time, and at least one: the number changes how
/// much the reader carries over, and nothing of the result.
pub fn read_all(format: Format, data: &[u8], ready: usize) -> (r: (Vec<Record>, Ending))
    ensures
        (Trace { records: views(r.0@), ending: r.1 }) == records(format, data@),
{
    let mut reader = match format {
        Format::Fasta => Sequences::from_fasta(),
        Format::Fastq => Sequences::from_fastq(),
    };
    let mut found: Vec<Record> = Vec::new();
    let mut at: usize = 0;
    proof {
        lemma_start_expects_all(format, data@);
        assert(data@.skip(0) =~= data@);
    }
    loop
        invariant
            reader@.wf(),
            at <= data.len(),
            records(format, data@) == expected(reader@, data@.skip(at as int)).after_all(
                views(found@),
            ),
        decreases steps_left(reader@, data@.skip(at as int)),
    {
        let left: usize = data.len() - at;
        let shown: usize = if left <= ready {
            left
        } else if ready == 0 {
            1
        } else {
            ready
        };
        let ghost pre = reader@;
        let ghost rest = data@.skip(at as int);
        let ghost before = views(found@);
        proof {
            lemma_next_keeps_meaning(pre, rest, shown as int);
            assert(data@.subrange(at as int, at + shown) =~= rest.take(shown as int));
        }
        let step = reader.next(&data[at..at + shown]);
        at = at + step.consumed;
        assert(data@.skip(at as int) =~= rest.skip(step.consumed as int));
        match step.outcome {
            Outcome::Pending => {},
            Outcome::Record(record) => {
                let ghost rest_of = expected(reader@, data@.skip(at as int));
                found.push(record);
                assert(views(found@) + rest_of.records =~= before + rest_of.after(
                    record@,
                ).records);
            },
            Outcome::End => { return (found, Ending::End); },
            Outcome::Malformed => { return (found, Ending::Malformed); },
        }
    }
}

} // verus!
