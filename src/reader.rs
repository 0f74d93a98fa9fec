//! The reader's decisions: what to do with the outcome of one read from the
//! byte source.
use vstd::prelude::*;

verus! {

/// How many bytes one read from the source may return at most.
pub const READ_BUFFER_SIZE: usize = 1024;

/// The outcome of one read from the source into a buffer.
#[derive(Clone, Copy, Debug, PartialEq, Eq, Structural)]
pub enum ReadOutcome {
    /// The read put this many bytes at the start of the buffer.
    Bytes(usize),
    /// No data came within the read timeout.
    TimedOut,
    /// The read failed for another reason.
    Failed,
}

/// What the reader does next.
#[derive(Debug)]
pub enum ReaderStep {
    /// Publish this chunk to the fan-out loop, then read again.
    Publish(Vec<u8>),
    /// Nothing to publish: read again.
    Retry,
    /// The source has failed: the reader ends.
    Stop,
}

/// The step owed for `outcome` on a buffer holding `buf`: a read that
/// brought bytes publishes exactly those bytes, one that brought none or
/// timed out publishes nothing and goes on, and only a failed read stops.
pub open spec fn step_for(buf: Seq<u8>, outcome: ReadOutcome, step: ReaderStep) -> bool {
    match outcome {
        ReadOutcome::Bytes(n) => if n > 0 {
            step matches ReaderStep::Publish(c) && c@ == buf.take(n as int)
        } else {
            step is Retry
        },
        ReadOutcome::TimedOut => step is Retry,
        ReadOutcome::Failed => step is Stop,
    }
}

/// Decides what the reader does after a read into `buf` ended with
/// `outcome`. A timeout is no error: it yields no chunk and the reader goes
/// on.
pub fn on_read(buf: &[u8], outcome: ReadOutcome) -> (step: ReaderStep)
    requires
        outcome matches ReadOutcome::Bytes(n) ==> n <= buf@.len(),
    ensures
        step_for(buf@, outcome, step),
{
    match outcome {
        ReadOutcome::Bytes(n) => {
            if n == 0 {
                return ReaderStep::Retry;
            }
            let mut chunk: Vec<u8> = Vec::with_capacity(n);
            let mut i: usize = 0;
            while i < n
                invariant
                    n <= buf@.len(),
                    i <= n,
                    chunk@ == buf@.take(i as int),
                decreases n - i,
            {
                chunk.push(buf[i]);
                i = i + 1;
                assert(chunk@ =~= buf@.take(i as int));
            }
            ReaderStep::Publish(chunk)
        },
        ReadOutcome::TimedOut => ReaderStep::Retry,
        ReadOutcome::Failed => ReaderStep::Stop,
    }
}

/// Whether the reader goes on after publishing a chunk: only if the
/// fan-out loop took it, since a refused chunk means that loop has ended.
pub fn on_publish(sent: bool) -> (go_on: bool)
    ensures
        go_on == sent,
{
    sent
}

/// The chunks that a run of reads owes, in read order: the bytes of each
/// read that brought some, up to the first failed read.
pub open spec fn run_chunks(bufs: Seq<Seq<u8>>, outcomes: Seq<ReadOutcome>) -> Seq<Seq<u8>>
    decreases outcomes.len(),
{
    if outcomes.len() == 0 || bufs.len() == 0 {
        Seq::empty()
    } else {
        let rest = run_chunks(bufs.drop_first(), outcomes.drop_first());
        match outcomes[0] {
            ReadOutcome::Bytes(n) => if n > 0 {
                seq![bufs[0].take(n as int)] + rest
            } else {
                rest
            },
            ReadOutcome::TimedOut => rest,
            ReadOutcome::Failed => Seq::empty(),
        }
    }
}

/// The chunks a run of steps publishes, in order, up to the first stop.
pub open spec fn published(steps: Seq<ReaderStep>) -> Seq<Seq<u8>>
    decreases steps.len(),
{
    if steps.len() == 0 {
        Seq::empty()
    } else {
        let rest = published(steps.drop_first());
        match steps[0] {
            ReaderStep::Publish(c) => seq![c@] + rest,
            ReaderStep::Retry => rest,
            ReaderStep::Stop => Seq::empty(),
        }
    }
}

/// Over a run of reads, the steps decided one read at a time publish
/// exactly the owed chunks, in read order, each once; the reader stops at a
/// read exactly when that read failed, so a timeout never ends it.
pub proof fn lemma_reader_run(
    bufs: Seq<Seq<u8>>,
    outcomes: Seq<ReadOutcome>,
    steps: Seq<ReaderStep>,
)
    requires
        bufs.len() == outcomes.len(),
        steps.len() == outcomes.len(),
        forall|i: int| 0 <= i < steps.len() ==> #[trigger] step_for(bufs[i], outcomes[i], steps[i]),
    ensures
        published(steps) == run_chunks(bufs, outcomes),
        forall|i: int| 0 <= i < steps.len() ==> (steps[i] is Stop <==> outcomes[i] is Failed),
    decreases steps.len(),
{
    if steps.len() > 0 {
        assert forall|i: int| 0 <= i < steps.len() - 1 implies #[trigger] step_for(
            bufs.drop_first()[i],
            outcomes.drop_first()[i],
            steps.drop_first()[i],
        ) by {
            assert(step_for(bufs[i + 1], outcomes[i + 1], steps[i + 1]));
        }
        lemma_reader_run(bufs.drop_first(), outcomes.drop_first(), steps.drop_first());
        assert(step_for(bufs[0], outcomes[0], steps[0]));
    }
    assert forall|i: int| 0 <= i < steps.len() implies (steps[i] is Stop <==> outcomes[i] is Failed) by {
        assert(step_for(bufs[i], outcomes[i], steps[i]));
    }
}

} // verus!
