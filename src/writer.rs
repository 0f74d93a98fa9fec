//! The life of one client's writer: it drains the client's channel onto the
//! client's socket until a write fails or the channel closes.
use vstd::prelude::*;

verus! {

/// Where a client's writer stands.
#[derive(Clone, Copy, Debug, PartialEq, Eq, Structural)]
pub enum WriterState {
    /// The connection is accepted; nothing has been written yet.
    Connected,
    /// At least one chunk has been written whole.
    Streaming,
    /// The writer has ended; it never resumes.
    Closed,
}

/// What happened to the writer since its last step.
#[derive(Clone, Copy, Debug, PartialEq, Eq, Structural)]
pub enum WriterEvent {
    /// A chunk was written to the socket whole.
    Written,
    /// Writing a chunk failed, perhaps after part of it went out.
    WriteFailed,
    /// The channel has closed: no chunk will come any more.
    ChannelClosed,
}

/// The state after `event` in state `state`.
pub open spec fn next_state(state: WriterState, event: WriterEvent) -> WriterState {
    match (state, event) {
        (WriterState::Closed, _) => WriterState::Closed,
        (_, WriterEvent::Written) => WriterState::Streaming,
        (_, _) => WriterState::Closed,
    }
}

/// The writer's next state: a whole write keeps it streaming, a failed
/// write or a closed channel ends it, and an ended writer stays ended.
pub fn writer_next(state: WriterState, event: WriterEvent) -> (r: WriterState)
    ensures
        r == next_state(state, event),
{
    match (state, event) {
        (WriterState::Closed, _) => WriterState::Closed,
        (_, WriterEvent::Written) => WriterState::Streaming,
        (_, _) => WriterState::Closed,
    }
}

/// The state after `events`, one after another, starting from `state`.
pub open spec fn run_state(state: WriterState, events: Seq<WriterEvent>) -> WriterState
    decreases events.len(),
{
    if events.len() == 0 {
        state
    } else {
        run_state(next_state(state, events[0]), events.drop_first())
    }
}

/// A writer is streaming after a run of events exactly when every event
/// was a whole write and there was at least one; any failed write or closed
/// channel ends it for good, whatever comes after.
pub proof fn lemma_writer_run(state: WriterState, events: Seq<WriterEvent>)
    requires
        state != WriterState::Closed,
    ensures
        (run_state(state, events) == WriterState::Closed) <==> (exists|i: int|
            0 <= i < events.len() && !(#[trigger] events[i] is Written)),
        run_state(WriterState::Closed, events) == WriterState::Closed,
    decreases events.len(),
{
    lemma_closed_run(events);
    if events.len() > 0 {
        let rest = events.drop_first();
        if events[0] is Written {
            lemma_writer_run(WriterState::Streaming, rest);
            if exists|i: int| 0 <= i < rest.len() && !(#[trigger] rest[i] is Written) {
                let i = choose|i: int| 0 <= i < rest.len() && !(#[trigger] rest[i] is Written);
                assert(!(events[i + 1] is Written));
            }
            if exists|i: int| 0 <= i < events.len() && !(#[trigger] events[i] is Written) {
                let i = choose|i: int| 0 <= i < events.len() && !(#[trigger] events[i] is Written);
                assert(!(rest[i - 1] is Written));
            }
        } else {
            lemma_closed_run(rest);
            assert(!(events[0] is Written));
        }
    }
}

/// An ended writer stays ended.
proof fn lemma_closed_run(events: Seq<WriterEvent>)
    ensures
        run_state(WriterState::Closed, events) == WriterState::Closed,
    decreases events.len(),
{
    if events.len() > 0 {
        lemma_closed_run(events.drop_first());
    }
}

impl WriterState {
    /// Whether the writer has ended.
    pub fn is_closed(&self) -> (b: bool)
        ensures
            b == (*self is Closed),
    {
        matches!(*self, WriterState::Closed)
    }
}

} // verus!
