//! Per-connection control logic: one step of the reader loop, and the
//! writer task's state machine.
//!
//! The surrounding server owns the sockets and the async tasks; it reads
//! a frame, hands it to a step function here together with the shared
//! registry, and performs whatever the result tells it to. Everything
//! that decides — what is broadcast, when a connection is deregistered,
//! what the writer does next — happens in these verified functions.

use vstd::prelude::*;
use crate::registry::{broadcast_spec, remove_entry, Registry};
use crate::envelope::{enrich, enriched, envelope_of, lemma_enriched_uid};
use crate::UID_LIMIT;

verus! {

/// One inbound event on a connection's socket, as its reader loop sees
/// it: a text frame, a non-text frame, or the end of the stream (a read
/// error, an explicit close, or the peer going away — all alike).
pub enum Inbound {
    Text(Vec<u8>),
    Binary(Vec<u8>),
    Closed,
}

/// What one reader step did, as an explicit, testable outcome.
#[derive(Clone, Copy, PartialEq, Eq, Structural, Debug)]
pub enum Outcome {
    /// The frame was fanned out to every registered connection.
    Broadcast,
    /// The frame did not fit the envelope grammar and was dropped; the
    /// sender stays connected and may send further frames.
    DroppedMalformed,
    /// A non-text frame; accepted but not rebroadcast.
    Ignored,
    /// The stream ended; the connection was removed from the registry.
    Disconnected,
}

/// One step of the reader loop in the verbatim variant: a text frame is
/// rebroadcast unchanged, a non-text frame is ignored, and the end of
/// the stream deregisters the connection — exactly once, racing
/// teardown paths tolerated by `remove` being a no-op on absence.
pub fn handle_frame(reg: &mut Registry, id: u64, ev: Inbound) -> (r: Outcome)
    requires
        old(reg).wf(),
    ensures
        final(reg).wf(),
        final(reg).next_id() == old(reg).next_id(),
        ev matches Inbound::Text(p) ==> final(reg)@ == broadcast_spec(old(reg)@, p@) && r
            == Outcome::Broadcast,
        ev matches Inbound::Binary(_) ==> final(reg)@ == old(reg)@ && r == Outcome::Ignored,
        ev matches Inbound::Closed ==> final(reg)@ == remove_entry(old(reg)@, id)
            && !final(reg).registered(id) && r == Outcome::Disconnected,
{
    match ev {
        Inbound::Text(p) => {
            reg.broadcast(&p);
            Outcome::Broadcast
        },
        Inbound::Binary(_) => Outcome::Ignored,
        Inbound::Closed => {
            reg.remove(id);
            Outcome::Disconnected
        },
    }
}

/// One step of the reader loop in the enriched variant: a text frame is
/// parsed against the envelope grammar; on success the sender's
/// identifier is stamped into `uid` and the re-serialized envelope is
/// fanned out; on failure the frame is dropped silently — no broadcast,
/// the sender stays registered and the registry is untouched.
pub fn handle_frame_enriched(reg: &mut Registry, id: u64, ev: Inbound) -> (r: Outcome)
    requires
        old(reg).wf(),
    ensures
        final(reg).wf(),
        final(reg).next_id() == old(reg).next_id(),
        ev matches Inbound::Text(p) ==> (if envelope_of(p@) is Some {
            final(reg)@ == broadcast_spec(old(reg)@, enriched(p@, id)->0) && r
                == Outcome::Broadcast
        } else {
            final(reg)@ == old(reg)@ && r == Outcome::DroppedMalformed
        }),
        ev matches Inbound::Text(p) ==> (envelope_of(p@) is Some && id < UID_LIMIT
            ==> envelope_of(enriched(p@, id)->0) == Some(
            ((envelope_of(p@)->0).0, (envelope_of(p@)->0).1, Some(id)),
        )),
        ev matches Inbound::Binary(_) ==> final(reg)@ == old(reg)@ && r == Outcome::Ignored,
        ev matches Inbound::Closed ==> final(reg)@ == remove_entry(old(reg)@, id)
            && !final(reg).registered(id) && r == Outcome::Disconnected,
{
    match ev {
        Inbound::Text(p) => {
            proof {
                if envelope_of(p@) is Some && id < UID_LIMIT {
                    lemma_enriched_uid(p@, id);
                }
            }
            match enrich(&p, id) {
                Some(out) => {
                    reg.broadcast(&out);
                    Outcome::Broadcast
                },
                None => Outcome::DroppedMalformed,
            }
        },
        Inbound::Binary(_) => Outcome::Ignored,
        Inbound::Closed => {
            reg.remove(id);
            Outcome::Disconnected
        },
    }
}

/// The writer task's state: draining its queue, closing the socket's
/// write half after the queue is gone, or finished.
#[derive(Clone, Copy, PartialEq, Eq, Structural, Debug)]
pub enum WriterState {
    Draining,
    Closing,
    Done,
}

/// What the runtime reports to the writer task.
#[derive(Clone, Copy, PartialEq, Eq, Structural, Debug)]
pub enum WriterEvent {
    /// The queue handed out the next payload.
    PopReady,
    /// The queue is closed and drained: its sender was dropped.
    PopClosed,
    /// The pending socket write finished.
    WriteDone,
    /// The pending socket write failed.
    WriteFailed,
    /// The write half of the socket has been closed.
    CloseFinished,
}

/// What the writer task should do next.
#[derive(Clone, Copy, PartialEq, Eq, Structural, Debug)]
pub enum WriterAction {
    /// Write the payload just popped to the socket.
    Write,
    /// Pop the next payload (or learn that the queue is closed).
    Pop,
    /// Close the socket's write half.
    Close,
    /// Nothing: the task is finished (or the event does not apply).
    Idle,
}

/// The writer task's transition table. A failed write goes straight to
/// `Done` — a broken socket is abandoned, never retried — and `Done` is
/// final. Events that cannot arise in a state change nothing.
pub open spec fn writer_next(st: WriterState, ev: WriterEvent) -> (WriterState, WriterAction) {
    match (st, ev) {
        (WriterState::Draining, WriterEvent::PopReady) => (WriterState::Draining, WriterAction::Write),
        (WriterState::Draining, WriterEvent::PopClosed) => (WriterState::Closing, WriterAction::Close),
        (WriterState::Draining, WriterEvent::WriteDone) => (WriterState::Draining, WriterAction::Pop),
        (WriterState::Draining, WriterEvent::WriteFailed) => (WriterState::Done, WriterAction::Idle),
        (WriterState::Closing, WriterEvent::CloseFinished) => (WriterState::Done, WriterAction::Idle),
        (WriterState::Closing, _) => (WriterState::Closing, WriterAction::Idle),
        (WriterState::Done, _) => (WriterState::Done, WriterAction::Idle),
        (WriterState::Draining, WriterEvent::CloseFinished) => (
            WriterState::Draining,
            WriterAction::Idle,
        ),
    }
}

/// Advance the writer task by one event.
pub fn writer_step(st: WriterState, ev: WriterEvent) -> (r: (WriterState, WriterAction))
    ensures
        r == writer_next(st, ev),
{
    match (st, ev) {
        (WriterState::Draining, WriterEvent::PopReady) => (WriterState::Draining, WriterAction::Write),
        (WriterState::Draining, WriterEvent::PopClosed) => (WriterState::Closing, WriterAction::Close),
        (WriterState::Draining, WriterEvent::WriteDone) => (WriterState::Draining, WriterAction::Pop),
        (WriterState::Draining, WriterEvent::WriteFailed) => (WriterState::Done, WriterAction::Idle),
        (WriterState::Closing, WriterEvent::CloseFinished) => (WriterState::Done, WriterAction::Idle),
        (WriterState::Closing, _) => (WriterState::Closing, WriterAction::Idle),
        (WriterState::Done, _) => (WriterState::Done, WriterAction::Idle),
        (WriterState::Draining, WriterEvent::CloseFinished) => (
            WriterState::Draining,
            WriterAction::Idle,
        ),
    }
}

/// Once the writer task is done it stays done, whatever else arrives:
/// cancelling one connection's writer can never revive it.
pub proof fn lemma_writer_done_is_final(ev: WriterEvent)
    ensures
        writer_next(WriterState::Done, ev).0 == WriterState::Done,
        writer_next(WriterState::Done, ev).1 == WriterAction::Idle,
{
}

} // verus!
