//! The decode-and-dispatch loop of one connection, as a state machine: the
//! caller performs each action it returns and reports what came of it.

use vstd::prelude::*;
use crate::packet::{PacketHandler, RawPacket, FrameError, FrameScan, frame_scan, frame_encoding,
    lemma_frame_round_trip};
use crate::parser::{ParsingError, var_encoding};
use crate::processor::{PacketRegistry, get_handler};

verus! {

/// Where a connection stands.
#[derive(Clone, Copy, Debug, PartialEq, Eq, Structural)]
pub enum SessionState {
    /// Waiting for the next frame.
    Reading,
    /// A handler is running on the last frame.
    Dispatching,
    /// The connection is over.
    Closed,
}

/// What the caller is to do next.
pub enum SessionAction<H> {
    /// Read more bytes from the peer and hand them to `receive`.
    ReadMore,
    /// Run the handler on the packet, then report with `handler_finished`.
    Invoke(H, RawPacket),
    /// Report that no handler serves this packet id; the session goes on.
    ReportUnknownPacket(u32),
    /// Close the connection.
    Close,
    /// Nothing to do in the current state.
    Idle,
}

/// What to do once a handler has returned.
#[derive(Clone, Copy, Debug, PartialEq, Eq, Structural)]
pub enum HandlerAction {
    /// Go on reading.
    Continue,
    /// Report that the handler failed; the session goes on.
    ReportHandlerError,
    /// No handler was running.
    Idle,
}

/// What the next step makes of the pending bytes.
pub enum StepOutcome<H> {
    /// A frame whose id has a handler.
    Dispatch { handler: H, size: nat, id: nat, payload: Seq<u8>, used: nat },
    /// A frame whose id has no handler.
    Unknown { id: nat, used: nat },
    /// The pending bytes end inside a frame.
    NeedMore,
    /// The pending bytes cannot start a frame.
    Fail,
}

/// The outcome of one step on `pending` with the registry's mapping `handlers`.
pub open spec fn step_outcome<H>(pending: Seq<u8>, handlers: Map<u32, H>) -> StepOutcome<H> {
    match frame_scan(pending) {
        FrameScan::Packet { size, id, payload, used } => if handlers.contains_key(id as u32) {
            StepOutcome::Dispatch { handler: handlers[id as u32], size, id, payload, used }
        } else {
            StepOutcome::Unknown { id, used }
        },
        FrameScan::Incomplete => StepOutcome::NeedMore,
        _ => StepOutcome::Fail,
    }
}

/// The state after a handler has returned: reading again, whether it
/// succeeded or failed.
pub open spec fn after_handler(state: SessionState) -> SessionState {
    match state {
        SessionState::Dispatching => SessionState::Reading,
        other => other,
    }
}

/// One connection's session: the framer over the bytes received, and the state.
pub struct ConnectionSession {
    framer: PacketHandler,
    state: SessionState,
}

impl ConnectionSession {
    /// The session's framer is well formed.
    pub closed spec fn wf(&self) -> bool {
        self.framer.wf()
    }

    /// The bytes received and not yet cut into frames.
    pub closed spec fn pending(&self) -> Seq<u8> {
        self.framer@
    }

    /// The session's state.
    pub closed spec fn spec_state(&self) -> SessionState {
        self.state
    }

    /// A session that has received nothing, waiting for its first frame.
    pub fn new() -> (s: ConnectionSession)
        ensures
            s.wf(),
            s.pending() == Seq::<u8>::empty(),
            s.spec_state() == SessionState::Reading,
    {
        ConnectionSession { framer: PacketHandler::new(Vec::new()), state: SessionState::Reading }
    }

    /// The session's state.
    pub fn state(&self) -> (st: SessionState)
        ensures
            st == self.spec_state(),
    {
        self.state
    }

    /// Appends bytes received from the peer.
    pub fn receive(&mut self, bytes: &[u8])
        requires
            old(self).wf(),
        ensures
            final(self).wf(),
            final(self).pending() == old(self).pending() + bytes@,
            final(self).spec_state() == old(self).spec_state(),
    {
        self.framer.receive(bytes);
    }

    /// The stream ended or broke: the session is over.
    pub fn stream_ended(&mut self)
        requires
            old(self).wf(),
        ensures
            final(self).wf(),
            final(self).pending() == old(self).pending(),
            final(self).spec_state() == SessionState::Closed,
    {
        self.state = SessionState::Closed;
    }

    /// While reading, cuts the next frame and decides what to do with it: run
    /// its handler, report an id without one and go on, wait for more bytes,
    /// or close on a frame that cannot be decoded. In any other state it does
    /// nothing.
    pub fn step<H: Copy>(&mut self, registry: &PacketRegistry<H>) -> (a: SessionAction<H>)
        requires
            old(self).wf(),
        ensures
            final(self).wf(),
            old(self).spec_state() != SessionState::Reading ==> a is Idle && *final(self) == *old(self),
            old(self).spec_state() == SessionState::Reading ==> match step_outcome(old(self).pending(), registry@) {
                StepOutcome::Dispatch { handler, size, id, payload, used } => a matches SessionAction::Invoke(h, p)
                    && h == handler && p.size_in_bytes == size && p.packet_id == id && p.payload@ == payload
                    && final(self).spec_state() == SessionState::Dispatching
                    && final(self).pending() == old(self).pending().skip(used as int),
                StepOutcome::Unknown { id, used } => a matches SessionAction::ReportUnknownPacket(i) && i == id
                    && final(self).spec_state() == SessionState::Reading
                    && final(self).pending() == old(self).pending().skip(used as int),
                StepOutcome::NeedMore => a is ReadMore
                    && final(self).spec_state() == SessionState::Reading
                    && final(self).pending() == old(self).pending(),
                StepOutcome::Fail => a is Close && final(self).spec_state() == SessionState::Closed,
            },
    {
        match self.state {
            SessionState::Reading => {},
            _ => {
                return SessionAction::Idle;
            },
        }
        match self.framer.next_packet() {
            Ok(packet) => match get_handler(registry, packet.packet_id) {
                Some(h) => {
                    self.state = SessionState::Dispatching;
                    SessionAction::Invoke(h, packet)
                },
                None => SessionAction::ReportUnknownPacket(packet.packet_id),
            },
            Err(FrameError::Parsing(ParsingError::UnexpectedEof)) => SessionAction::ReadMore,
            Err(_) => {
                self.state = SessionState::Closed;
                SessionAction::Close
            },
        }
    }

    /// The handler has returned, successfully or not. Either way the session
    /// goes back to reading with its pending bytes untouched; a failure is to
    /// be reported.
    pub fn handler_finished(&mut self, ok: bool) -> (a: HandlerAction)
        requires
            old(self).wf(),
        ensures
            final(self).wf(),
            final(self).pending() == old(self).pending(),
            final(self).spec_state() == after_handler(old(self).spec_state()),
            old(self).spec_state() == SessionState::Dispatching ==> if ok { a is Continue } else { a is ReportHandlerError },
            old(self).spec_state() != SessionState::Dispatching ==> a is Idle,
    {
        match self.state {
            SessionState::Dispatching => {
                self.state = SessionState::Reading;
                if ok {
                    HandlerAction::Continue
                } else {
                    HandlerAction::ReportHandlerError
                }
            },
            _ => HandlerAction::Idle,
        }
    }
}

/// A handler that fails leaves the session reading, so the next frame is
/// still cut.
pub proof fn lemma_handler_failure_keeps_reading()
    ensures
        after_handler(SessionState::Dispatching) == SessionState::Reading,
{
}

/// A frame with an unknown id is reported and skipped, and a frame after it
/// with a known id is then dispatched to its handler.
pub proof fn lemma_unknown_packet_skipped<H>(
    unknown_id: u32,
    unknown_payload: Seq<u8>,
    id: u32,
    payload: Seq<u8>,
    handlers: Map<u32, H>,
)
    requires
        !handlers.contains_key(unknown_id),
        handlers.contains_key(id),
        var_encoding(unknown_id as nat).len() + unknown_payload.len() < 0x1_0000_0000,
        var_encoding(id as nat).len() + payload.len() < 0x1_0000_0000,
    ensures
        step_outcome(frame_encoding(unknown_id, unknown_payload) + frame_encoding(id, payload), handlers)
            == (StepOutcome::<H>::Unknown { id: unknown_id as nat, used: frame_encoding(unknown_id, unknown_payload).len() }),
        step_outcome(
            (frame_encoding(unknown_id, unknown_payload) + frame_encoding(id, payload)).skip(
                frame_encoding(unknown_id, unknown_payload).len() as int),
            handlers,
        ) == (StepOutcome::Dispatch {
            handler: handlers[id],
            size: var_encoding(id as nat).len() + payload.len(),
            id: id as nat,
            payload,
            used: frame_encoding(id, payload).len(),
        }),
{
    let first = frame_encoding(unknown_id, unknown_payload);
    let second = frame_encoding(id, payload);
    lemma_frame_round_trip(unknown_id, unknown_payload, second);
    assert((first + second).skip(first.len() as int) =~= second);
    lemma_frame_round_trip(id, payload, Seq::empty());
    assert(second + Seq::<u8>::empty() =~= second);
}

} // verus!
