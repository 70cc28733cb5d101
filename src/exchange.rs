//! One request/response exchange with one backend node, as a state machine.
//!
//! The caller performs each `Action` (connect, write a block, read a block)
//! and reports how it went as an `Event`; `Exchange::step` decides what comes
//! next, until an `Action::Finish` carries the node's outcome. Every failure
//! ends the exchange at once and is reported as that node's outcome only.
use vstd::prelude::*;
use vstd::utf8::{decode_utf8, valid_utf8};
use crate::framing::{append_read, is_final_read, next_chunk, CHUNK_SIZE};

verus! {

/// Why one node contributed no response.
#[derive(Clone, Copy, Debug, PartialEq, Eq, Structural)]
pub enum FailureKind {
    InvalidAddress,
    ConnectTimeout,
    ConnectFailed,
    SendFailed,
    ReceiveFailed,
    EncodingFailed,
}

/// The result of contacting one node.
#[derive(Debug, PartialEq, Eq)]
pub enum NodeOutcome {
    Response(String),
    Failure(FailureKind),
}

/// What the caller observed while carrying out the last action.
#[derive(Debug, PartialEq, Eq)]
pub enum Event {
    /// The node's address does not parse; nothing was sent.
    InvalidAddress,
    /// The connection was not established within the connect bound.
    ConnectTimedOut,
    /// The connection was refused or the node is unreachable.
    ConnectFailed,
    Connected,
    /// The block of the last `Write` was written in full.
    ChunkWritten,
    WriteFailed,
    /// One read returned these bytes (at most one chunk).
    Received(Vec<u8>),
    ReceiveFailed,
}

/// What the caller must do next.
#[derive(Debug, PartialEq, Eq)]
pub enum Action {
    /// Parse the node's address and connect to it, bounded by the connect timeout.
    Connect,
    /// Write the request bytes `start..end`.
    Write { start: usize, end: usize },
    /// Read up to one chunk.
    Read,
    /// Close the connection; the exchange is over with this outcome.
    Finish(NodeOutcome),
}

#[derive(Clone, Copy, Debug, PartialEq, Eq, Structural)]
pub enum Phase {
    Connecting,
    /// The block starting at `sent` is being written.
    Sending { sent: usize },
    Receiving,
    Finished,
}

pub struct Exchange {
    pub request_len: usize,
    pub phase: Phase,
    /// The response bytes read so far.
    pub received: Vec<u8>,
}

/// End of the block that starts at `start` in a message of `len` bytes.
pub open spec fn chunk_end(start: int, len: int) -> int {
    if start + CHUNK_SIZE < len {
        start + CHUNK_SIZE
    } else {
        len
    }
}

/// What a node's complete response bytes amount to.
pub open spec fn outcome_of_bytes(bytes: Seq<u8>, outcome: NodeOutcome) -> bool {
    if valid_utf8(bytes) {
        outcome matches NodeOutcome::Response(text) && text@ == decode_utf8(bytes)
    } else {
        outcome == NodeOutcome::Failure(FailureKind::EncodingFailed)
    }
}

/// Relies on String::from_utf8: it succeeds exactly on valid UTF-8, and then
/// the string holds the decoded characters.
#[verifier::external_body]
fn decode_text(bytes: Vec<u8>) -> (r: Option<String>)
    ensures
        r is Some <==> valid_utf8(bytes@),
        r matches Some(text) ==> text@ == decode_utf8(bytes@),
{
    String::from_utf8(bytes).ok()
}

/// Turns a node's complete response bytes into its outcome: the text when
/// they are valid UTF-8, an encoding failure otherwise.
pub fn decode_response(bytes: Vec<u8>) -> (r: NodeOutcome)
    ensures
        outcome_of_bytes(bytes@, r),
{
    match decode_text(bytes) {
        Some(text) => NodeOutcome::Response(text),
        None => NodeOutcome::Failure(FailureKind::EncodingFailed),
    }
}

impl Exchange {
    pub open spec fn wf(&self) -> bool {
        match self.phase {
            Phase::Sending { sent } => sent < self.request_len,
            _ => true,
        }
    }

    /// The events that can follow the action last asked for.
    pub open spec fn expects(&self, event: Event) -> bool {
        match self.phase {
            Phase::Connecting => event is InvalidAddress || event is ConnectTimedOut
                || event is ConnectFailed || event is Connected,
            Phase::Sending { .. } => event is ChunkWritten || event is WriteFailed,
            Phase::Receiving => (event matches Event::Received(bytes) && bytes@.len()
                <= CHUNK_SIZE) || event is ReceiveFailed,
            Phase::Finished => false,
        }
    }

    /// A new exchange for a request of `request_len` bytes, and its first
    /// action: connect.
    pub fn new(request_len: usize) -> (r: (Exchange, Action))
        ensures
            r.0.wf(),
            r.0.request_len == request_len,
            r.0.phase == Phase::Connecting,
            r.0.received@ == Seq::<u8>::empty(),
            r.1 == Action::Connect,
    {
        (Exchange { request_len, phase: Phase::Connecting, received: Vec::new() }, Action::Connect)
    }

    pub fn is_finished(&self) -> (r: bool)
        ensures
            r == (self.phase == Phase::Finished),
    {
        match self.phase {
            Phase::Finished => true,
            _ => false,
        }
    }

    /// Whether `event` can follow the action last asked for.
    pub fn accepts(&self, event: &Event) -> (r: bool)
        ensures
            r == self.expects(*event),
    {
        match self.phase {
            Phase::Connecting => match event {
                Event::InvalidAddress | Event::ConnectTimedOut | Event::ConnectFailed
                | Event::Connected => true,
                _ => false,
            },
            Phase::Sending { .. } => match event {
                Event::ChunkWritten | Event::WriteFailed => true,
                _ => false,
            },
            Phase::Receiving => match event {
                Event::Received(bytes) => bytes.len() <= CHUNK_SIZE,
                Event::ReceiveFailed => true,
                _ => false,
            },
            Phase::Finished => false,
        }
    }

    /// The next action once `sent` bytes of the request are written: the
    /// next block, or the first read when there is none.
    fn after_sent(&mut self, sent: usize) -> (action: Action)
        requires
            sent <= old(self).request_len,
        ensures
            final(self).request_len == old(self).request_len,
            final(self).received == old(self).received,
            final(self).wf(),
            if sent == old(self).request_len {
                final(self).phase == Phase::Receiving && action == Action::Read
            } else {
                &&& final(self).phase == (Phase::Sending { sent })
                &&& action == (Action::Write {
                    start: sent,
                    end: chunk_end(sent as int, old(self).request_len as int) as usize,
                })
            },
    {
        match next_chunk(self.request_len, sent) {
            None => {
                self.phase = Phase::Receiving;
                Action::Read
            },
            Some((start, end)) => {
                self.phase = Phase::Sending { sent: start };
                Action::Write { start, end }
            },
        }
    }

    /// Ends the exchange with `outcome`.
    fn finish(&mut self, outcome: NodeOutcome) -> (action: Action)
        ensures
            final(self).request_len == old(self).request_len,
            final(self).phase == Phase::Finished,
            action == Action::Finish(outcome),
    {
        self.phase = Phase::Finished;
        Action::Finish(outcome)
    }

    /// Takes in what came of the last action and returns the next one.
    ///
    /// A request is written block by block from its start; an empty request
    /// writes nothing. The response is read until a read shorter than a
    /// chunk, and is then decoded. Any failure finishes the exchange with
    /// that failure.
    pub fn step(&mut self, event: Event) -> (action: Action)
        requires
            old(self).wf(),
            old(self).expects(event),
        ensures
            final(self).wf(),
            final(self).request_len == old(self).request_len,
            final(self).phase == Phase::Finished <==> action is Finish,
            match event {
                Event::InvalidAddress => action == Action::Finish(
                    NodeOutcome::Failure(FailureKind::InvalidAddress),
                ),
                Event::ConnectTimedOut => action == Action::Finish(
                    NodeOutcome::Failure(FailureKind::ConnectTimeout),
                ),
                Event::ConnectFailed => action == Action::Finish(
                    NodeOutcome::Failure(FailureKind::ConnectFailed),
                ),
                Event::WriteFailed => action == Action::Finish(
                    NodeOutcome::Failure(FailureKind::SendFailed),
                ),
                Event::ReceiveFailed => action == Action::Finish(
                    NodeOutcome::Failure(FailureKind::ReceiveFailed),
                ),
                Event::Connected => final(self).received == old(self).received && if old(
                    self,
                ).request_len == 0 {
                    final(self).phase == Phase::Receiving && action == Action::Read
                } else {
                    &&& final(self).phase == (Phase::Sending { sent: 0 })
                    &&& action == (Action::Write {
                        start: 0,
                        end: chunk_end(0, old(self).request_len as int) as usize,
                    })
                },
                Event::ChunkWritten => {
                    let end = chunk_end(old(self).phase->sent as int, old(self).request_len as int);
                    &&& final(self).received == old(self).received
                    &&& if end == old(self).request_len {
                        final(self).phase == Phase::Receiving && action == Action::Read
                    } else {
                        &&& final(self).phase == (Phase::Sending { sent: end as usize })
                        &&& action == (Action::Write {
                            start: end as usize,
                            end: chunk_end(end, old(self).request_len as int) as usize,
                        })
                    }
                },
                Event::Received(bytes) => {
                    let all = old(self).received@ + bytes@;
                    if is_final_read(bytes@) {
                        action matches Action::Finish(outcome) && outcome_of_bytes(all, outcome)
                    } else {
                        final(self).phase == Phase::Receiving && final(self).received@ == all
                            && action == Action::Read
                    }
                },
            },
    {
        match event {
            Event::InvalidAddress => self.finish(NodeOutcome::Failure(FailureKind::InvalidAddress)),
            Event::ConnectTimedOut => self.finish(NodeOutcome::Failure(FailureKind::ConnectTimeout)),
            Event::ConnectFailed => self.finish(NodeOutcome::Failure(FailureKind::ConnectFailed)),
            Event::WriteFailed => self.finish(NodeOutcome::Failure(FailureKind::SendFailed)),
            Event::ReceiveFailed => self.finish(NodeOutcome::Failure(FailureKind::ReceiveFailed)),
            Event::Connected => self.after_sent(0),
            Event::ChunkWritten => {
                let sent = match self.phase {
                    Phase::Sending { sent } => sent,
                    _ => 0,
                };
                let end = match next_chunk(self.request_len, sent) {
                    Some((_, end)) => end,
                    None => self.request_len,
                };
                self.after_sent(end)
            },
            Event::Received(bytes) => {
                let done = append_read(&mut self.received, bytes.as_slice());
                if done {
                    let mut all: Vec<u8> = Vec::new();
                    std::mem::swap(&mut all, &mut self.received);
                    let outcome = decode_response(all);
                    self.finish(outcome)
                } else {
                    Action::Read
                }
            },
        }
    }
}

} // verus!
