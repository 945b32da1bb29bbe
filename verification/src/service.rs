//! What a storage node does with a connection: it reads one request,
//! applies it to the table, and sends one response.
//!
//! Reading, sending and locking the table are the caller's part. The
//! decisions are here: the response to a request, the frame to send for a
//! frame that was read, and, for a caller that serves many connections at
//! once, the phase of a connection after each event and what to do next.

use crate::error::Error;
use crate::message::{
    decode, encode, fits, frame_of, parse_message, Message, MessageView, FRAME_SIZE,
};
use crate::table::Table;
use vstd::prelude::*;

verus! {

/// The response that a table owes to a message that opens a connection.
/// `None` for a message that is no request.
pub open spec fn answer(table: Map<Seq<char>, Seq<char>>, request: MessageView) -> Option<
    MessageView,
> {
    match request {
        MessageView::Get { key } => if table.contains_key(key) {
            Some(MessageView::Found { value: table[key] })
        } else {
            Some(MessageView::NotFound)
        },
        MessageView::Put { .. } => Some(MessageView::DonePut),
        _ => None,
    }
}

/// The table after a message that opens a connection: a `Put` gives its
/// key its value, nothing else changes anything.
pub open spec fn table_after(table: Map<Seq<char>, Seq<char>>, request: MessageView) -> Map<
    Seq<char>,
    Seq<char>,
> {
    match request {
        MessageView::Put { key, value } => table.insert(key, value),
        _ => table,
    }
}

/// What comes of a frame that was read: the frame to send, or why there
/// is none.
pub open spec fn outcome(table: Map<Seq<char>, Seq<char>>, frame: Seq<u8>) -> Result<
    Seq<u8>,
    Error,
> {
    match parse_message(frame) {
        None => Err(Error::Decode),
        Some(request) => match answer(table, request) {
            None => Err(Error::Protocol),
            Some(response) => if fits(response) {
                Ok(frame_of(response))
            } else {
                Err(Error::Encode)
            },
        },
    }
}

/// The table after a frame was read.
pub open spec fn table_after_frame(table: Map<Seq<char>, Seq<char>>, frame: Seq<u8>) -> Map<
    Seq<char>,
    Seq<char>,
> {
    match parse_message(frame) {
        None => table,
        Some(request) => table_after(table, request),
    }
}

/// Applies a request to the table and gives the response. A message that
/// is no request is refused with `Error::Protocol` and changes nothing.
pub fn respond(table: &mut Table, request: Message) -> (r: Result<Message, Error>)
    ensures
        final(table)@ == table_after(old(table)@, request@),
        match r {
            Ok(response) => answer(old(table)@, request@) == Some(response@),
            Err(e) => e == Error::Protocol && answer(old(table)@, request@) is None,
        },
{
    match request {
        Message::Get { key } => match table.get(key.as_str()) {
            Some(value) => Ok(Message::Found { value }),
            None => Ok(Message::NotFound),
        },
        Message::Put { key, value } => {
            table.put(key, value);
            Ok(Message::DonePut)
        },
        _ => Err(Error::Protocol),
    }
}

/// The response to a request that changes nothing, from a table that is
/// shared with other readers: `Some` for a `Get`, with what `respond`
/// gives for it, and `None` for every other message.
pub fn respond_shared(table: &Table, request: &Message) -> (r: Option<Message>)
    ensures
        match r {
            Some(response) => request@ is Get && answer(table@, request@) == Some(response@),
            None => !(request@ is Get),
        },
{
    match request {
        Message::Get { key } => match table.get(key.as_str()) {
            Some(value) => Some(Message::Found { value }),
            None => Some(Message::NotFound),
        },
        _ => None,
    }
}

/// Serves one frame: reads the request in it, applies it to the table
/// and puts the response in a frame. Fails with `Error::Decode` on a
/// frame that holds no message, with `Error::Protocol` on a message that
/// is no request, and with `Error::Encode` where the value that was found
/// does not fit in a frame.
pub fn serve(table: &mut Table, frame: &[u8; FRAME_SIZE]) -> (r: Result<[u8; FRAME_SIZE], Error>)
    ensures
        final(table)@ == table_after_frame(old(table)@, frame@),
        match r {
            Ok(sent) => outcome(old(table)@, frame@) == Ok::<Seq<u8>, Error>(sent@),
            Err(e) => outcome(old(table)@, frame@) == Err::<Seq<u8>, Error>(e),
        },
{
    let request = match decode(frame) {
        Ok(request) => request,
        Err(e) => {
            return Err(e);
        },
    };
    let response = match respond(table, request) {
        Ok(response) => response,
        Err(e) => {
            return Err(e);
        },
    };
    encode(&response)
}

/// Where a connection stands.
#[derive(Debug, Clone, Copy, PartialEq, Eq, Structural)]
pub enum Phase {
    /// Nothing was read yet.
    AwaitingRequest,
    /// The request was read and is being applied to the table.
    Processing,
    /// The response is being sent.
    Responding,
    /// The connection is over.
    Closed,
}

/// What happened on a connection.
#[derive(Debug, Clone, PartialEq, Eq)]
pub enum Event {
    /// A whole frame was read.
    Received([u8; FRAME_SIZE]),
    /// The request was applied to the table, with this response.
    Applied(Message),
    /// The response was sent and flushed.
    Sent,
    /// Reading or sending failed, or the peer closed the stream.
    Failed,
    /// The time allowed for the connection ran out.
    TimedOut,
}

/// What is to be done with a connection.
#[derive(Debug, Clone, PartialEq, Eq)]
pub enum Action {
    /// Apply this request to the table, then report `Applied`. A request
    /// that is not `exclusive` changes nothing, and `respond_shared`
    /// answers it under a lock that is shared with other readers. An
    /// `exclusive` one is for `respond`, under a lock of its own.
    Apply { request: Message, exclusive: bool },
    /// Send this frame, then report `Sent` or `Failed`.
    Send([u8; FRAME_SIZE]),
    /// Close the connection.
    Close,
}

/// What an event leads to, as mathematics: the next phase and what is to
/// be done, with frames as sequences of bytes.
pub enum Next {
    Apply { request: MessageView, exclusive: bool },
    Send { frame: Seq<u8> },
    Close,
}

/// What is to be done after `event` in `phase`. A frame that arrives
/// while a request is awaited is read, and a request in it is to be
/// applied; the response to a request that is being processed is to be
/// sent, if it fits a frame; everything else closes the connection.
pub open spec fn next(phase: Phase, event: Event) -> Next {
    match (phase, event) {
        (Phase::AwaitingRequest, Event::Received(frame)) => match parse_message(frame@) {
            Some(request) => if request.is_request() {
                Next::Apply { request, exclusive: request is Put }
            } else {
                Next::Close
            },
            None => Next::Close,
        },
        (Phase::Processing, Event::Applied(response)) => if fits(response@) {
            Next::Send { frame: frame_of(response@) }
        } else {
            Next::Close
        },
        _ => Next::Close,
    }
}

/// The phase that follows a decision: a request that is to be applied
/// is in processing, a frame that is to be sent is the response, and a
/// connection that is to be closed is closed.
pub open spec fn phase_for(decision: Next) -> Phase {
    match decision {
        Next::Apply { .. } => Phase::Processing,
        Next::Send { .. } => Phase::Responding,
        Next::Close => Phase::Closed,
    }
}

/// Takes a connection one event further: the next phase, and what is to
/// be done. Failure and timeout close the connection in every phase, and
/// so does every event that the phase does not wait for; a closed
/// connection stays closed.
pub fn step(phase: Phase, event: Event) -> (r: (Phase, Action))
    ensures
        r.0 == phase_for(next(phase, event)),
        match next(phase, event) {
            Next::Apply { request, exclusive } => r.1 matches Action::Apply {
                request: to_apply,
                exclusive: alone,
            } && to_apply@ == request && alone == exclusive,
            Next::Send { frame } => r.1 matches Action::Send(to_send) && to_send@ == frame,
            Next::Close => r.1 == Action::Close,
        },
{
    match (phase, event) {
        (Phase::AwaitingRequest, Event::Received(frame)) => match decode(&frame) {
            Ok(request) => match &request {
                Message::Get { .. } => (
                    Phase::Processing,
                    Action::Apply { request, exclusive: false },
                ),
                Message::Put { .. } => (
                    Phase::Processing,
                    Action::Apply { request, exclusive: true },
                ),
                _ => (Phase::Closed, Action::Close),
            },
            Err(_) => (Phase::Closed, Action::Close),
        },
        (Phase::Processing, Event::Applied(response)) => match encode(&response) {
            Ok(frame) => (Phase::Responding, Action::Send(frame)),
            Err(_) => (Phase::Closed, Action::Close),
        },
        _ => (Phase::Closed, Action::Close),
    }
}

/// A connection that is taken step by step sends what `serve` gives: a
/// frame that holds a request leads to that request being applied, and
/// the response that the table owes leads to the frame of that response,
/// or closes the connection where the response does not fit; every other
/// frame closes the connection.
pub proof fn lemma_steps_serve(
    table: Map<Seq<char>, Seq<char>>,
    frame: [u8; FRAME_SIZE],
    response: Message,
)
    ensures
        match next(Phase::AwaitingRequest, Event::Received(frame)) {
            Next::Apply { request, exclusive } => {
                &&& parse_message(frame@) == Some(request)
                &&& answer(table, request) is Some
                &&& exclusive <==> request is Put
                &&& answer(table, request) == Some(response@) ==> match next(
                    Phase::Processing,
                    Event::Applied(response),
                ) {
                    Next::Send { frame: sent } => outcome(table, frame@) == Ok::<Seq<u8>, Error>(
                        sent,
                    ),
                    _ => outcome(table, frame@) == Err::<Seq<u8>, Error>(Error::Encode),
                }
            },
            _ => outcome(table, frame@) is Err && !(outcome(table, frame@) == Err::<
                Seq<u8>,
                Error,
            >(Error::Encode)),
        },
{
}

/// Failure and timeout close a connection, whatever its phase.
pub proof fn lemma_failure_closes(phase: Phase)
    ensures
        next(phase, Event::Failed) == Next::Close,
        next(phase, Event::TimedOut) == Next::Close,
{
}

/// A connection that is closed stays closed, and one that has read its
/// request reads no other.
pub proof fn lemma_one_request(phase: Phase, event: Event)
    requires
        phase != Phase::AwaitingRequest,
    ensures
        !(next(phase, event) is Apply),
        phase == Phase::Closed ==> next(phase, event) == Next::Close,
{
}

} // verus!
