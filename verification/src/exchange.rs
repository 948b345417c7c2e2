//! One request and its reply, as steps between sending and receiving.
//!
//! The caller owns the transport. It sends the command's line, then reads
//! and feeds what it read until the exchange is done. Whatever the transport
//! reports, the exchange answers with what to do next.

use vstd::prelude::*;
use vstd::utf8::encode_utf8;
use crate::decode::{outcome, try_parse};
use crate::error::Error;
use crate::reply::ReturnType;
use crate::wire::{parse_reply, Parsed, MAX_DEPTH};
use crate::write::{command_line, line_of};

verus! {

/// What the transport reported.
pub enum Event {
    /// The command could not be written or flushed.
    SendFailed,
    /// A read gave these bytes. None at all means that the peer has closed
    /// the stream.
    Received(Vec<u8>),
    /// A read failed.
    ReceiveFailed,
}

/// The reply of an exchange in progress: the bytes received so far.
pub struct Exchange {
    inbound: Vec<u8>,
}

/// Where an exchange stands after an event.
pub enum Progress {
    /// The reply is not complete: read again and feed the result.
    More(Exchange),
    /// The exchange is over, with the reply and the number of bytes that it
    /// took of all those received, or with the reason for no reply.
    Done(Result<(ReturnType, usize), Error>),
}

/// Where an exchange stands after an event, in terms of the grammar.
pub enum Step {
    /// The exchange goes on, with these bytes received.
    More(Seq<u8>),
    /// The exchange is over, with this outcome.
    Done(Parsed),
}

/// The rule of the exchange: what follows from `event` when `got` has been
/// received before it.
///
/// A failed send ends it with `WriteFailed`, a failed read with
/// `FailedDataRead`, a read of no bytes with `ReadEmptyData`. Bytes are put
/// behind those received before; if they now hold a whole reply, or show
/// that none will come, the exchange ends with that, and else it goes on.
/// That an exchange may end as soon as it can rests on
/// `laws::lemma_reply_stable`: bytes that arrive later change neither a
/// reply nor a failure other than the empty read.
pub open spec fn step(got: Seq<u8>, event: Event) -> Step {
    match event {
        Event::SendFailed => Step::Done(Err(Error::WriteFailed)),
        Event::ReceiveFailed => Step::Done(Err(Error::FailedDataRead)),
        Event::Received(chunk) => if chunk@.len() == 0 {
            Step::Done(Err(Error::ReadEmptyData))
        } else {
            match parse_reply(got + chunk@, MAX_DEPTH as nat) {
                Ok(whole) => Step::Done(Ok(whole)),
                Err(Error::ReadEmptyData) => Step::More(got + chunk@),
                Err(e) => Step::Done(Err(e)),
            }
        },
    }
}

impl Progress {
    /// What this value says in terms of the grammar.
    pub open spec fn model(self) -> Step {
        match self {
            Progress::More(exchange) => Step::More(exchange.received()),
            Progress::Done(result) => Step::Done(outcome(result)),
        }
    }
}

impl Exchange {
    /// The bytes received so far.
    pub closed spec fn received(&self) -> Seq<u8> {
        self.inbound@
    }

    /// Starts an exchange for `command`. The second part of the result is
    /// what the caller has to send.
    pub fn begin(command: &str) -> (start: (Exchange, Vec<u8>))
        ensures
            start.0.received() == Seq::<u8>::empty(),
            start.1@ == line_of(encode_utf8(command@)),
    {
        (Exchange { inbound: Vec::new() }, command_line(command))
    }

    /// Takes what the transport reported and says where the exchange stands.
    pub fn feed(self, event: Event) -> (next: Progress)
        ensures
            next.model() == step(self.received(), event),
    {
        match event {
            Event::SendFailed => Progress::Done(Err(Error::WriteFailed)),
            Event::ReceiveFailed => Progress::Done(Err(Error::FailedDataRead)),
            Event::Received(chunk) => {
                if chunk.len() == 0 {
                    return Progress::Done(Err(Error::ReadEmptyData));
                }
                let mut inbound = self.inbound;
                let mut chunk = chunk;
                let ghost all = inbound@ + chunk@;
                inbound.append(&mut chunk);
                assert(inbound@ == all);
                match try_parse(inbound.as_slice()) {
                    Ok(whole) => Progress::Done(Ok(whole)),
                    Err(Error::ReadEmptyData) => Progress::More(Exchange { inbound }),
                    Err(e) => Progress::Done(Err(e)),
                }
            },
        }
    }
}

} // verus!
