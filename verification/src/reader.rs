use vstd::prelude::*;

use crate::decoder::{byte_views, decode, decode_spec};

verus! {

// The producer's decision table. The shell's reader thread owns the open
// connection; after each bounded-time read it reports what happened here
// and performs the action that comes back: forward the decoded lines over
// the queue, pause briefly before the next read, or terminate.

/// One outcome of a bounded-time read on the open connection.
pub enum ReadEvent {
    /// Fresh bytes arrived.
    Data(Vec<u8>),
    /// The read timed out or would have blocked: not an error, just cadence.
    TimedOut,
    /// Any other read failure: fatal for this producer.
    Failed,
}

/// What the producer does next.
pub enum ProducerAction {
    /// Send each of these decoded lines, in order; a failed send means the
    /// consumer is gone and the producer terminates.
    Forward(Vec<Vec<u8>>),
    /// Sleep briefly, then read again.
    Pause,
    /// Terminate the read loop for good.
    Stop,
}

/// The producer's decision for one read outcome: decode fresh data and
/// forward the accepted lines; pause after a timeout and retry; stop for
/// good on any other failure.
pub fn producer_step(ev: ReadEvent) -> (a: ProducerAction)
    ensures
        match ev {
            ReadEvent::Data(chunk) => a matches ProducerAction::Forward(ls) && byte_views(ls@)
                == decode_spec(chunk@),
            ReadEvent::TimedOut => a == ProducerAction::Pause,
            ReadEvent::Failed => a == ProducerAction::Stop,
        },
{
    match ev {
        ReadEvent::Data(chunk) => ProducerAction::Forward(decode(chunk.as_slice())),
        ReadEvent::TimedOut => ProducerAction::Pause,
        ReadEvent::Failed => ProducerAction::Stop,
    }
}

} // verus!
