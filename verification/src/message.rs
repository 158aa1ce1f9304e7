//! The signaling messages that the relay carries between peers.

use vstd::prelude::*;

verus! {

/// A signaling message exchanged by peers while they negotiate a direct
/// connection. The relay treats every variant as an opaque value: it never
/// inspects the tag or the payloads, it only fans the message out to the
/// subscribers of a room.
#[derive(Debug, PartialEq, Eq)]
pub enum Message {
    /// A peer offers a file, identified by a small integer.
    OfferFile { file: u32 },
    /// A peer accepts an offered file and opens a connection with its
    /// session description.
    AcceptFileOfferConnection { file: u32, offer_sdp: String },
    /// A peer answers a connection attempt with its session description.
    AnswerConnection { answer_sdp: String },
}

impl Clone for Message {
    /// Every recipient of a publish gets its own equal copy of the message.
    fn clone(&self) -> (res: Message)
        ensures
            res == *self,
    {
        match self {
            Message::OfferFile { file } => Message::OfferFile { file: *file },
            Message::AcceptFileOfferConnection { file, offer_sdp } => {
                Message::AcceptFileOfferConnection { file: *file, offer_sdp: offer_sdp.clone() }
            },
            Message::AnswerConnection { answer_sdp } => {
                Message::AnswerConnection { answer_sdp: answer_sdp.clone() }
            },
        }
    }
}

} // verus!
