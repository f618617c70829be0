//! The step from a received frame to the sentence ring.
//!
//! A frame whose bytes are valid UTF-8 is fed to the ring byte by byte, every
//! byte of it: a byte that the ring refuses is dropped, and the bytes behind
//! it are fed all the same, so that a start marker behind it is not lost. A
//! frame that is not valid UTF-8 is rejected as a whole: none of its bytes
//! reaches the ring.

use crate::nmea_parser::feed_all;
use crate::nmea_parser::FeedError;
use crate::nmea_parser::RingView;
use crate::nmea_parser::SentenceRing;
use crate::nmea_parser::MESSAGE_SLOTS;
use crate::packet::Packet;
use vstd::prelude::*;
use vstd::utf8::valid_utf8;

verus! {

/// Why a frame was not relayed in full.
#[derive(Clone, Copy, Debug, PartialEq, Eq, Structural)]
pub enum RelayError {
    /// The frame is not text. None of its bytes reached the ring.
    InvalidText,
    /// The ring refused a byte of the frame, for this reason the first time.
    /// Every byte that it did not refuse was taken.
    Feed(FeedError),
}

impl RelayError {
    /// The error in words, for a diagnostic sink.
    pub fn message(&self) -> (text: &'static str)
        ensures
            text@ == match *self {
                RelayError::InvalidText => "Packet contains non-ascii characters!"@,
                RelayError::Feed(FeedError::RingFull) => "NMEA parser ran out of message space!"@,
                RelayError::Feed(FeedError::SlotFull) => "NMEA sentence is longer than a message slot!"@,
            },
    {
        match self {
            RelayError::InvalidText => "Packet contains non-ascii characters!",
            RelayError::Feed(error) => error.message(),
        }
    }
}

impl RingView {
    /// Whether `frame` is relayed in full, and if not, why: it is not text,
    /// or the ring refuses a byte of it, of which the first is reported.
    pub open spec fn relay_result(self, frame: Packet) -> Result<(), RelayError> {
        if !valid_utf8(frame@) {
            Err(RelayError::InvalidText)
        } else {
            match self.parse_result(frame@) {
                Ok(()) => Ok(()),
                Err(error) => Err(RelayError::Feed(error)),
            }
        }
    }

    /// The ring after `frame` was relayed to it: after every byte of it was
    /// fed in order if it is text, unchanged if it is not.
    pub open spec fn relayed(self, frame: Packet) -> Self {
        if valid_utf8(frame@) {
            self.fed_all(frame@)
        } else {
            self
        }
    }

    /// Frames are joined in the order in which they come. Two frames of text
    /// relayed in turn leave the ring as feeding every byte of both in one
    /// run does: a sentence may span frames.
    pub proof fn lemma_relayed_frames_join(self, first: Packet, second: Packet)
        requires
            valid_utf8(first@),
            valid_utf8(second@),
        ensures
            self.relayed(first).relayed(second) == self.fed_all(first@ + second@),
    {
        self.lemma_fed_all_concat(first@, second@);
    }
}

/// Relays one frame to the ring.
///
/// Every byte of a text frame is fed, as [`feed_all`] does it. The result is
/// `Ok` if the ring took them all, and the first refusal otherwise. A frame
/// that is not valid UTF-8 is rejected as a whole: the ring stays as it was
/// and the one result `Err(InvalidText)` reports it.
///
/// Whatever the frame, a slot that was ready before stays as it was.
pub fn relay(ring: &mut SentenceRing, frame: &Packet) -> (r: Result<(), RelayError>)
    ensures
        final(ring)@ == old(ring)@.relayed(*frame),
        r == old(ring)@.relay_result(*frame),
        !valid_utf8(frame@) ==> final(ring)@ == old(ring)@ && r == Err::<(), RelayError>(
            RelayError::InvalidText,
        ),
        forall|k: int|
            0 <= k < MESSAGE_SLOTS && (#[trigger] old(ring)@.slots[k]).ready
                ==> final(ring)@.slots[k] == old(ring)@.slots[k],
{
    match frame.as_str() {
        Ok(text) => match feed_all(ring, text.as_bytes()) {
            Ok(()) => Ok(()),
            Err(error) => Err(RelayError::Feed(error)),
        },
        Err(_) => Err(RelayError::InvalidText),
    }
}

} // verus!
