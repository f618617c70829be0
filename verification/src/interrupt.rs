//! What the receiver's interrupt handler decides.
//!
//! The handler reads the event flags of the serial receiver, hands them to
//! [`Receiver::on_interrupt`], carries out what the response asks for and
//! clears the flags it was given. It is expected to do all of this inside
//! one critical section, so that nothing else touches the receiver or the
//! rings meanwhile.

use crate::dma_ring::DmaRing;
use crate::dma_ring::DmaRingView;
use crate::nmea_parser::RingView;
use crate::nmea_parser::SentenceRing;
use crate::nmea_parser::MESSAGE_SLOTS;
use crate::packet::Packet;
use crate::relay::relay;
use crate::relay::RelayError;
use vstd::prelude::*;

verus! {

/// The events that are pending when the handler is entered.
#[derive(Clone, Copy, Debug, PartialEq, Eq)]
pub struct PendingEvents {
    /// The receiver has started a transfer and latched its target.
    pub rx_started: bool,
    /// The receiver met a line error.
    pub error: bool,
    /// The receiver has completed a transfer; with it, the frame that the
    /// transfer left in the slot under the read cursor.
    pub end_rx: Option<Packet>,
}

/// What the handler is to do, in this order, before it returns.
#[derive(Clone, Copy, Debug, PartialEq, Eq)]
pub struct Response {
    /// The slot whose address goes into the target register of the receiver.
    pub publish: Option<usize>,
    /// Whether the receiver is told to flush what it holds of a broken frame.
    pub flush: bool,
    /// How relaying the completed frame went, for the diagnostic sink.
    pub relayed: Option<Result<(), RelayError>>,
}

/// The state of the receive path: both rings.
pub struct Receiver {
    pub dma: DmaRing,
    pub sentences: SentenceRing,
}

impl PendingEvents {
    /// The DMA ring after the handler has run on these events.
    pub open spec fn dma_after(self, dma: DmaRingView) -> DmaRingView {
        let published = if self.rx_started {
            dma.advanced()
        } else {
            dma
        };
        match self.end_rx {
            Some(frame) => published.stored(dma.read, frame).consumed(),
            None => published,
        }
    }

    /// The sentence ring after the handler has run on these events.
    pub open spec fn sentences_after(self, sentences: RingView) -> RingView {
        match self.end_rx {
            Some(frame) => sentences.relayed(frame),
            None => sentences,
        }
    }

    /// What the handler is asked to do on these events.
    pub open spec fn response(self, dma: DmaRingView, sentences: RingView) -> Response {
        Response {
            publish: if self.rx_started {
                Some(dma.write as usize)
            } else {
                None
            },
            flush: self.error,
            relayed: match self.end_rx {
                Some(frame) => Some(sentences.relay_result(frame)),
                None => None,
            },
        }
    }
}

impl Receiver {
    /// Both rings in their power-on state.
    pub fn new() -> (receiver: Receiver)
        ensures
            receiver.is_power_on(),
    {
        Receiver { dma: DmaRing::new(), sentences: SentenceRing::new() }
    }

    /// Puts both rings back into their power-on state. Nothing of what they
    /// held before is left: the result is the same after any history.
    pub fn reset(&mut self)
        ensures
            final(self).is_power_on(),
    {
        self.dma.reset();
        self.sentences.reset();
    }

    /// The state at power-on: every cursor at 0, every frame zero, every slot
    /// empty and not ready.
    pub open spec fn is_power_on(&self) -> bool {
        &&& self.dma@ == DmaRingView::initial()
        &&& self.sentences@ == RingView::initial()
        &&& self.dma@.write == 0
        &&& self.dma@.read == 0
        &&& self.sentences@.current == 0
        &&& forall|k: int|
            0 <= k < MESSAGE_SLOTS ==> !(#[trigger] self.sentences@.slots[k]).ready
                && self.sentences@.slots[k].text.len() == 0
    }

    /// Handles every pending event, in a fixed order.
    ///
    /// 1. Transfer started: the slot under the write cursor is handed out for
    ///    publishing and the cursor moves on.
    /// 2. Line error: the receiver is to be flushed. The rings stay as they are.
    /// 3. Transfer completed: the frame is recorded in the slot under the read
    ///    cursor, relayed to the sentence ring, and the read cursor moves on.
    ///
    /// A frame that cannot be relayed is reported in the response and never
    /// stops the handler.
    pub fn on_interrupt(&mut self, pending: PendingEvents) -> (response: Response)
        ensures
            final(self).dma@ == pending.dma_after(old(self).dma@),
            final(self).sentences@ == pending.sentences_after(old(self).sentences@),
            response == pending.response(old(self).dma@, old(self).sentences@),
            forall|k: int|
                0 <= k < MESSAGE_SLOTS && (#[trigger] old(self).sentences@.slots[k]).ready
                    ==> final(self).sentences@.slots[k] == old(self).sentences@.slots[k],
    {
        let publish = if pending.rx_started {
            Some(self.dma.advance_and_publish())
        } else {
            None
        };
        let relayed = match pending.end_rx {
            Some(frame) => {
                let index: usize = self.dma.read_cursor();
                self.dma.store(index, frame);
                let data = self.dma.take_completed(index);
                let outcome = relay(&mut self.sentences, &data);
                self.dma.advance_read();
                Some(outcome)
            },
            None => None,
        };
        Response { publish, flush: pending.error, relayed }
    }
}

} // verus!
