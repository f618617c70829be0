//! The ring of frames that the serial receiver fills by DMA.
//!
//! The receiver writes each frame into the slot whose address was published
//! to it last. The write cursor names the slot that is published next, the
//! read cursor the slot that is relayed next. Nothing holds the write cursor
//! back: a receiver that runs a full lap ahead of the relay overwrites frames
//! that were never read, and no error is raised for it.

use crate::packet::Packet;
use crate::packet::FRAME_LEN;
use vstd::prelude::*;

verus! {

/// Number of frames in the ring.
pub const RING_SLOTS: usize = 10;

/// The ring as a sequence of frames and its two cursors.
#[verifier::ext_equal]
pub struct DmaRingView {
    pub frames: Seq<Packet>,
    pub write: int,
    pub read: int,
}

impl DmaRingView {
    pub open spec fn wf(self) -> bool {
        &&& self.frames.len() == RING_SLOTS
        &&& 0 <= self.write < RING_SLOTS
        &&& 0 <= self.read < RING_SLOTS
    }

    /// The ring at power-on: every frame zero, both cursors at slot 0.
    pub open spec fn initial() -> Self {
        DmaRingView {
            frames: Seq::new(RING_SLOTS as nat, |k: int| Packet { payload: [0u8; FRAME_LEN] }),
            write: 0,
            read: 0,
        }
    }

    /// The ring with the write cursor moved to the next slot, going round.
    pub open spec fn advanced(self) -> Self {
        DmaRingView { write: (self.write + 1) % (RING_SLOTS as int), ..self }
    }

    /// The ring with `frame` in `slot`.
    pub open spec fn stored(self, slot: int, frame: Packet) -> Self {
        DmaRingView { frames: self.frames.update(slot, frame), ..self }
    }

    /// The ring with the read cursor moved to the next slot, going round.
    pub open spec fn consumed(self) -> Self {
        DmaRingView { read: (self.read + 1) % (RING_SLOTS as int), ..self }
    }

    /// The ring after one transfer with nothing relayed: the slot under the
    /// write cursor was published and filled with `frame`, and the cursor
    /// moved on.
    pub open spec fn completed(self, frame: Packet) -> Self {
        self.advanced().stored(self.write, frame)
    }

    /// The ring after one transfer for each of `frames`, in order, with
    /// nothing relayed.
    pub open spec fn after_completions(self, frames: Seq<Packet>) -> Self
        decreases frames.len(),
    {
        if frames.len() == 0 {
            self
        } else {
            self.after_completions(frames.drop_last()).completed(frames.last())
        }
    }

    /// Transfers keep the ring well formed, leave the read cursor alone and
    /// move the write cursor by their number, going round.
    pub proof fn lemma_after_completions(self, frames: Seq<Packet>)
        requires
            self.wf(),
        ensures
            self.after_completions(frames).wf(),
            self.after_completions(frames).read == self.read,
            self.after_completions(frames).write
                == (self.write + frames.len()) % (RING_SLOTS as int),
        decreases frames.len(),
    {
        if frames.len() > 0 {
            self.lemma_after_completions(frames.drop_last());
        }
    }

    /// Ring wraparound. After as many transfers as the ring has slots, with
    /// nothing relayed, the write cursor is back where it started; one more
    /// transfer then lands in the slot that the first one filled and replaces
    /// that frame, read or not.
    pub proof fn lemma_wraparound(self, frames: Seq<Packet>)
        requires
            self.wf(),
            frames.len() == RING_SLOTS + 1,
        ensures
            self.after_completions(frames.take(1)).frames[self.write] == frames[0],
            self.after_completions(frames.take(RING_SLOTS as int)).write == self.write,
            self.after_completions(frames).frames[self.write] == frames[RING_SLOTS as int],
            self.after_completions(frames).write == (self.write + 1) % (RING_SLOTS as int),
            self.after_completions(frames).read == self.read,
    {
        let lap = frames.take(RING_SLOTS as int);
        assert(frames.drop_last() =~= lap);
        self.lemma_after_completions(lap);
        self.lemma_after_completions(frames);
        let first = frames.take(1);
        assert(first.drop_last() =~= Seq::<Packet>::empty());
        assert(first.last() == frames[0]);
        assert(self.after_completions(first.drop_last()) == self);
    }
}

/// The DMA receive ring.
pub struct DmaRing {
    frames: [Packet; RING_SLOTS],
    write: usize,
    read: usize,
}

impl View for DmaRing {
    type V = DmaRingView;

    closed spec fn view(&self) -> DmaRingView {
        DmaRingView { frames: self.frames@, write: self.write as int, read: self.read as int }
    }
}

impl DmaRing {
    #[verifier::type_invariant]
    spec fn inv(self) -> bool {
        self.write < RING_SLOTS && self.read < RING_SLOTS
    }

    /// A ring in its power-on state.
    pub fn new() -> (ring: DmaRing)
        ensures
            ring@ == DmaRingView::initial(),
    {
        let ring = DmaRing {
            frames: [Packet { payload: [0u8; FRAME_LEN] }; RING_SLOTS],
            write: 0,
            read: 0,
        };
        assert(ring@ =~= DmaRingView::initial());
        ring
    }

    /// Puts the ring back into its power-on state, whatever it held.
    pub fn reset(&mut self)
        ensures
            final(self)@ == DmaRingView::initial(),
    {
        *self = DmaRing::new();
    }

    /// Index of the slot that is published next.
    pub fn write_cursor(&self) -> (slot: usize)
        ensures
            slot == self@.write,
            slot < RING_SLOTS,
            self@.wf(),
    {
        proof {
            use_type_invariant(self);
        }
        self.write
    }

    /// Index of the slot that is relayed next.
    pub fn read_cursor(&self) -> (slot: usize)
        ensures
            slot == self@.read,
            slot < RING_SLOTS,
            self@.wf(),
    {
        proof {
            use_type_invariant(self);
        }
        self.read
    }

    /// Hands out the slot under the write cursor, whose address the caller
    /// publishes to the receiver as the target of its next transfer, and
    /// moves the cursor to the next slot, going round.
    pub fn advance_and_publish(&mut self) -> (slot: usize)
        ensures
            slot == old(self)@.write,
            slot < RING_SLOTS,
            final(self)@ == old(self)@.advanced(),
            final(self)@.wf(),
    {
        proof {
            use_type_invariant(&*self);
        }
        let slot: usize = self.write;
        self.write = (slot + 1) % RING_SLOTS;
        slot
    }

    /// Records in `slot` the frame that a transfer left there.
    pub fn store(&mut self, slot: usize, frame: Packet)
        requires
            slot < RING_SLOTS,
        ensures
            final(self)@ == old(self)@.stored(slot as int, frame),
            final(self)@.wf(),
    {
        proof {
            use_type_invariant(&*self);
        }
        self.frames[slot] = frame;
    }

    /// A copy of the frame in slot `index`.
    pub fn take_completed(&self, index: usize) -> (frame: Packet)
        requires
            index < RING_SLOTS,
        ensures
            frame == self@.frames[index as int],
    {
        self.frames[index]
    }

    /// Moves the read cursor to the next slot, going round, once the frame
    /// under it was relayed.
    pub fn advance_read(&mut self)
        ensures
            final(self)@ == old(self)@.consumed(),
            final(self)@.wf(),
    {
        proof {
            use_type_invariant(&*self);
        }
        self.read = (self.read + 1) % RING_SLOTS;
    }
}

} // verus!
