//! Reassembly of the received byte stream into sentences.
//!
//! The ring holds a fixed number of message slots. One of them is current and
//! takes the bytes as they arrive. A start marker closes it, which marks it
//! ready for the consumer, and opens the next slot that is not ready. The
//! marker itself is not stored. A ready slot is never written to until the
//! consumer has released it.
//!
//! A byte that finds no room is refused and dropped. [`parse`] stops at the
//! first byte that is refused; [`feed_all`] goes on with the bytes behind it,
//! so that of a sentence that is too long only the excess is lost.

use vstd::prelude::*;
use vstd::slice::slice_subrange;

verus! {

/// Number of message slots in the ring.
pub const MESSAGE_SLOTS: usize = 10;

/// Number of bytes that one message slot holds.
pub const MESSAGE_CAPACITY: usize = 256;

/// The byte `$`, with which every sentence starts.
pub const START_MARKER: u8 = 0x24;

/// Why a byte was not taken.
#[derive(Clone, Copy, Debug, PartialEq, Eq, Structural)]
pub enum FeedError {
    /// No slot is open: every slot holds a sentence that was not released.
    RingFull,
    /// The current sentence already fills its slot.
    SlotFull,
}

impl FeedError {
    /// The error in words, for a diagnostic sink.
    pub fn message(&self) -> (text: &'static str)
        ensures
            text@ == match *self {
                FeedError::RingFull => "NMEA parser ran out of message space!"@,
                FeedError::SlotFull => "NMEA sentence is longer than a message slot!"@,
            },
    {
        match self {
            FeedError::RingFull => "NMEA parser ran out of message space!",
            FeedError::SlotFull => "NMEA sentence is longer than a message slot!",
        }
    }
}

/// What the consumer sees of one slot.
#[verifier::ext_equal]
pub struct SlotView {
    /// The bytes of the sentence, without its start marker.
    pub text: Seq<u8>,
    /// Whether the sentence is complete and not yet released.
    pub ready: bool,
}

/// The ring as a sequence of slots and the index of the current one.
#[verifier::ext_equal]
pub struct RingView {
    pub slots: Seq<SlotView>,
    pub current: int,
}

/// The bytes of `text` that a slot has room for: all of them, or the first
/// `MESSAGE_CAPACITY`.
pub open spec fn cut_to_capacity(text: Seq<u8>) -> Seq<u8> {
    if text.len() <= MESSAGE_CAPACITY {
        text
    } else {
        text.take(MESSAGE_CAPACITY as int)
    }
}

impl RingView {
    pub open spec fn wf(self) -> bool {
        &&& self.slots.len() == MESSAGE_SLOTS
        &&& 0 <= self.current < MESSAGE_SLOTS
        &&& forall|k: int|
            0 <= k < MESSAGE_SLOTS ==> (#[trigger] self.slots[k]).text.len() <= MESSAGE_CAPACITY
    }

    /// The ring at power-on: every slot empty and not ready, slot 0 current.
    pub open spec fn initial() -> Self {
        RingView {
            slots: Seq::new(
                MESSAGE_SLOTS as nat,
                |k: int| SlotView { text: Seq::empty(), ready: false },
            ),
            current: 0,
        }
    }

    /// Index of the slot `distance` places after the current one, going round.
    pub open spec fn slot_after(self, distance: int) -> int {
        (self.current + distance) % (MESSAGE_SLOTS as int)
    }

    /// Every slot but the current one is ready.
    pub open spec fn others_all_ready(self) -> bool {
        forall|k: int|
            0 <= k < MESSAGE_SLOTS && k != self.current ==> (#[trigger] self.slots[k]).ready
    }

    /// The slot `distance` places after the current one is not ready, and
    /// all that lie between the two are.
    pub open spec fn is_next_free(self, distance: int) -> bool {
        &&& 1 <= distance < MESSAGE_SLOTS
        &&& !self.slots[self.slot_after(distance)].ready
        &&& forall|j: int| 1 <= j < distance ==> self.slots[#[trigger] self.slot_after(j)].ready
    }

    /// The first slot after the current one, going round, that is not ready.
    pub open spec fn next_free(self) -> int {
        self.slot_after(choose|distance: int| self.is_next_free(distance))
    }

    /// The ring with the current slot marked ready.
    pub open spec fn closed(self) -> Self {
        RingView {
            slots: self.slots.update(
                self.current,
                SlotView { text: self.slots[self.current].text, ready: true },
            ),
            current: self.current,
        }
    }

    /// The ring with `slot` emptied, not ready, and made current.
    pub open spec fn opened(self, slot: int) -> Self {
        RingView {
            slots: self.slots.update(slot, SlotView { text: Seq::empty(), ready: false }),
            current: slot,
        }
    }

    /// The ring with `byte` added to the current sentence.
    pub open spec fn appended(self, byte: u8) -> Self {
        RingView {
            slots: self.slots.update(
                self.current,
                SlotView {
                    text: self.slots[self.current].text.push(byte),
                    ready: self.slots[self.current].ready,
                },
            ),
            current: self.current,
        }
    }

    /// The ring with the ready flag of `slot` cleared, as the consumer leaves
    /// it when it is done with the sentence.
    pub open spec fn released(self, slot: int) -> Self {
        RingView {
            slots: self.slots.update(
                slot,
                SlotView { text: self.slots[slot].text, ready: false },
            ),
            current: self.current,
        }
    }

    /// Whether `byte` is taken, and if not, why.
    ///
    /// A start marker is refused when every other slot is ready. Any other
    /// byte is refused while the current slot is ready, and once it is full.
    pub open spec fn feed_result(self, byte: u8) -> Result<(), FeedError> {
        if byte == START_MARKER {
            if self.others_all_ready() {
                Err(FeedError::RingFull)
            } else {
                Ok(())
            }
        } else if self.slots[self.current].ready {
            Err(FeedError::RingFull)
        } else if self.slots[self.current].text.len() >= MESSAGE_CAPACITY {
            Err(FeedError::SlotFull)
        } else {
            Ok(())
        }
    }

    /// The ring after `byte` was fed to it.
    ///
    /// A start marker closes the current slot in any case, and opens the next
    /// free one if there is any. Any other byte is added to the current
    /// sentence if it is taken, and dropped if it is refused.
    pub open spec fn fed(self, byte: u8) -> Self {
        if byte == START_MARKER {
            if self.others_all_ready() {
                self.closed()
            } else {
                self.closed().opened(self.next_free())
            }
        } else if self.feed_result(byte) is Ok {
            self.appended(byte)
        } else {
            self
        }
    }

    /// Whether all of `bytes` are taken when fed in order, and if not, why
    /// the first of them that is refused is.
    pub open spec fn parse_result(self, bytes: Seq<u8>) -> Result<(), FeedError>
        decreases bytes.len(),
    {
        if bytes.len() == 0 {
            Ok(())
        } else if self.feed_result(bytes[0]) is Err {
            self.feed_result(bytes[0])
        } else {
            self.fed(bytes[0]).parse_result(bytes.skip(1))
        }
    }

    /// The ring after `bytes` were fed in order, up to and with the first
    /// that is refused.
    pub open spec fn parsed(self, bytes: Seq<u8>) -> Self
        decreases bytes.len(),
    {
        if bytes.len() == 0 {
            self
        } else if self.feed_result(bytes[0]) is Err {
            self.fed(bytes[0])
        } else {
            self.fed(bytes[0]).parsed(bytes.skip(1))
        }
    }

    /// The ring after every one of `bytes` was fed in order, whether it was
    /// taken or refused: a refused byte is dropped and the next one is fed.
    pub open spec fn fed_all(self, bytes: Seq<u8>) -> Self
        decreases bytes.len(),
    {
        if bytes.len() == 0 {
            self
        } else {
            self.fed(bytes[0]).fed_all(bytes.skip(1))
        }
    }

    /// At most one distance leads to the next free slot.
    pub proof fn lemma_next_free_unique(self, first: int, second: int)
        requires
            self.is_next_free(first),
            self.is_next_free(second),
        ensures
            first == second,
    {
        if first < second {
            assert(self.slots[self.slot_after(first)].ready);
        } else if second < first {
            assert(self.slots[self.slot_after(second)].ready);
        }
    }

    proof fn lemma_scan_finds_free(self, distance: int)
        requires
            self.wf(),
            !self.others_all_ready(),
            1 <= distance <= MESSAGE_SLOTS,
            forall|j: int| 1 <= j < distance ==> self.slots[#[trigger] self.slot_after(j)].ready,
        ensures
            exists|found: int| self.is_next_free(found),
        decreases MESSAGE_SLOTS - distance,
    {
        if distance == MESSAGE_SLOTS {
            assert forall|k: int| 0 <= k < MESSAGE_SLOTS && k != self.current implies (
            #[trigger] self.slots[k]).ready by {
                let j = (k - self.current + MESSAGE_SLOTS) % (MESSAGE_SLOTS as int);
                assert(self.slot_after(j) == k);
            }
        } else if !self.slots[self.slot_after(distance)].ready {
            assert(self.is_next_free(distance));
        } else {
            self.lemma_scan_finds_free(distance + 1);
        }
    }

    /// Unless all the other slots are ready, there is a next free slot: it is
    /// not the current one and it is not ready.
    pub proof fn lemma_next_free(self)
        requires
            self.wf(),
            !self.others_all_ready(),
        ensures
            exists|distance: int| self.is_next_free(distance),
            0 <= self.next_free() < MESSAGE_SLOTS,
            self.next_free() != self.current,
            !self.slots[self.next_free()].ready,
    {
        self.lemma_scan_finds_free(1);
    }

    /// Feeding a byte keeps the ring well formed.
    pub proof fn lemma_fed_wf(self, byte: u8)
        requires
            self.wf(),
        ensures
            self.fed(byte).wf(),
    {
        if byte == START_MARKER && !self.others_all_ready() {
            self.lemma_next_free();
        }
    }

    /// Slots are reused only when free. A slot that is ready is left as it is
    /// by whatever byte is fed, and a start marker that is taken makes some
    /// other slot current.
    pub proof fn lemma_ready_slot_kept(self, byte: u8, slot: int)
        requires
            self.wf(),
            0 <= slot < MESSAGE_SLOTS,
            self.slots[slot].ready,
        ensures
            self.fed(byte).slots[slot] == self.slots[slot],
            byte == START_MARKER && self.feed_result(byte) is Ok ==> self.fed(byte).current
                != slot,
    {
        if byte == START_MARKER && !self.others_all_ready() {
            self.lemma_next_free();
        }
    }

    /// A start marker is refused only once the ring is full: it is refused
    /// exactly when every slot but the current one is ready, and then that
    /// one is closed too, stays current, and every slot is ready.
    pub proof fn lemma_marker_refused_when_full(self)
        requires
            self.wf(),
        ensures
            self.feed_result(START_MARKER) is Err <==> self.others_all_ready(),
            self.feed_result(START_MARKER) is Err ==> {
                &&& self.feed_result(START_MARKER) == Err::<(), FeedError>(FeedError::RingFull)
                &&& self.fed(START_MARKER) == self.closed()
                &&& forall|k: int|
                    0 <= k < MESSAGE_SLOTS ==> (#[trigger] self.fed(START_MARKER).slots[k]).ready
            },
    {
    }

    /// With every slot ready, a start marker is refused and changes nothing.
    pub proof fn lemma_marker_on_full_ring(self)
        requires
            self.wf(),
            forall|k: int| 0 <= k < MESSAGE_SLOTS ==> (#[trigger] self.slots[k]).ready,
        ensures
            self.feed_result(START_MARKER) == Err::<(), FeedError>(FeedError::RingFull),
            self.fed(START_MARKER) == self,
    {
        assert(self.closed() =~= self);
    }

    /// Feeding a run of bytes keeps the ring well formed and leaves as it is
    /// every slot that was ready before: a sentence that the consumer has not
    /// released stays readable.
    pub proof fn lemma_parsed_keeps_ready_slots(self, bytes: Seq<u8>)
        requires
            self.wf(),
        ensures
            self.parsed(bytes).wf(),
            forall|k: int|
                0 <= k < MESSAGE_SLOTS && (#[trigger] self.slots[k]).ready
                    ==> self.parsed(bytes).slots[k] == self.slots[k],
        decreases bytes.len(),
    {
        if bytes.len() > 0 {
            let next = self.fed(bytes[0]);
            self.lemma_fed_wf(bytes[0]);
            assert forall|k: int| 0 <= k < MESSAGE_SLOTS && (#[trigger] self.slots[k]).ready implies
                next.slots[k] == self.slots[k] by {
                self.lemma_ready_slot_kept(bytes[0], k);
            }
            if self.feed_result(bytes[0]) is Ok {
                next.lemma_parsed_keeps_ready_slots(bytes.skip(1));
            }
        }
    }

    /// Feeding every byte of a run keeps the ring well formed and leaves as
    /// it is every slot that was ready before, whatever is refused on the way.
    pub proof fn lemma_fed_all_keeps_ready_slots(self, bytes: Seq<u8>)
        requires
            self.wf(),
        ensures
            self.fed_all(bytes).wf(),
            forall|k: int|
                0 <= k < MESSAGE_SLOTS && (#[trigger] self.slots[k]).ready
                    ==> self.fed_all(bytes).slots[k] == self.slots[k],
        decreases bytes.len(),
    {
        if bytes.len() > 0 {
            let next = self.fed(bytes[0]);
            self.lemma_fed_wf(bytes[0]);
            assert forall|k: int| 0 <= k < MESSAGE_SLOTS && (#[trigger] self.slots[k]).ready implies
                next.slots[k] == self.slots[k] by {
                self.lemma_ready_slot_kept(bytes[0], k);
            }
            next.lemma_fed_all_keeps_ready_slots(bytes.skip(1));
        }
    }

    /// Feeding every byte of one run and then of another is feeding every
    /// byte of the two in one.
    pub proof fn lemma_fed_all_concat(self, first: Seq<u8>, second: Seq<u8>)
        ensures
            self.fed_all(first + second) == self.fed_all(first).fed_all(second),
        decreases first.len(),
    {
        if first.len() == 0 {
            assert(first + second =~= second);
        } else {
            assert((first + second).skip(1) =~= first.skip(1) + second);
            self.fed(first[0]).lemma_fed_all_concat(first.skip(1), second);
        }
    }

    /// Where no byte of a run is refused, stopping at the first refusal and
    /// feeding every byte come to the same.
    pub proof fn lemma_parsed_is_fed_all(self, bytes: Seq<u8>)
        requires
            self.parse_result(bytes) is Ok,
        ensures
            self.parsed(bytes) == self.fed_all(bytes),
        decreases bytes.len(),
    {
        if bytes.len() > 0 {
            self.fed(bytes[0]).lemma_parsed_is_fed_all(bytes.skip(1));
        }
    }

    /// Of a sentence that is longer than a slot, only the bytes beyond the
    /// capacity are dropped. Bytes that hold no start marker, fed one and
    /// all to an open current slot, are added to its sentence as far as the
    /// slot has room. Nothing else changes.
    pub proof fn lemma_fed_all_body(self, body: Seq<u8>)
        requires
            self.wf(),
            !self.slots[self.current].ready,
            forall|i: int| 0 <= i < body.len() ==> body[i] != START_MARKER,
        ensures
            self.fed_all(body) == (RingView {
                slots: self.slots.update(
                    self.current,
                    SlotView {
                        text: cut_to_capacity(self.slots[self.current].text + body),
                        ready: false,
                    },
                ),
                current: self.current,
            }),
        decreases body.len(),
    {
        let text = self.slots[self.current].text;
        assert(text.len() <= MESSAGE_CAPACITY);
        if body.len() == 0 {
            assert(text + body =~= text);
            assert(self.fed_all(body) =~= self);
        } else {
            let next = self.fed(body[0]);
            self.lemma_fed_wf(body[0]);
            next.lemma_fed_all_body(body.skip(1));
            let kept = next.slots[self.current].text;
            assert(cut_to_capacity(kept + body.skip(1)) =~= cut_to_capacity(text + body)) by {
                if text.len() < MESSAGE_CAPACITY {
                    assert(kept + body.skip(1) =~= text + body);
                }
            }
            let cut = SlotView { text: cut_to_capacity(text + body), ready: false };
            assert(next.slots.update(self.current, cut) =~= self.slots.update(self.current, cut));
        }
    }

    /// A start marker that is taken, then a body of any length without
    /// markers, then another start marker, refused or not: the slot that the
    /// first marker opened is ready and holds the body, cut at the capacity
    /// of a slot.
    pub proof fn lemma_sentence_cut_at_capacity(self, body: Seq<u8>)
        requires
            self.wf(),
            !self.others_all_ready(),
            forall|i: int| 0 <= i < body.len() ==> body[i] != START_MARKER,
        ensures
            self.fed_all(seq![START_MARKER] + body + seq![START_MARKER]).slots[self.next_free()]
                == (SlotView { text: cut_to_capacity(body), ready: true }),
    {
        let marker = seq![START_MARKER];
        let opened = self.fed(START_MARKER);
        self.lemma_next_free();
        self.lemma_fed_wf(START_MARKER);
        assert(marker.skip(1) =~= Seq::<u8>::empty());
        assert(self.fed_all(marker) == opened) by {
            assert(opened.fed_all(Seq::<u8>::empty()) == opened);
        }
        opened.lemma_fed_all_body(body);
        assert(Seq::<u8>::empty() + body =~= body);
        let filled = opened.fed_all(body);
        self.lemma_fed_all_concat(marker, body);
        self.lemma_fed_all_concat(marker + body, marker);
        assert(filled.fed_all(marker) == filled.fed(START_MARKER)) by {
            let last = filled.fed(START_MARKER);
            assert(last.fed_all(Seq::<u8>::empty()) == last);
        }
        opened.lemma_fed_all_keeps_ready_slots(body);
        if !filled.others_all_ready() {
            filled.lemma_next_free();
        }
    }

    /// A start marker behind a refused byte is not lost: the byte is dropped
    /// and the marker acts on the ring as if it had come alone.
    pub proof fn lemma_marker_behind_refused_byte(self, byte: u8)
        requires
            byte != START_MARKER,
            self.feed_result(byte) is Err,
        ensures
            self.fed_all(seq![byte, START_MARKER]) == self.fed(START_MARKER),
            self.parse_result(seq![byte, START_MARKER]) == self.feed_result(byte),
    {
        let run = seq![byte, START_MARKER];
        let rest = run.skip(1);
        assert(rest.skip(1) =~= Seq::<u8>::empty());
        let last = self.fed(START_MARKER);
        assert(last.fed_all(rest.skip(1)) == last);
        assert(self.fed_all(rest) == last);
    }

    /// Feeding one run of bytes and then another is feeding the two in one,
    /// as long as the first run is taken in full.
    pub proof fn lemma_parsed_concat(self, first: Seq<u8>, second: Seq<u8>)
        requires
            self.parse_result(first) is Ok,
        ensures
            self.parsed(first + second) == self.parsed(first).parsed(second),
            self.parse_result(first + second) == self.parsed(first).parse_result(second),
        decreases first.len(),
    {
        if first.len() == 0 {
            assert(first + second =~= second);
        } else {
            assert((first + second).skip(1) =~= first.skip(1) + second);
            self.fed(first[0]).lemma_parsed_concat(first.skip(1), second);
        }
    }

    /// Bytes that hold no start marker are all added to the current sentence,
    /// in order, if the current slot is open and has room for them. Nothing
    /// else changes.
    pub proof fn lemma_parsed_body(self, body: Seq<u8>)
        requires
            self.wf(),
            !self.slots[self.current].ready,
            self.slots[self.current].text.len() + body.len() <= MESSAGE_CAPACITY,
            forall|i: int| 0 <= i < body.len() ==> body[i] != START_MARKER,
        ensures
            self.parse_result(body) is Ok,
            self.parsed(body) == (RingView {
                slots: self.slots.update(
                    self.current,
                    SlotView { text: self.slots[self.current].text + body, ready: false },
                ),
                current: self.current,
            }),
        decreases body.len(),
    {
        let text = self.slots[self.current].text;
        if body.len() == 0 {
            assert(text + body =~= text);
            assert(self.parsed(body) =~= self);
        } else {
            let next = self.fed(body[0]);
            next.lemma_parsed_body(body.skip(1));
            assert(text.push(body[0]) + body.skip(1) =~= text + body);
            assert(next.slots.update(
                self.current,
                SlotView { text: text + body, ready: false },
            ) =~= self.slots.update(self.current, SlotView { text: text + body, ready: false }));
        }
    }

    /// Sentence framing. A start marker that is taken, then a body without
    /// markers that fits a slot, then another start marker: the slot that the
    /// first marker opened is ready and holds exactly the body, and the slot
    /// that was current before holds what it held, closed.
    pub proof fn lemma_sentence_framed(self, body: Seq<u8>)
        requires
            self.wf(),
            !self.others_all_ready(),
            body.len() <= MESSAGE_CAPACITY,
            forall|i: int| 0 <= i < body.len() ==> body[i] != START_MARKER,
        ensures
            ({
                let after = self.parsed(seq![START_MARKER] + body + seq![START_MARKER]);
                &&& after.slots[self.next_free()] == SlotView { text: body, ready: true }
                &&& after.slots[self.current] == SlotView {
                    text: self.slots[self.current].text,
                    ready: true,
                }
            }),
    {
        let marker = seq![START_MARKER];
        let opened = self.fed(START_MARKER);
        self.lemma_next_free();
        self.lemma_fed_wf(START_MARKER);
        assert(marker.skip(1) =~= Seq::<u8>::empty());
        assert(self.parsed(marker) == opened && self.parse_result(marker) is Ok) by {
            assert(opened.parsed(Seq::<u8>::empty()) == opened);
            assert(opened.parse_result(Seq::<u8>::empty()) is Ok);
        }
        opened.lemma_parsed_body(body);
        assert(Seq::<u8>::empty() + body =~= body);
        let filled = opened.parsed(body);
        self.lemma_parsed_concat(marker, body);
        self.lemma_parsed_concat(marker + body, marker);
        assert(filled.parsed(marker) == filled.fed(START_MARKER)) by {
            let last = filled.fed(START_MARKER);
            assert(last.parsed(Seq::<u8>::empty()) == last);
        }
        filled.lemma_ready_slot_kept(START_MARKER, self.current);
        if !filled.others_all_ready() {
            filled.lemma_next_free();
        }
    }
}

#[derive(Clone, Copy)]
struct Message {
    buffer: [u8; MESSAGE_CAPACITY],
    write_index: usize,
    ready_to_read: bool,
}

impl Message {
    spec fn view(self) -> SlotView {
        SlotView { text: self.buffer@.take(self.write_index as int), ready: self.ready_to_read }
    }
}

/// The sentence reassembly ring.
pub struct SentenceRing {
    messages: [Message; MESSAGE_SLOTS],
    write_message_index: usize,
}

impl View for SentenceRing {
    type V = RingView;

    closed spec fn view(&self) -> RingView {
        RingView {
            slots: Seq::new(MESSAGE_SLOTS as nat, |k: int| self.messages@[k].view()),
            current: self.write_message_index as int,
        }
    }
}

impl SentenceRing {
    #[verifier::type_invariant]
    spec fn inv(self) -> bool {
        &&& self.write_message_index < MESSAGE_SLOTS
        &&& forall|k: int|
            0 <= k < MESSAGE_SLOTS ==> (#[trigger] self.messages@[k]).write_index
                <= MESSAGE_CAPACITY
    }

    proof fn lemma_view_wf(self)
        requires
            self.inv(),
        ensures
            self@.wf(),
    {
        assert forall|k: int| 0 <= k < MESSAGE_SLOTS implies (#[trigger] self@.slots[k]).text.len()
            <= MESSAGE_CAPACITY by {
            assert(self.messages@[k].write_index <= MESSAGE_CAPACITY);
        }
    }

    /// The view differs from `before` in the slot `changed` at most, and
    /// there it is `slot`.
    proof fn lemma_view_update(self, before: RingView, changed: int, slot: SlotView)
        requires
            before.wf(),
            0 <= changed < MESSAGE_SLOTS,
            self.messages@[changed].view() =~= slot,
            forall|k: int|
                0 <= k < MESSAGE_SLOTS && k != changed ==> (#[trigger] self.messages@[k]).view()
                    == before.slots[k],
        ensures
            self@.slots == before.slots.update(changed, slot),
    {
        assert(self@.slots =~= before.slots.update(changed, slot));
    }

    /// A ring in its power-on state.
    pub fn new() -> (ring: SentenceRing)
        ensures
            ring@ == RingView::initial(),
    {
        let ring = SentenceRing {
            messages: [Message {
                buffer: [0u8; MESSAGE_CAPACITY],
                write_index: 0,
                ready_to_read: false,
            }; MESSAGE_SLOTS],
            write_message_index: 0,
        };
        proof {
            assert forall|k: int| 0 <= k < MESSAGE_SLOTS implies ring@.slots[k]
                =~= RingView::initial().slots[k] by {
                assert(ring.messages@[k].write_index == 0);
            }
            assert(ring@ =~= RingView::initial());
        }
        ring
    }

    /// Puts the ring back into its power-on state, whatever it held.
    pub fn reset(&mut self)
        ensures
            final(self)@ == RingView::initial(),
    {
        *self = SentenceRing::new();
    }

    /// Index of the slot that takes the bytes.
    pub fn current(&self) -> (slot: usize)
        ensures
            slot == self@.current,
            slot < MESSAGE_SLOTS,
            self@.wf(),
    {
        proof {
            use_type_invariant(self);
            self.lemma_view_wf();
        }
        self.write_message_index
    }

    /// Whether `slot` holds a complete sentence that was not released.
    pub fn is_ready(&self, slot: usize) -> (ready: bool)
        requires
            slot < MESSAGE_SLOTS,
        ensures
            ready == self@.slots[slot as int].ready,
    {
        self.messages[slot].ready_to_read
    }

    /// The bytes of the sentence in `slot`, without its start marker.
    pub fn text(&self, slot: usize) -> (text: &[u8])
        requires
            slot < MESSAGE_SLOTS,
        ensures
            text@ == self@.slots[slot as int].text,
            text@.len() <= MESSAGE_CAPACITY,
    {
        proof {
            use_type_invariant(self);
        }
        let message = &self.messages[slot];
        slice_subrange(message.buffer.as_slice(), 0, message.write_index)
    }

    /// Clears the ready flag of `slot`: the consumer is done with the
    /// sentence, and a later start marker may open the slot again.
    pub fn release(&mut self, slot: usize)
        requires
            slot < MESSAGE_SLOTS,
        ensures
            final(self)@ == old(self)@.released(slot as int),
            final(self)@.wf(),
    {
        proof {
            use_type_invariant(&*self);
            self.lemma_view_wf();
        }
        self.messages[slot].ready_to_read = false;
        assert(self@ =~= old(self)@.released(slot as int));
    }

    /// Takes one byte of the stream.
    ///
    /// A start marker closes the current slot and opens the next one that is
    /// not ready, searching forward and round from the current one. If all
    /// the others are ready, the marker is refused with `RingFull` and no
    /// slot is opened. Any other byte is added to the current sentence;
    /// it is refused with `RingFull` while the current slot is ready, and
    /// with `SlotFull` once the slot holds `MESSAGE_CAPACITY` bytes.
    ///
    /// Whatever the byte, a slot that is ready stays as it is.
    pub fn feed(&mut self, byte: u8) -> (r: Result<(), FeedError>)
        ensures
            final(self)@ == old(self)@.fed(byte),
            r == old(self)@.feed_result(byte),
            final(self)@.wf(),
            forall|k: int|
                0 <= k < MESSAGE_SLOTS && (#[trigger] old(self)@.slots[k]).ready
                    ==> final(self)@.slots[k] == old(self)@.slots[k],
            byte == START_MARKER && r is Ok ==> !old(self)@.slots[final(self)@.current].ready,
            byte == START_MARKER ==> (r is Err <==> old(self)@.others_all_ready()),
            byte == START_MARKER && (forall|k: int|
                0 <= k < MESSAGE_SLOTS ==> (#[trigger] old(self)@.slots[k]).ready) ==> r is Err
                && final(self)@ == old(self)@,
    {
        proof {
            use_type_invariant(&*self);
            self.lemma_view_wf();
            self@.lemma_fed_wf(byte);
            let after = self@.fed(byte);
            assert forall|k: int|
                0 <= k < MESSAGE_SLOTS && (#[trigger] self@.slots[k]).ready implies after.slots[k]
                == self@.slots[k] by {
                self@.lemma_ready_slot_kept(byte, k);
            }
            if byte == START_MARKER {
                if !self@.others_all_ready() {
                    self@.lemma_next_free();
                } else if self@.slots[self@.current].ready {
                    self@.lemma_marker_on_full_ring();
                }
            }
        }
        let current: usize = self.write_message_index;
        if byte == START_MARKER {
            self.messages[current].ready_to_read = true;
            assert(self@ =~= old(self)@.closed());
            let mut distance: usize = 1;
            while distance <= MESSAGE_SLOTS
                invariant
                    1 <= distance <= MESSAGE_SLOTS + 1,
                    byte == START_MARKER,
                    current == old(self)@.current,
                    self.inv(),
                    old(self)@.wf(),
                    old(self)@.fed(byte).wf(),
                    self@ == old(self)@.closed(),
                    forall|j: int|
                        1 <= j < distance ==> self@.slots[#[trigger] old(self)@.slot_after(j)].ready,
                decreases MESSAGE_SLOTS + 1 - distance,
            {
                let candidate: usize = (current + distance) % MESSAGE_SLOTS;
                if !self.messages[candidate].ready_to_read {
                    proof {
                        assert(candidate == old(self)@.slot_after(distance as int));
                        assert(!self@.slots[candidate as int].ready);
                        assert(self@.slots[current as int].ready);
                        assert forall|j: int| 1 <= j < distance implies old(self)@.slots[
                            #[trigger] old(self)@.slot_after(j)].ready by {
                            assert(self@.slots[old(self)@.slot_after(j)].ready);
                        }
                        assert(old(self)@.is_next_free(distance as int));
                        old(self)@.lemma_next_free_unique(
                            choose|d: int| old(self)@.is_next_free(d),
                            distance as int,
                        );
                    }
                    let ghost closed = self@;
                    self.write_message_index = candidate;
                    self.messages[candidate].write_index = 0;
                    self.messages[candidate].ready_to_read = false;
                    proof {
                        self.lemma_view_update(
                            closed,
                            candidate as int,
                            SlotView { text: Seq::empty(), ready: false },
                        );
                    }
                    return Ok(());
                }
                distance += 1;
            }
            proof {
                assert forall|k: int| 0 <= k < MESSAGE_SLOTS && k != current implies (
                #[trigger] old(self)@.slots[k]).ready by {
                    let j = (k - current + MESSAGE_SLOTS) % (MESSAGE_SLOTS as int);
                    assert(old(self)@.slot_after(j) == k);
                    assert(self@.slots[old(self)@.slot_after(j)].ready);
                }
            }
            Err(FeedError::RingFull)
        } else if self.messages[current].ready_to_read {
            Err(FeedError::RingFull)
        } else {
            let cursor: usize = self.messages[current].write_index;
            if cursor >= MESSAGE_CAPACITY {
                Err(FeedError::SlotFull)
            } else {
                self.messages[current].buffer[cursor] = byte;
                self.messages[current].write_index = cursor + 1;
                proof {
                    self.lemma_view_update(
                        old(self)@,
                        current as int,
                        old(self)@.appended(byte).slots[current as int],
                    );
                }
                Ok(())
            }
        }
    }
}

/// Feeds one byte inside `critical_section::with`, so that nothing else that
/// honours critical sections runs while a slot is closed and the next opened.
///
/// Not proved: that `with` calls the closure it is given exactly once and
/// hands back what the closure returned. The contract is that of
/// [`SentenceRing::feed`], which is all the closure calls.
#[verifier::external_body]
fn feed_in_critical_section(ring: &mut SentenceRing, byte: u8) -> (r: Result<(), FeedError>)
    ensures
        final(ring)@ == old(ring)@.fed(byte),
        r == old(ring)@.feed_result(byte),
{
    critical_section::with(|_cs| ring.feed(byte))
}

/// Feeds `chars` to the ring in order, each inside a critical section of its
/// own, and stops at the first byte that the ring refuses.
///
/// Whatever the bytes, a slot that was ready before stays as it was.
pub fn parse(ring: &mut SentenceRing, chars: &[u8]) -> (r: Result<(), FeedError>)
    ensures
        final(ring)@ == old(ring)@.parsed(chars@),
        r == old(ring)@.parse_result(chars@),
        final(ring)@.wf(),
        forall|k: int|
            0 <= k < MESSAGE_SLOTS && (#[trigger] old(ring)@.slots[k]).ready
                ==> final(ring)@.slots[k] == old(ring)@.slots[k],
{
    proof {
        use_type_invariant(&*ring);
        ring.lemma_view_wf();
        ring@.lemma_parsed_keeps_ready_slots(chars@);
        assert(chars@.skip(0) =~= chars@);
    }
    let mut consumed: usize = 0;
    while consumed < chars.len()
        invariant
            consumed <= chars.len(),
            ring@.parsed(chars@.skip(consumed as int)) == old(ring)@.parsed(chars@),
            ring@.parse_result(chars@.skip(consumed as int)) == old(ring)@.parse_result(chars@),
            old(ring)@.parsed(chars@).wf(),
            forall|k: int|
                0 <= k < MESSAGE_SLOTS && (#[trigger] old(ring)@.slots[k]).ready
                    ==> old(ring)@.parsed(chars@).slots[k] == old(ring)@.slots[k],
        decreases chars.len() - consumed,
    {
        proof {
            let rest = chars@.skip(consumed as int);
            assert(rest[0] == chars@[consumed as int]);
            assert(rest.skip(1) =~= chars@.skip(consumed + 1));
        }
        match feed_in_critical_section(ring, chars[consumed]) {
            Ok(()) => {},
            Err(error) => {
                return Err(error);
            },
        }
        consumed += 1;
    }
    Ok(())
}

/// Feeds every byte of `bytes` to the ring in order, each inside a critical
/// section of its own. A byte that the ring refuses is dropped and the next
/// one is fed, so that a start marker behind it still ends the sentence. The
/// result is `Ok` if every byte was taken, and the first refusal otherwise.
///
/// Whatever the bytes, a slot that was ready before stays as it was.
pub fn feed_all(ring: &mut SentenceRing, bytes: &[u8]) -> (r: Result<(), FeedError>)
    ensures
        final(ring)@ == old(ring)@.fed_all(bytes@),
        r == old(ring)@.parse_result(bytes@),
        final(ring)@.wf(),
        forall|k: int|
            0 <= k < MESSAGE_SLOTS && (#[trigger] old(ring)@.slots[k]).ready
                ==> final(ring)@.slots[k] == old(ring)@.slots[k],
{
    proof {
        use_type_invariant(&*ring);
        ring.lemma_view_wf();
        ring@.lemma_fed_all_keeps_ready_slots(bytes@);
        assert(bytes@.skip(0) =~= bytes@);
    }
    let mut refused: Option<FeedError> = None;
    let mut fed: usize = 0;
    while fed < bytes.len()
        invariant
            fed <= bytes.len(),
            ring@.fed_all(bytes@.skip(fed as int)) == old(ring)@.fed_all(bytes@),
            refused is None ==> ring@.parse_result(bytes@.skip(fed as int))
                == old(ring)@.parse_result(bytes@),
            refused matches Some(error) ==> old(ring)@.parse_result(bytes@)
                == Err::<(), FeedError>(error),
        decreases bytes.len() - fed,
    {
        proof {
            let rest = bytes@.skip(fed as int);
            assert(rest[0] == bytes@[fed as int]);
            assert(rest.skip(1) =~= bytes@.skip(fed + 1));
        }
        match feed_in_critical_section(ring, bytes[fed]) {
            Ok(()) => {},
            Err(error) => {
                if refused.is_none() {
                    refused = Some(error);
                }
            },
        }
        fed += 1;
    }
    match refused {
        None => Ok(()),
        Some(error) => Err(error),
    }
}

} // verus!
