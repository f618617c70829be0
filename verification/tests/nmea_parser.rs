use gps_tracker::nmea_parser::feed_all;
use gps_tracker::nmea_parser::parse;
use gps_tracker::nmea_parser::FeedError;
use gps_tracker::nmea_parser::SentenceRing;
use gps_tracker::nmea_parser::MESSAGE_CAPACITY;
use gps_tracker::nmea_parser::MESSAGE_SLOTS;
use gps_tracker::nmea_parser::START_MARKER;

fn ready_slots(ring: &SentenceRing) -> Vec<usize> {
    (0..MESSAGE_SLOTS).filter(|&slot| ring.is_ready(slot)).collect()
}

fn snapshot(ring: &SentenceRing) -> Vec<(Vec<u8>, bool)> {
    (0..MESSAGE_SLOTS).map(|slot| (ring.text(slot).to_vec(), ring.is_ready(slot))).collect()
}

/// A ring in which every slot is ready; slot `k` holds the one byte `b'a' + k`.
fn full_ring() -> SentenceRing {
    let mut ring = SentenceRing::new();
    assert_eq!(parse(&mut ring, b"a$b$c$d$e$f$g$h$i$j"), Ok(()));
    assert_eq!(ring.feed(START_MARKER), Err(FeedError::RingFull));
    ring
}

#[test]
fn constants_are_as_documented() {
    assert_eq!(MESSAGE_SLOTS, 10);
    assert_eq!(MESSAGE_CAPACITY, 256);
    assert_eq!(START_MARKER, b'$');
}

#[test]
fn new_ring_is_empty() {
    let ring = SentenceRing::new();
    assert_eq!(ring.current(), 0);
    for slot in 0..MESSAGE_SLOTS {
        assert!(!ring.is_ready(slot));
        assert!(ring.text(slot).is_empty());
    }
}

#[test]
fn sentence_framing() {
    let mut ring = SentenceRing::new();
    assert_eq!(parse(&mut ring, b"$ABCD$EFGH"), Ok(()));
    assert_eq!(ready_slots(&ring), vec![0, 1]);
    assert_eq!(ring.text(0), b"");
    assert_eq!(ring.text(1), b"ABCD");
    assert_eq!(ring.current(), 2);
    assert!(!ring.is_ready(2));
    assert_eq!(ring.text(2), b"EFGH");
}

#[test]
fn sentence_framing_after_closing_marker() {
    let mut ring = SentenceRing::new();
    assert_eq!(parse(&mut ring, b"$ABCD$EFGH"), Ok(()));
    ring.release(0);
    assert_eq!(ring.feed(START_MARKER), Ok(()));
    assert_eq!(ready_slots(&ring), vec![1, 2]);
    assert_eq!(ring.text(1), b"ABCD");
    assert_eq!(ring.text(2), b"EFGH");
    assert_eq!(ring.current(), 3);
}

#[test]
fn marker_is_not_stored() {
    let mut ring = SentenceRing::new();
    assert_eq!(ring.feed(START_MARKER), Ok(()));
    assert_eq!(ring.current(), 1);
    assert!(ring.text(1).is_empty());
    assert_eq!(ring.feed(b'G'), Ok(()));
    assert_eq!(ring.text(1), b"G");
}

#[test]
fn bytes_before_the_first_marker_fill_slot_zero() {
    let mut ring = SentenceRing::new();
    assert_eq!(parse(&mut ring, b"xy"), Ok(()));
    assert_eq!(ring.current(), 0);
    assert_eq!(ring.text(0), b"xy");
    assert!(!ring.is_ready(0));
    assert_eq!(ring.feed(START_MARKER), Ok(()));
    assert!(ring.is_ready(0));
    assert_eq!(ring.text(0), b"xy");
}

#[test]
fn marker_skips_ready_slots() {
    let mut ring = SentenceRing::new();
    assert_eq!(parse(&mut ring, b"a$b$c$"), Ok(()));
    assert_eq!(ring.current(), 3);
    assert_eq!(ready_slots(&ring), vec![0, 1, 2]);
    assert_eq!(parse(&mut ring, b"d$e$f$g$h$i$j"), Ok(()));
    assert_eq!(ring.current(), 9);
    ring.release(1);
    assert_eq!(ring.feed(START_MARKER), Ok(()));
    assert_eq!(ring.current(), 1);
    assert!(ring.text(1).is_empty());
    assert_eq!(ready_slots(&ring), vec![0, 2, 3, 4, 5, 6, 7, 8, 9]);
    assert_eq!(ring.text(0), b"a");
    assert_eq!(ring.text(2), b"c");
    assert_eq!(ring.text(9), b"j");
}

#[test]
fn overflow_only_once_all_slots_are_ready() {
    let mut ring = SentenceRing::new();
    for opened in 1..MESSAGE_SLOTS {
        assert_eq!(ring.feed(START_MARKER), Ok(()));
        assert_eq!(ring.current(), opened);
        assert_eq!(ready_slots(&ring).len(), opened);
    }
    assert_eq!(ring.feed(START_MARKER), Err(FeedError::RingFull));
    assert_eq!(ready_slots(&ring).len(), MESSAGE_SLOTS);
    assert_eq!(ring.current(), 9);
}

#[test]
fn overflow_closes_the_current_sentence() {
    let mut ring = SentenceRing::new();
    assert_eq!(parse(&mut ring, b"$$$$$$$$$last"), Ok(()));
    assert_eq!(ring.current(), 9);
    assert!(!ring.is_ready(9));
    assert_eq!(ring.feed(START_MARKER), Err(FeedError::RingFull));
    assert!(ring.is_ready(9));
    assert_eq!(ring.text(9), b"last");
    assert_eq!(ring.current(), 9);
}

#[test]
fn marker_on_full_ring_changes_nothing() {
    let mut ring = full_ring();
    let before = snapshot(&ring);
    let current = ring.current();
    assert_eq!(ring.feed(START_MARKER), Err(FeedError::RingFull));
    assert_eq!(snapshot(&ring), before);
    assert_eq!(ring.current(), current);
    for slot in 0..MESSAGE_SLOTS {
        assert!(ring.is_ready(slot));
        assert_eq!(ring.text(slot), &[b'a' + slot as u8]);
    }
}

#[test]
fn byte_on_full_ring_is_dropped() {
    let mut ring = full_ring();
    let before = snapshot(&ring);
    assert_eq!(ring.feed(b'X'), Err(FeedError::RingFull));
    assert_eq!(snapshot(&ring), before);
}

#[test]
fn released_slot_is_opened_again() {
    let mut ring = full_ring();
    ring.release(4);
    assert!(!ring.is_ready(4));
    assert_eq!(ring.text(4), b"e");
    assert_eq!(ring.feed(START_MARKER), Ok(()));
    assert_eq!(ring.current(), 4);
    assert!(ring.text(4).is_empty());
    assert_eq!(parse(&mut ring, b"GPRMC"), Ok(()));
    assert_eq!(ring.text(4), b"GPRMC");
    assert_eq!(ring.feed(START_MARKER), Err(FeedError::RingFull));
    assert!(ring.is_ready(4));
    assert_eq!(ring.text(4), b"GPRMC");
}

#[test]
fn release_keeps_text_and_other_slots() {
    let mut ring = full_ring();
    let before = snapshot(&ring);
    ring.release(7);
    let after = snapshot(&ring);
    for slot in 0..MESSAGE_SLOTS {
        assert_eq!(after[slot].0, before[slot].0);
        assert_eq!(after[slot].1, slot != 7);
    }
}

#[test]
fn slot_takes_exactly_its_capacity() {
    let mut ring = SentenceRing::new();
    for count in 0..MESSAGE_CAPACITY {
        assert_eq!(ring.feed((count % 200) as u8 + 40), Ok(()));
    }
    assert_eq!(ring.text(0).len(), 256);
    assert_eq!(ring.feed(b'!'), Err(FeedError::SlotFull));
    assert_eq!(ring.text(0).len(), 256);
    assert_eq!(ring.text(0)[255], (255 % 200) as u8 + 40);
    assert_eq!(ring.text(0)[0], 40);
    assert!(ring.text(1).is_empty());
    assert_eq!(ring.current(), 0);
    assert!(!ring.is_ready(0));
}

#[test]
fn marker_ends_an_overlong_sentence() {
    let mut ring = SentenceRing::new();
    let long = [b'z'; 300];
    assert_eq!(parse(&mut ring, &long[..256]), Ok(()));
    assert_eq!(ring.feed(b'z'), Err(FeedError::SlotFull));
    assert_eq!(ring.feed(START_MARKER), Ok(()));
    assert!(ring.is_ready(0));
    assert_eq!(ring.text(0), &long[..256]);
    assert_eq!(ring.current(), 1);
    assert_eq!(ring.feed(b'k'), Ok(()));
    assert_eq!(ring.text(1), b"k");
}

#[test]
fn parse_stops_at_the_first_refused_byte() {
    let mut ring = SentenceRing::new();
    let mut bytes = vec![b'q'; 256];
    bytes.extend_from_slice(b"r$s");
    assert_eq!(parse(&mut ring, &bytes), Err(FeedError::SlotFull));
    assert_eq!(ring.current(), 0);
    assert!(!ring.is_ready(0));
    assert_eq!(ring.text(0), &[b'q'; 256]);
    assert!(ring.text(1).is_empty());
}

#[test]
fn parse_of_nothing_changes_nothing() {
    let mut ring = SentenceRing::new();
    assert_eq!(parse(&mut ring, b"$AB"), Ok(()));
    let before = snapshot(&ring);
    assert_eq!(parse(&mut ring, b""), Ok(()));
    assert_eq!(snapshot(&ring), before);
    assert_eq!(ring.current(), 1);
}

#[test]
fn parse_equals_feeding_byte_by_byte() {
    let bytes = b"noise$GPGGA,1$GPRMC,2$";
    let mut whole = SentenceRing::new();
    assert_eq!(parse(&mut whole, bytes), Ok(()));
    let mut single = SentenceRing::new();
    for &byte in bytes.iter() {
        assert_eq!(single.feed(byte), Ok(()));
    }
    assert_eq!(snapshot(&whole), snapshot(&single));
    assert_eq!(whole.current(), single.current());
    assert_eq!(whole.text(0), b"noise");
    assert_eq!(whole.text(1), b"GPGGA,1");
    assert_eq!(whole.text(2), b"GPRMC,2");
    assert_eq!(whole.current(), 3);
}

#[test]
fn parse_reports_ring_overflow() {
    let mut ring = SentenceRing::new();
    assert_eq!(parse(&mut ring, b"0$1$2$3$4$5$6$7$8$9$A$B"), Err(FeedError::RingFull));
    assert_eq!(ready_slots(&ring).len(), MESSAGE_SLOTS);
    assert_eq!(ring.text(9), b"9");
    assert_eq!(ring.text(0), b"0");
    assert_eq!(ring.current(), 9);
}

#[test]
fn sentence_ring_reset_restores_power_on_state() {
    let mut ring = full_ring();
    ring.reset();
    assert_eq!(ring.current(), 0);
    for slot in 0..MESSAGE_SLOTS {
        assert!(!ring.is_ready(slot));
        assert!(ring.text(slot).is_empty());
    }
    assert_eq!(parse(&mut ring, b"$AB"), Ok(()));
    assert_eq!(ring.text(1), b"AB");
}

#[test]
fn error_messages() {
    assert_eq!(FeedError::RingFull.message(), "NMEA parser ran out of message space!");
    assert_eq!(FeedError::SlotFull.message(), "NMEA sentence is longer than a message slot!");
}

#[test]
fn feed_all_goes_on_behind_a_refused_byte() {
    let mut bytes = vec![b'q'; 256];
    bytes.extend_from_slice(b"r$s");
    let mut ring = SentenceRing::new();
    assert_eq!(feed_all(&mut ring, &bytes), Err(FeedError::SlotFull));
    assert!(ring.is_ready(0));
    assert_eq!(ring.text(0), &[b'q'; 256]);
    assert_eq!(ring.current(), 1);
    assert_eq!(ring.text(1), b"s");
    assert!(!ring.is_ready(1));
}

#[test]
fn feed_all_equals_feeding_byte_by_byte() {
    let mut bytes = vec![b'$'; 9];
    bytes.extend_from_slice(&[b'w'; 260]);
    bytes.extend_from_slice(b"$tail$");
    let mut whole = SentenceRing::new();
    let result = feed_all(&mut whole, &bytes);
    let mut single = SentenceRing::new();
    let mut first = Ok(());
    for &byte in bytes.iter() {
        let fed = single.feed(byte);
        if first.is_ok() {
            first = fed;
        }
    }
    assert_eq!(result, first);
    assert_eq!(result, Err(FeedError::SlotFull));
    assert_eq!(snapshot(&whole), snapshot(&single));
    assert_eq!(whole.current(), single.current());
    assert_eq!(whole.current(), 9);
    assert_eq!(whole.text(9), &[b'w'; 256]);
    assert_eq!(ready_slots(&whole).len(), MESSAGE_SLOTS);
}

#[test]
fn feed_all_equals_parse_where_nothing_is_refused() {
    let bytes = b"noise$GPGGA,1$GPRMC,2$";
    let mut all = SentenceRing::new();
    assert_eq!(feed_all(&mut all, bytes), Ok(()));
    let mut stopping = SentenceRing::new();
    assert_eq!(parse(&mut stopping, bytes), Ok(()));
    assert_eq!(snapshot(&all), snapshot(&stopping));
    assert_eq!(all.current(), stopping.current());
}

#[test]
fn overlong_sentence_is_cut_at_capacity() {
    let mut bytes = vec![b'$'];
    bytes.extend((0..300u32).map(|count| b'0' + (count % 10) as u8));
    bytes.push(b'$');
    let mut ring = SentenceRing::new();
    assert_eq!(feed_all(&mut ring, &bytes), Err(FeedError::SlotFull));
    assert!(ring.is_ready(1));
    assert_eq!(ring.text(1), &bytes[1..257]);
    assert_eq!(ring.current(), 2);
    assert!(ring.text(2).is_empty());
}

#[test]
fn feed_all_of_nothing_changes_nothing() {
    let mut ring = SentenceRing::new();
    assert_eq!(parse(&mut ring, b"$AB"), Ok(()));
    let before = snapshot(&ring);
    assert_eq!(feed_all(&mut ring, b""), Ok(()));
    assert_eq!(snapshot(&ring), before);
    assert_eq!(ring.current(), 1);
}
