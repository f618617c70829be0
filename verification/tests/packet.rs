use gps_tracker::packet::Packet;
use gps_tracker::packet::FRAME_LEN;

#[test]
fn frame_length_is_five() {
    assert_eq!(FRAME_LEN, 5);
}

#[test]
fn ascii_frame_is_text() {
    let packet = Packet { payload: *b"$GPGG" };
    assert_eq!(packet.as_str(), Ok("$GPGG"));
}

#[test]
fn zero_frame_is_text() {
    let packet = Packet { payload: [0; 5] };
    assert_eq!(packet.as_str(), Ok("\0\0\0\0\0"));
}

#[test]
fn multi_byte_character_is_text() {
    let packet = Packet { payload: [0xC3, 0xA9, b'a', b'b', b'c'] };
    let text = packet.as_str().unwrap();
    assert_eq!(text, "\u{e9}abc");
    assert_eq!(text.as_bytes(), &packet.payload);
}

#[test]
fn stray_high_byte_is_not_text() {
    let packet = Packet { payload: [b'A', 0xff, b'B', b'C', b'D'] };
    assert_eq!(packet.as_str(), Err("Packet contains non-ascii characters!"));
}

#[test]
fn character_cut_by_frame_end_is_not_text() {
    let packet = Packet { payload: [b'a', b'b', b'c', b'd', 0xC3] };
    assert_eq!(packet.as_str(), Err("Packet contains non-ascii characters!"));
}

#[test]
fn overlong_encoding_is_not_text() {
    let packet = Packet { payload: [0xC0, 0x80, b'a', b'b', b'c'] };
    assert!(packet.as_str().is_err());
}

#[test]
fn surrogate_is_not_text() {
    let packet = Packet { payload: [0xED, 0xA0, 0x80, b'a', b'b'] };
    assert!(packet.as_str().is_err());
}

#[test]
fn packet_is_copied_by_value() {
    let packet = Packet { payload: [1, 2, 3, 4, 5] };
    let mut copy = packet;
    copy.payload[0] = 9;
    assert_eq!(packet.payload, [1, 2, 3, 4, 5]);
    assert_eq!(copy.payload, [9, 2, 3, 4, 5]);
}
