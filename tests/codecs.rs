use simple_stream::checksum32::MAX_PAYLOAD as CHECKSUM_MAX_PAYLOAD;
use simple_stream::simple::{END, MAX_PAYLOAD as SIMPLE_MAX_PAYLOAD, START};
use simple_stream::{
    from_slice, Checksum32Frame, Checksum32FrameBuilder, Frame, FrameBuilder, FrameType, OpType,
    SimpleFrame, SimpleFrameBuilder, WebSocketFrame, WebSocketFrameBuilder,
};

#[test]
fn simple_encode_four_bytes() {
    let frame = SimpleFrame::new(&[1, 2, 3, 4]);
    assert_eq!(frame.to_bytes(), vec![0x01, 0x00, 0x04, 1, 2, 3, 4, 0x17]);
    assert_eq!(frame.len_as_vec(), 8);
    assert_eq!(frame.payload(), vec![1, 2, 3, 4]);
}

#[test]
fn simple_from_slice_matches_frame() {
    let payload: Vec<u8> = (0..300u32).map(|i| (i % 251) as u8).collect();
    let bytes = from_slice(&payload);
    assert_eq!(bytes, SimpleFrame::new(&payload).to_bytes());
    assert_eq!(bytes[0], START);
    assert_eq!(bytes[1], 1);
    assert_eq!(bytes[2], 44);
    assert_eq!(*bytes.last().unwrap(), END);
    assert_eq!(bytes.len(), 304);
}

#[test]
fn simple_round_trip_keeps_rest() {
    let mut buf = SimpleFrame::new(&[9, 8, 7]).to_bytes();
    buf.extend_from_slice(&[0x01, 0x00]);
    let frame = SimpleFrameBuilder::from_bytes(&mut buf).unwrap();
    assert_eq!(frame.payload(), vec![9, 8, 7]);
    assert_eq!(buf, vec![0x01, 0x00]);
}

#[test]
fn simple_round_trip_empty_payload() {
    let mut buf = SimpleFrame::new(&[]).to_bytes();
    assert_eq!(buf, vec![0x01, 0x00, 0x00, 0x17]);
    let frame = SimpleFrameBuilder::from_bytes(&mut buf).unwrap();
    assert!(frame.payload().is_empty());
    assert!(buf.is_empty());
}

#[test]
fn simple_round_trip_largest_payload() {
    let payload = vec![0xAB; SIMPLE_MAX_PAYLOAD];
    let frame = SimpleFrame::new(&payload);
    let mut buf = frame.to_bytes();
    assert_eq!(buf.len(), SIMPLE_MAX_PAYLOAD + 4);
    assert_eq!(frame.len_as_vec(), SIMPLE_MAX_PAYLOAD + 4);
    assert_eq!(&buf[1..3], &[0xFF, 0xFF]);
    let decoded = SimpleFrameBuilder::from_bytes(&mut buf).unwrap();
    assert_eq!(decoded.payload(), payload);
    assert!(buf.is_empty());
}

#[test]
fn simple_incomplete_leaves_buffer() {
    let full = SimpleFrame::new(&[5, 6, 7]).to_bytes();
    for cut in 0..full.len() {
        let mut buf = full[..cut].to_vec();
        assert!(SimpleFrameBuilder::from_bytes(&mut buf).is_none());
        assert_eq!(buf, full[..cut].to_vec());
    }
}

#[test]
fn simple_bad_start_skips_to_next_start() {
    let mut buf = vec![0x42, 0x43, 0x01, 0x00, 0x01, 9, 0x17];
    assert!(SimpleFrameBuilder::from_bytes(&mut buf).is_none());
    assert_eq!(buf, vec![0x01, 0x00, 0x01, 9, 0x17]);
    let frame = SimpleFrameBuilder::from_bytes(&mut buf).unwrap();
    assert_eq!(frame.payload(), vec![9]);
}

#[test]
fn simple_bad_start_without_start_empties_buffer() {
    let mut buf = vec![2, 3, 0, 0, 0];
    assert!(SimpleFrameBuilder::from_bytes(&mut buf).is_none());
    assert!(buf.is_empty());
}

#[test]
fn simple_bad_end_skips_to_next_start() {
    let mut buf = vec![1, 0, 1, 0xAA, 0];
    assert!(SimpleFrameBuilder::from_bytes(&mut buf).is_none());
    assert_eq!(buf, vec![1, 0xAA, 0]);
    let mut buf = vec![0x01, 0x00, 0x02, 9, 9, 0x00, 0x05, 0x01, 0x00];
    assert!(SimpleFrameBuilder::from_bytes(&mut buf).is_none());
    assert_eq!(buf, vec![0x01, 0x00]);
    let mut buf = vec![0x01, 0x00, 0x00, 0x10];
    assert!(SimpleFrameBuilder::from_bytes(&mut buf).is_none());
    assert!(buf.is_empty());
}

#[test]
fn simple_decoded_length_matches_consumed() {
    let mut buf = vec![0x01, 0x00, 0x02, 5, 6, 0x17, 0xEE];
    let frame = SimpleFrameBuilder::from_bytes(&mut buf).unwrap();
    assert_eq!(frame.len_as_vec(), 6);
    assert_eq!(frame.to_bytes(), vec![0x01, 0x00, 0x02, 5, 6, 0x17]);
    assert_eq!(buf, vec![0xEE]);
}

#[test]
fn checksum_encode_three_bytes() {
    let frame = Checksum32Frame::new(&[10, 20, 30]);
    assert_eq!(frame.to_bytes(), vec![0, 0, 0, 3, 10, 20, 30, 0, 0, 0, 60]);
    assert_eq!(frame.len_as_vec(), 11);
    assert_eq!(frame.payload(), vec![10, 20, 30]);
}

#[test]
fn checksum_mutated_payload_yields_nothing() {
    let encoded = Checksum32Frame::new(&[10, 20, 30]).to_bytes();
    for i in 4..7 {
        let mut buf = encoded.clone();
        buf[i] = buf[i].wrapping_add(1);
        buf.extend_from_slice(&[0, 0]);
        assert!(Checksum32FrameBuilder::from_bytes(&mut buf).is_none());
        assert!(buf.is_empty());
    }
}

#[test]
fn checksum_round_trip_keeps_rest() {
    let payload: Vec<u8> = vec![255; 1000];
    let mut buf = Checksum32Frame::new(&payload).to_bytes();
    assert_eq!(&buf[1000 + 4..], &[0, 3, 0xE4, 0x18]);
    buf.push(7);
    let frame = Checksum32FrameBuilder::from_bytes(&mut buf).unwrap();
    assert_eq!(frame.payload(), payload);
    assert_eq!(buf, vec![7]);
}

#[test]
fn checksum_round_trip_empty_payload() {
    let mut buf = Checksum32Frame::new(&[]).to_bytes();
    assert_eq!(buf, vec![0; 8]);
    let frame = Checksum32FrameBuilder::from_bytes(&mut buf).unwrap();
    assert!(frame.payload().is_empty());
    assert!(buf.is_empty());
}

#[test]
fn checksum_incomplete_leaves_buffer() {
    let full = Checksum32Frame::new(&[1, 2, 3, 4, 5]).to_bytes();
    for cut in 0..full.len() {
        let mut buf = full[..cut].to_vec();
        assert!(Checksum32FrameBuilder::from_bytes(&mut buf).is_none());
        assert_eq!(buf, full[..cut].to_vec());
    }
}

#[test]
fn checksum_cap_is_documented_limit() {
    assert_eq!(CHECKSUM_MAX_PAYLOAD, 16_843_009);
}

#[test]
fn websocket_sixteen_bit_length() {
    let payload = vec![3u8; 130];
    let frame = WebSocketFrame::new(&payload, FrameType::Data, OpType::Binary);
    let bytes = frame.to_bytes();
    assert_eq!(bytes[0], 0x82);
    assert_eq!(bytes[1], 126);
    assert_eq!(&bytes[2..4], &[0, 130]);
    assert_eq!(bytes.len(), 134);
    assert_eq!(frame.len_as_vec(), 134);
}

#[test]
fn websocket_seven_bit_length() {
    let frame = WebSocketFrame::new(&[b'h', b'i'], FrameType::Data, OpType::Text);
    assert_eq!(frame.to_bytes(), vec![0x81, 2, b'h', b'i']);
    assert_eq!(frame.len_as_vec(), 4);
}

#[test]
fn websocket_sixty_four_bit_length() {
    let payload = vec![1u8; 70_000];
    let frame = WebSocketFrame::new(&payload, FrameType::Data, OpType::Binary);
    let mut bytes = frame.to_bytes();
    assert_eq!(bytes[1], 127);
    assert_eq!(&bytes[2..10], &[0, 0, 0, 0, 0, 1, 0x11, 0x70]);
    assert_eq!(bytes.len(), 70_010);
    assert_eq!(frame.len_as_vec(), 70_010);
    let decoded = WebSocketFrameBuilder::from_bytes(&mut bytes).unwrap();
    assert_eq!(decoded.payload(), payload);
    assert!(bytes.is_empty());
}

#[test]
fn websocket_length_65535_uses_sixteen_bits() {
    let payload = vec![0u8; 65_535];
    let frame = WebSocketFrame::new(&payload, FrameType::Data, OpType::Binary);
    let bytes = frame.to_bytes();
    assert_eq!(&bytes[1..4], &[126, 0xFF, 0xFF]);
    assert_eq!(frame.len_as_vec(), bytes.len());
    assert_eq!(bytes.len(), 65_539);
}

#[test]
fn websocket_round_trip_ping() {
    let mut bytes = WebSocketFrame::new(&[1, 2], FrameType::Control, OpType::Ping).to_bytes();
    let frame = WebSocketFrameBuilder::from_bytes(&mut bytes).unwrap();
    assert!(frame.op_type() == OpType::Ping);
    assert!(frame.frame_type() == FrameType::Control);
    assert!(!frame.is_masked());
    assert_eq!(frame.payload(), vec![1, 2]);
    assert!(bytes.is_empty());
}

#[test]
fn websocket_empty_ping_decodes_from_two_bytes() {
    let mut bytes = vec![0x89, 0x00];
    let frame = WebSocketFrameBuilder::from_bytes(&mut bytes).unwrap();
    assert!(frame.op_type() == OpType::Ping);
    assert!(frame.payload().is_empty());
    assert!(bytes.is_empty());
}

#[test]
fn websocket_masked_payload_is_unmasked() {
    let key = [0x37, 0xFA, 0x21, 0x3D];
    let plain = b"Hello";
    let mut bytes = vec![0x81, 0x85];
    bytes.extend_from_slice(&key);
    for (i, b) in plain.iter().enumerate() {
        bytes.push(b ^ key[i % 4]);
    }
    bytes.push(0x99);
    let frame = WebSocketFrameBuilder::from_bytes(&mut bytes).unwrap();
    assert!(frame.is_masked());
    assert!(frame.op_type() == OpType::Text);
    assert!(frame.frame_type() == FrameType::Data);
    assert_eq!(frame.payload(), plain.to_vec());
    assert_eq!(frame.payload_unmasked(), plain.to_vec());
    assert_eq!(bytes, vec![0x99]);
    let again = frame.to_bytes();
    assert_eq!(&again[..6], &[0x81, 0x85, 0x37, 0xFA, 0x21, 0x3D]);
    assert_eq!(again.len(), frame.len_as_vec());
}

#[test]
fn websocket_new_is_unmasked_with_zero_key() {
    let frame = WebSocketFrame::new(&[1, 2, 3], FrameType::Data, OpType::Binary);
    assert!(!frame.is_masked());
    assert_eq!(frame.payload_unmasked(), vec![1, 2, 3]);
    assert_eq!(frame.payload(), vec![1, 2, 3]);
}

#[test]
fn websocket_decode_reports_header_fields() {
    let key = [9u8, 8, 7, 6];
    let mut bytes = vec![0x09, 0x83];
    bytes.extend_from_slice(&key);
    bytes.extend_from_slice(&[1 ^ 9, 2 ^ 8, 3 ^ 7]);
    let frame = WebSocketFrameBuilder::decode(&mut bytes).unwrap();
    assert!(frame.op_type() == OpType::Ping);
    assert!(frame.frame_type() == FrameType::Control);
    assert!(frame.is_masked());
    assert_eq!(frame.payload(), vec![1, 2, 3]);
    assert_eq!(frame.len_as_vec(), 9);
    assert!(bytes.is_empty());
}

#[test]
fn websocket_invalid_opcode_rejected() {
    let mut bytes = vec![0x83, 0x00, 0x01];
    assert!(WebSocketFrameBuilder::from_bytes(&mut bytes).is_none());
    assert_eq!(bytes, vec![0x83, 0x00, 0x01]);
}

#[test]
fn websocket_incomplete_leaves_buffer() {
    let full = WebSocketFrame::new(&[7u8; 200], FrameType::Data, OpType::Binary).to_bytes();
    for cut in [0usize, 1, 2, 3, 4, 100, 203] {
        let mut buf = full[..cut].to_vec();
        assert!(WebSocketFrameBuilder::from_bytes(&mut buf).is_none());
        assert_eq!(buf, full[..cut].to_vec());
    }
}

#[test]
fn websocket_close_and_pong_are_control() {
    for (code, op) in [(0x88u8, OpType::Close), (0x8A, OpType::Pong)] {
        let mut bytes = vec![code, 0x00];
        let frame = WebSocketFrameBuilder::from_bytes(&mut bytes).unwrap();
        assert!(frame.op_type() == op);
        assert!(frame.frame_type() == FrameType::Control);
    }
    let mut bytes = vec![0x00, 0x01, 5];
    let frame = WebSocketFrameBuilder::from_bytes(&mut bytes).unwrap();
    assert!(frame.op_type() == OpType::Continuation);
    assert!(frame.frame_type() == FrameType::Data);
}
