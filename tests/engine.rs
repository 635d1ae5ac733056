use simple_stream::secure::{read_error_outcome, write_error_outcome};
use simple_stream::{
    Checksum32Frame, Checksum32FrameBuilder, Frame, Plain, SimpleFrame, SimpleFrameBuilder,
    StreamError, TlsErrorCode, WebSocketFrame, WebSocketFrameBuilder, FrameType, OpType,
};

fn payloads<F: Frame>(frames: &[F]) -> Vec<Vec<u8>> {
    frames.iter().map(|f| f.payload()).collect()
}

#[test]
fn two_reads_yield_one_frame() {
    let mut s = Plain::<(), SimpleFrameBuilder>::new(());
    assert!(s.receive(&[0x01, 0x00]).is_ok());
    assert!(matches!(s.frames(), Err(StreamError::WouldBlock)));
    assert!(s.receive(&[0x04, 1, 2, 3, 4, 0x17]).is_ok());
    let frames = s.frames().unwrap();
    assert_eq!(frames.len(), 1);
    assert_eq!(frames[0].payload(), vec![1, 2, 3, 4]);
    assert!(matches!(s.frames(), Err(StreamError::WouldBlock)));
}

#[test]
fn coalesced_frames_arrive_in_order() {
    let mut bytes = Vec::new();
    for p in [vec![1u8], vec![2, 2], vec![], vec![3, 3, 3]] {
        bytes.extend(SimpleFrame::new(&p).to_bytes());
    }
    let mut s = Plain::<(), SimpleFrameBuilder>::new(());
    s.receive(&bytes).unwrap();
    let frames = s.frames().unwrap();
    assert_eq!(payloads(&frames), vec![vec![1], vec![2, 2], vec![], vec![3, 3, 3]]);
}

#[test]
fn coalesced_checksum_frames_with_partial_tail() {
    let mut bytes = Checksum32Frame::new(&[1, 2]).to_bytes();
    bytes.extend(Checksum32Frame::new(&[3]).to_bytes());
    let tail = Checksum32Frame::new(&[4, 5, 6]).to_bytes();
    bytes.extend_from_slice(&tail[..5]);
    let mut s = Plain::<(), Checksum32FrameBuilder>::new(());
    s.receive(&bytes).unwrap();
    assert_eq!(payloads(&s.frames().unwrap()), vec![vec![1, 2], vec![3]]);
    s.receive(&tail[5..]).unwrap();
    assert_eq!(payloads(&s.frames().unwrap()), vec![vec![4, 5, 6]]);
}

#[test]
fn any_chunking_yields_same_frames() {
    let expected: Vec<Vec<u8>> = vec![vec![10, 20], vec![30; 140], vec![], vec![40, 50, 60]];
    let mut bytes = Vec::new();
    for p in &expected {
        bytes.extend(WebSocketFrame::new(p, FrameType::Data, OpType::Binary).to_bytes());
    }
    for size in [1usize, 2, 3, 7, 64, bytes.len()] {
        let mut s = Plain::<(), WebSocketFrameBuilder>::new(());
        let mut got = Vec::new();
        for chunk in bytes.chunks(size) {
            s.receive(chunk).unwrap();
            if let Ok(frames) = s.frames() {
                got.extend(payloads(&frames));
            }
        }
        assert_eq!(got, expected);
    }
}

#[test]
fn garbage_before_frame_is_skipped() {
    let mut bytes = vec![0xFF, 0x42, 0x00, 0x99];
    bytes.extend(SimpleFrame::new(&[7, 7]).to_bytes());
    let mut s = Plain::<(), SimpleFrameBuilder>::new(());
    s.receive(&bytes).unwrap();
    assert_eq!(payloads(&s.frames().unwrap()), vec![vec![7, 7]]);
}

#[test]
fn only_garbage_is_would_block() {
    let mut s = Plain::<(), SimpleFrameBuilder>::new(());
    s.receive(&[0x10, 0x20, 0x30]).unwrap();
    assert!(matches!(s.frames(), Err(StreamError::WouldBlock)));
    s.receive(&SimpleFrame::new(&[1]).to_bytes()).unwrap();
    assert_eq!(payloads(&s.frames().unwrap()), vec![vec![1]]);
}

#[test]
fn bad_end_resyncs_at_next_frame() {
    let mut bytes = vec![0x01, 0x00, 0x02, 9, 9, 0x00];
    bytes.extend(SimpleFrame::new(&[4, 5]).to_bytes());
    let mut s = Plain::<(), SimpleFrameBuilder>::new(());
    s.receive(&bytes).unwrap();
    assert_eq!(payloads(&s.frames().unwrap()), vec![vec![4, 5]]);
}

#[test]
fn decoded_frames_reencode_to_consumed_bytes() {
    let mut bytes = SimpleFrame::new(&[1, 2]).to_bytes();
    bytes.extend(SimpleFrame::new(&[3]).to_bytes());
    let mut s = Plain::<(), SimpleFrameBuilder>::new(());
    s.receive(&bytes).unwrap();
    let frames = s.frames().unwrap();
    let mut again = Vec::new();
    for f in &frames {
        again.extend(f.to_bytes());
    }
    assert_eq!(again, bytes);
}

#[test]
fn corrupt_checksum_discards_buffer() {
    let mut bytes = Checksum32Frame::new(&[10, 20, 30]).to_bytes();
    bytes[5] = 21;
    bytes.extend(Checksum32Frame::new(&[1]).to_bytes());
    let mut s = Plain::<(), Checksum32FrameBuilder>::new(());
    s.receive(&bytes).unwrap();
    assert!(matches!(s.frames(), Err(StreamError::WouldBlock)));
    s.receive(&Checksum32Frame::new(&[2]).to_bytes()).unwrap();
    assert_eq!(payloads(&s.frames().unwrap()), vec![vec![2]]);
}

#[test]
fn empty_read_is_end_of_stream() {
    let mut s = Plain::<(), SimpleFrameBuilder>::new(());
    assert!(matches!(s.receive(&[]), Err(StreamError::UnexpectedEof)));
}

#[test]
fn blocking_decode_waits_then_returns_first() {
    let mut s = Plain::<(), SimpleFrameBuilder>::new(());
    s.receive(&[0x55, 0x01, 0x00]).unwrap();
    assert!(s.next_frame().is_none());
    let mut rest = vec![0x02, 8, 9, 0x17];
    rest.extend(SimpleFrame::new(&[6]).to_bytes());
    s.receive(&rest).unwrap();
    assert_eq!(s.next_frame().unwrap().payload(), vec![8, 9]);
    assert_eq!(s.next_frame().unwrap().payload(), vec![6]);
    assert!(s.next_frame().is_none());
}

#[test]
fn short_write_keeps_unsent_bytes_first() {
    let mut s = Plain::<(), SimpleFrameBuilder>::new(());
    let a = SimpleFrame::new(&[1, 2, 3, 4]);
    s.queue(&a);
    assert_eq!(s.pending(), &a.to_bytes()[..]);
    assert!(matches!(s.written(3), Err(StreamError::WouldBlock)));
    assert_eq!(s.pending(), &[1, 2, 3, 4, 0x17]);
    let b = SimpleFrame::new(&[9]);
    s.queue(&b);
    let mut expected = vec![1, 2, 3, 4, 0x17];
    expected.extend(b.to_bytes());
    assert_eq!(s.pending(), &expected[..]);
    let n = s.pending().len();
    assert!(s.written(n).is_ok());
    assert!(s.pending().is_empty());
}

#[test]
fn zero_byte_write_is_fatal() {
    let mut s = Plain::<(), SimpleFrameBuilder>::new(());
    s.queue(&SimpleFrame::new(&[1]));
    assert!(matches!(s.written(0), Err(StreamError::WriteZero)));
    assert_eq!(s.pending(), &[1, 0, 1, 1, 0x17]);
}

#[test]
fn nothing_pending_zero_write_is_ok() {
    let mut s = Plain::<(), SimpleFrameBuilder>::new(());
    assert!(s.written(0).is_ok());
}

#[test]
fn channel_is_lent_and_kept() {
    let mut s = Plain::<Vec<u8>, SimpleFrameBuilder>::new(vec![1]);
    s.channel_mut().push(2);
    assert_eq!(s.channel_ref(), &vec![1, 2]);
}

#[test]
fn tls_read_outcomes() {
    assert_eq!(read_error_outcome(TlsErrorCode::WantRead), None);
    assert_eq!(read_error_outcome(TlsErrorCode::ZeroReturn), Some(StreamError::UnexpectedEof));
    assert_eq!(read_error_outcome(TlsErrorCode::WantWrite), Some(StreamError::WantWrite));
    assert_eq!(read_error_outcome(TlsErrorCode::Syscall), Some(StreamError::Syscall));
    assert_eq!(read_error_outcome(TlsErrorCode::Ssl), Some(StreamError::Ssl));
    assert_eq!(read_error_outcome(TlsErrorCode::Other), Some(StreamError::Unknown));
}

#[test]
fn tls_write_outcomes() {
    assert_eq!(write_error_outcome(TlsErrorCode::WantWrite), StreamError::WouldBlock);
    assert_eq!(write_error_outcome(TlsErrorCode::WantRead), StreamError::WantRead);
    assert_eq!(write_error_outcome(TlsErrorCode::ZeroReturn), StreamError::UnexpectedEof);
    assert_eq!(write_error_outcome(TlsErrorCode::Syscall), StreamError::Syscall);
    assert_eq!(write_error_outcome(TlsErrorCode::Ssl), StreamError::Ssl);
    assert_eq!(write_error_outcome(TlsErrorCode::Other), StreamError::Unknown);
}
