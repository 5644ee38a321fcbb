use myrpc4rs::net::{FrameBuffer, PollOutcome};

fn framed(payload: &[u8]) -> Vec<u8> {
    let mut out = FrameBuffer::new();
    assert!(out.write_frame(payload));
    out.pending_write().clone()
}

fn drain_frames(engine: &mut FrameBuffer) -> Vec<Vec<u8>> {
    let mut frames = Vec::new();
    loop {
        match engine.poll_frame(false) {
            PollOutcome::Frame(p) => frames.push(p),
            PollOutcome::NotReady => return frames,
            PollOutcome::Closed => unreachable!(),
        }
    }
}

#[test]
fn frame_layout_is_big_endian_length_then_payload() {
    assert_eq!(framed(&[7, 8, 9]), vec![0, 0, 0, 3, 7, 8, 9]);
    assert_eq!(framed(&[]), vec![0, 0, 0, 0]);
    let long = vec![1u8; 300];
    let framed_long = framed(&long);
    assert_eq!(&framed_long[..4], &[0, 0, 1, 44]);
    assert_eq!(&framed_long[4..], &long[..]);
}

#[test]
fn deframe_one_byte_at_a_time() {
    let payloads: Vec<Vec<u8>> = vec![b"hello".to_vec(), b"".to_vec(), b"xyz".to_vec()];
    let mut wire = Vec::new();
    for p in &payloads {
        wire.extend_from_slice(&framed(p));
    }
    let mut engine = FrameBuffer::new();
    let mut seen: Vec<Vec<u8>> = Vec::new();
    for byte in wire {
        engine.push_bytes(&[byte]);
        seen.extend(drain_frames(&mut engine));
    }
    assert_eq!(seen, payloads);
}

#[test]
fn deframe_many_frames_in_one_delivery() {
    let payloads: Vec<Vec<u8>> = vec![vec![1], vec![2, 2], vec![3, 3, 3], vec![]];
    let mut wire = Vec::new();
    for p in &payloads {
        wire.extend_from_slice(&framed(p));
    }
    let mut engine = FrameBuffer::new();
    engine.push_bytes(&wire);
    assert_eq!(drain_frames(&mut engine), payloads);
}

#[test]
fn deframe_random_fragmentation() {
    let payloads: Vec<Vec<u8>> = vec![vec![9; 10], vec![8; 1], vec![7; 23]];
    let mut wire = Vec::new();
    for p in &payloads {
        wire.extend_from_slice(&framed(p));
    }
    for chunk_size in [2usize, 3, 5, 7, 11, 100] {
        let mut engine = FrameBuffer::new();
        let mut seen = Vec::new();
        for chunk in wire.chunks(chunk_size) {
            engine.push_bytes(chunk);
            seen.extend(drain_frames(&mut engine));
        }
        assert_eq!(seen, payloads, "chunk size {}", chunk_size);
    }
}

#[test]
fn not_ready_and_closed_states() {
    let mut engine = FrameBuffer::new();
    assert!(matches!(engine.poll_frame(false), PollOutcome::NotReady));
    assert!(matches!(engine.poll_frame(true), PollOutcome::Closed));
    engine.push_bytes(&[0, 0]);
    assert!(matches!(engine.poll_frame(true), PollOutcome::Closed));
    engine.push_bytes(&[0, 3]);
    // A complete header announcing three payload bytes that have not arrived:
    // not ready, even at end of stream.
    assert!(matches!(engine.poll_frame(true), PollOutcome::NotReady));
    engine.push_bytes(&[5, 6, 7]);
    match engine.poll_frame(true) {
        PollOutcome::Frame(p) => assert_eq!(p, vec![5, 6, 7]),
        _ => panic!("expected a frame"),
    }
}

#[test]
fn partial_write_keeps_remainder_queued() {
    let mut engine = FrameBuffer::new();
    assert!(engine.write_frame(&[1, 2, 3]));
    assert!(engine.write_frame(&[4]));
    assert_eq!(engine.pending_write().clone(), vec![0, 0, 0, 3, 1, 2, 3, 0, 0, 0, 1, 4]);
    engine.take_written(5);
    assert_eq!(engine.pending_write().clone(), vec![2, 3, 0, 0, 0, 1, 4]);
    engine.take_written(7);
    assert!(engine.pending_write().is_empty());
}
