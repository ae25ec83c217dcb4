//! Tests of the frame codec and the duplex stream: exact header bytes, the
//! compression bit policy, round trips, and partial-read assembly.

use kvs::{encode_frame, decode_frame, FrameReader, DuplexStream, KvsError};

#[test]
fn small_payload_frame_is_exact() {
    let frame = encode_frame(&vec![1u8, 2, 3]).unwrap();
    assert_eq!(frame, vec![0u8, 0, 0, 3, 1, 2, 3]);
}

#[test]
fn empty_payload_frame_is_header_only() {
    let frame = encode_frame(&Vec::new()).unwrap();
    assert_eq!(frame, vec![0u8, 0, 0, 0]);
}

#[test]
fn small_payload_round_trips_uncompressed() {
    let payload: Vec<u8> = (0..255u8).collect();
    let frame = encode_frame(&payload).unwrap();
    assert_eq!(frame[0] & 0x80, 0);
    assert_eq!(decode_frame(&frame).unwrap(), payload);
}

#[test]
fn large_payload_round_trips_compressed() {
    let payload = vec![0u8; 16384];
    let frame = encode_frame(&payload).unwrap();
    assert_ne!(frame[0] & 0x80, 0);
    // compression earns its place on a run of zeros
    assert!(frame.len() < payload.len());
    assert_eq!(decode_frame(&frame).unwrap(), payload);
}

#[test]
fn threshold_is_exact() {
    let below = vec![7u8; 1435];
    let frame = encode_frame(&below).unwrap();
    assert_eq!(frame[0] & 0x80, 0);
    let at = vec![7u8; 1436];
    let frame = encode_frame(&at).unwrap();
    assert_ne!(frame[0] & 0x80, 0);
}

#[test]
fn decode_rejects_short_and_inconsistent_frames() {
    assert!(matches!(decode_frame(&vec![0u8, 0]), Err(KvsError::Serde(_))));
    // header says 5 payload bytes, only 2 follow
    assert!(matches!(decode_frame(&vec![0u8, 0, 0, 5, 1, 2]), Err(KvsError::Serde(_))));
    // compression bit set over bytes that are not a gzip stream
    assert!(matches!(
        decode_frame(&vec![0x80u8, 0, 0, 3, 9, 9, 9]),
        Err(KvsError::Serde(_))
    ));
}

#[test]
fn reader_assembles_frames_from_single_bytes() {
    let payload: Vec<u8> = (0..100u8).collect();
    let frame = encode_frame(&payload).unwrap();
    let mut reader = FrameReader::new();
    for b in &frame {
        assert_eq!(reader.try_decode().unwrap(), None);
        reader.feed(&vec![*b]);
    }
    assert_eq!(reader.try_decode().unwrap(), Some(payload));
    assert_eq!(reader.try_decode().unwrap(), None);
}

#[test]
fn reader_splits_are_irrelevant() {
    let payload = vec![3u8; 2000];
    let frame = encode_frame(&payload).unwrap();
    for split in [1usize, 2, 3, 4, 5, 7, frame.len() - 1] {
        let mut reader = FrameReader::new();
        reader.feed(&frame[..split].to_vec());
        reader.feed(&frame[split..].to_vec());
        assert_eq!(reader.try_decode().unwrap(), Some(payload.clone()));
    }
}

#[test]
fn reader_separates_back_to_back_frames() {
    let first = encode_frame(&vec![1u8, 1]).unwrap();
    let second = encode_frame(&vec![2u8, 2, 2]).unwrap();
    let mut both = first.clone();
    both.extend_from_slice(&second);
    let mut reader = FrameReader::new();
    reader.feed(&both);
    assert_eq!(reader.try_decode().unwrap(), Some(vec![1u8, 1]));
    assert_eq!(reader.try_decode().unwrap(), Some(vec![2u8, 2, 2]));
    assert_eq!(reader.try_decode().unwrap(), None);
}

#[test]
fn duplex_stream_loops_a_message_back() {
    let mut stream = DuplexStream::new();
    let payload: Vec<u8> = b"hello frame".to_vec();
    stream.start_send(&payload).unwrap();
    // drive the write side in two partial writes, as a transport would
    let chunk = stream.unwritten();
    assert!(chunk.len() > 4);
    stream.advance(3);
    let rest = stream.unwritten();
    assert_eq!(rest.len(), chunk.len() - 3);
    stream.advance(rest.len());
    assert_eq!(stream.pending(), 0);
    stream.flush_done();
    // feed everything that was "written" back into the read side
    stream.feed(&chunk[..3].to_vec());
    assert_eq!(stream.poll_message().unwrap(), None);
    stream.feed(&chunk[3..].to_vec());
    assert_eq!(stream.poll_message().unwrap(), Some(payload));
}

#[test]
fn duplex_stream_queues_several_messages() {
    let mut stream = DuplexStream::new();
    stream.start_send(&vec![1u8]).unwrap();
    stream.start_send(&vec![2u8, 2]).unwrap();
    let bytes = stream.unwritten();
    stream.advance(bytes.len());
    stream.flush_done();
    stream.feed(&bytes);
    assert_eq!(stream.poll_message().unwrap(), Some(vec![1u8]));
    assert_eq!(stream.poll_message().unwrap(), Some(vec![2u8, 2]));
    assert_eq!(stream.poll_message().unwrap(), None);
}
