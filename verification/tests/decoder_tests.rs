use frame_relay::codec::{encode_frame, encode_header, le_u64_of};
use frame_relay::decoder::{DecodeOutcome, Decoder, Phase, ReadEvent};

fn header_for(n: u64) -> Vec<u8> {
    encode_header(n)
}

#[test]
fn le_header_codec_roundtrip() {
    let h = encode_header(0x0102030405060708);
    assert_eq!(h, vec![8, 7, 6, 5, 4, 3, 2, 1]);
    assert_eq!(le_u64_of(&h), 0x0102030405060708);
    assert_eq!(le_u64_of(&encode_header(0)), 0);
    assert_eq!(le_u64_of(&encode_header(u64::MAX)), u64::MAX);
    assert_eq!(le_u64_of(&encode_header(10)), 10);
}

#[test]
fn encode_frame_prefixes_length() {
    let frame = encode_frame(&b"abc".to_vec());
    assert_eq!(frame, vec![3, 0, 0, 0, 0, 0, 0, 0, 97, 98, 99]);
    let empty = encode_frame(&Vec::new());
    assert_eq!(empty, vec![0, 0, 0, 0, 0, 0, 0, 0]);
}

// The end-to-end scenario: header declaring 10 (little-endian), then the
// payload "0123456789" in two separate writes of 4 and 6 bytes.
#[test]
fn end_to_end_two_writes() {
    let mut d = Decoder::new();
    let header = vec![0x0A, 0, 0, 0, 0, 0, 0, 0];
    assert_eq!(d.feed(&ReadEvent::Data(header)), DecodeOutcome::Pending);
    assert_eq!(
        d.feed(&ReadEvent::Data(b"0123".to_vec())),
        DecodeOutcome::Pending
    );
    assert_eq!(
        d.feed(&ReadEvent::Data(b"456789".to_vec())),
        DecodeOutcome::Ready
    );
    let m = d.take_message();
    assert_eq!(m.expected_size, 10);
    assert_eq!(m.buffer, b"0123456789".to_vec());
    assert_eq!(m.phase, Phase::Complete);
}

// Header fragmentation invariance, on concrete values: every way of cutting
// the 8 header bytes in two yields the same declared size as one atomic read.
#[test]
fn header_fragmentation_invariance() {
    let header = vec![3, 1, 0, 0, 0, 0, 0, 0]; // 259, little-endian

    let mut atomic = Decoder::new();
    assert_eq!(
        atomic.feed(&ReadEvent::Data(header.clone())),
        DecodeOutcome::Pending
    );
    assert_eq!(atomic.msg.expected_size, 259);

    for cut in 1..8 {
        let mut d = Decoder::new();
        assert_eq!(
            d.feed(&ReadEvent::Data(header[..cut].to_vec())),
            DecodeOutcome::Pending
        );
        assert_eq!(
            d.feed(&ReadEvent::Data(header[cut..].to_vec())),
            DecodeOutcome::Pending
        );
        assert_eq!(d.msg.expected_size, 259);
        assert_eq!(d.msg.phase, Phase::AwaitingPayload);
    }
}

// The header may even arrive one byte per read.
#[test]
fn header_one_byte_at_a_time() {
    let mut d = Decoder::new();
    let header = header_for(2);
    for k in 0..8 {
        assert_eq!(
            d.feed(&ReadEvent::Data(vec![header[k]])),
            DecodeOutcome::Pending
        );
    }
    assert_eq!(d.msg.expected_size, 2);
    assert_eq!(d.feed(&ReadEvent::Data(vec![7, 9])), DecodeOutcome::Ready);
    let m = d.take_message();
    assert_eq!(m.buffer, vec![7, 9]);
}

// Payload fragmentation invariance, on concrete values: any chunking of the
// payload gives the same final buffer as one atomic read.
#[test]
fn payload_fragmentation_invariance() {
    let payload = b"abcdef".to_vec();

    let mut atomic = Decoder::new();
    atomic.feed(&ReadEvent::Data(header_for(6)));
    assert_eq!(
        atomic.feed(&ReadEvent::Data(payload.clone())),
        DecodeOutcome::Ready
    );
    let whole = atomic.take_message();

    let mut d = Decoder::new();
    d.feed(&ReadEvent::Data(header_for(6)));
    assert_eq!(d.feed(&ReadEvent::Data(b"ab".to_vec())), DecodeOutcome::Pending);
    assert_eq!(d.feed(&ReadEvent::Data(b"cd".to_vec())), DecodeOutcome::Pending);
    assert_eq!(d.feed(&ReadEvent::Data(b"ef".to_vec())), DecodeOutcome::Ready);
    let pieces = d.take_message();

    assert_eq!(whole.buffer, payload);
    assert_eq!(pieces.buffer, payload);
    assert_eq!(pieces.expected_size, 6);
    assert_eq!(pieces.phase, Phase::Complete);
}

// Zero-length sentinel: a zero header completes at once with an empty
// buffer, regardless of bytes that follow in the same read.
#[test]
fn zero_sentinel_completes_immediately() {
    let mut d = Decoder::new();
    let mut bytes = vec![0u8; 8];
    bytes.extend_from_slice(&[1, 2, 3]);
    assert_eq!(d.feed(&ReadEvent::Data(bytes)), DecodeOutcome::Ready);
    let m = d.take_message();
    assert_eq!(m.expected_size, 0);
    assert!(m.buffer.is_empty());
    assert_eq!(m.phase, Phase::Complete);
}

// Mismatch detection: a stream that ends after fewer payload bytes than the
// header declared reports a mismatch, never a ready message.
#[test]
fn mismatch_when_stream_ends_short() {
    let mut d = Decoder::new();
    d.feed(&ReadEvent::Data(header_for(5)));
    assert_eq!(d.feed(&ReadEvent::Data(vec![1, 2, 3])), DecodeOutcome::Pending);
    assert_eq!(d.feed(&ReadEvent::Closed), DecodeOutcome::Mismatch);
    // The malformed frame was dropped: the decoder starts afresh.
    assert_eq!(d.msg.phase, Phase::AwaitingHeader);
    assert!(d.msg.buffer.is_empty());
}

#[test]
fn mismatch_when_read_overruns_declared_size() {
    let mut d = Decoder::new();
    d.feed(&ReadEvent::Data(header_for(2)));
    assert_eq!(
        d.feed(&ReadEvent::Data(vec![1, 2, 3, 4, 5])),
        DecodeOutcome::Mismatch
    );
    assert_eq!(d.msg.phase, Phase::AwaitingHeader);
}

#[test]
fn closing_mid_header_is_connection_closing() {
    let mut d = Decoder::new();
    assert_eq!(d.feed(&ReadEvent::Data(vec![1, 2])), DecodeOutcome::Pending);
    assert_eq!(d.feed(&ReadEvent::Closed), DecodeOutcome::ConnectionClosing);
}

#[test]
fn closing_at_frame_boundary_is_sentinel() {
    let mut d = Decoder::new();
    assert_eq!(d.feed(&ReadEvent::Closed), DecodeOutcome::Ready);
    let m = d.take_message();
    assert_eq!(m.expected_size, 0);
    assert!(m.buffer.is_empty());
}

#[test]
fn no_data_is_pending_and_changes_nothing() {
    let mut d = Decoder::new();
    assert_eq!(d.feed(&ReadEvent::NoData), DecodeOutcome::Pending);
    d.feed(&ReadEvent::Data(header_for(1)));
    assert_eq!(d.feed(&ReadEvent::NoData), DecodeOutcome::Pending);
    assert_eq!(d.msg.expected_size, 1);
}

// A frame built by the encoder decodes back to its payload.
#[test]
fn frame_roundtrip_through_decoder() {
    let payload = b"hello, peer".to_vec();
    let frame = encode_frame(&payload);
    let mut d = Decoder::new();
    assert_eq!(d.feed(&ReadEvent::Data(frame)), DecodeOutcome::Ready);
    let m = d.take_message();
    assert_eq!(m.buffer, payload);
    assert_eq!(m.expected_size, payload.len() as u64);
}

// Several frames arrive back to back, each in its own reads.
#[test]
fn consecutive_frames_decode_in_order() {
    let mut d = Decoder::new();
    for payload in [b"one".to_vec(), b"two".to_vec()] {
        assert_eq!(
            d.feed(&ReadEvent::Data(encode_frame(&payload))),
            DecodeOutcome::Ready
        );
        let m = d.take_message();
        assert_eq!(m.buffer, payload);
    }
}
