use frame_relay::codec::encode_frame;
use frame_relay::decoder::ReadEvent;
use frame_relay::handler::Handler;

#[test]
fn forwards_completed_message() {
    let mut h = Handler::new();
    let step = h.on_read_event(&ReadEvent::Data(encode_frame(&b"abc".to_vec())));
    assert_eq!(step.forward, Some(b"abc".to_vec()));
    assert!(!step.notify_mismatch);
    assert!(!step.terminate);
    assert!(h.active);
}

#[test]
fn sentinel_terminates_without_forwarding() {
    let mut h = Handler::new();
    let step = h.on_read_event(&ReadEvent::Data(vec![0u8; 8]));
    assert_eq!(step.forward, None);
    assert!(!step.notify_mismatch);
    assert!(step.terminate);
    assert!(!h.active);
}

#[test]
fn mismatch_notifies_peer_and_keeps_serving() {
    let mut h = Handler::new();
    let mut bytes = encode_frame(&b"abcde".to_vec());
    bytes.extend_from_slice(b"overrun");
    let step = h.on_read_event(&ReadEvent::Data(bytes));
    assert_eq!(step.forward, None);
    assert!(step.notify_mismatch);
    assert!(!step.terminate);
    assert!(h.active);

    // The malformed frame was dropped; the next frame decodes normally.
    let step = h.on_read_event(&ReadEvent::Data(encode_frame(&b"ok".to_vec())));
    assert_eq!(step.forward, Some(b"ok".to_vec()));
}

#[test]
fn stream_end_mid_payload_notifies_and_terminates() {
    let mut h = Handler::new();
    let mut frame = encode_frame(&b"abcde".to_vec());
    frame.truncate(10); // header plus 2 of the 5 declared bytes
    let step = h.on_read_event(&ReadEvent::Data(frame));
    assert_eq!(step.forward, None);
    assert!(!step.terminate);
    let step = h.on_read_event(&ReadEvent::Closed);
    assert!(step.notify_mismatch);
    assert!(step.terminate);
    assert!(!h.active);
}

#[test]
fn stream_end_mid_header_terminates() {
    let mut h = Handler::new();
    let step = h.on_read_event(&ReadEvent::Data(vec![5, 0]));
    assert!(!step.terminate);
    let step = h.on_read_event(&ReadEvent::Closed);
    assert!(step.terminate);
    assert!(!step.notify_mismatch);
    assert_eq!(step.forward, None);
}

#[test]
fn would_block_read_is_a_no_op() {
    let mut h = Handler::new();
    let step = h.on_read_event(&ReadEvent::NoData);
    assert_eq!(step.forward, None);
    assert!(!step.notify_mismatch);
    assert!(!step.terminate);
    assert!(h.active);
}

#[test]
fn message_split_across_reads_is_forwarded_whole() {
    let mut h = Handler::new();
    let frame = encode_frame(&b"0123456789".to_vec());
    let first = h.on_read_event(&ReadEvent::Data(frame[..12].to_vec()));
    assert_eq!(first.forward, None);
    let second = h.on_read_event(&ReadEvent::Data(frame[12..].to_vec()));
    assert_eq!(second.forward, Some(b"0123456789".to_vec()));
}
