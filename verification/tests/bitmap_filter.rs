use hft_latency_lab::parser::bitmap_filter::{evaluate_msg_type, filter_by_type, filter_messages, MsgBitmap};
use hft_latency_lab::parser::naive::Message;

/// Build a length-prefixed ITCH message stream for testing.
fn build_test_stream() -> Vec<u8> {
    let mut stream = Vec::new();

    // Add Order (type 'A')
    let mut add_msg = Vec::new();
    add_msg.push(b'A');
    add_msg.extend_from_slice(&1u16.to_be_bytes());
    add_msg.extend_from_slice(&1u16.to_be_bytes());
    add_msg.extend_from_slice(&0u64.to_be_bytes()[2..8]);
    add_msg.extend_from_slice(&1u64.to_be_bytes());
    add_msg.push(b'B');
    add_msg.extend_from_slice(&100u32.to_be_bytes());
    add_msg.extend_from_slice(b"GOOG    ");
    add_msg.extend_from_slice(&10000u32.to_be_bytes());
    let add_len = add_msg.len() as u16;
    stream.extend_from_slice(&add_len.to_be_bytes());
    stream.extend_from_slice(&add_msg);

    // Order Delete (type 'D')
    let mut del_msg = Vec::new();
    del_msg.push(b'D');
    del_msg.extend_from_slice(&1u16.to_be_bytes());
    del_msg.extend_from_slice(&1u16.to_be_bytes());
    del_msg.extend_from_slice(&0u64.to_be_bytes()[2..8]);
    del_msg.extend_from_slice(&99u64.to_be_bytes());
    let del_len = del_msg.len() as u16;
    stream.extend_from_slice(&del_len.to_be_bytes());
    stream.extend_from_slice(&del_msg);

    // Add Order (type 'A')
    let mut add_msg2 = Vec::new();
    add_msg2.push(b'A');
    add_msg2.extend_from_slice(&2u16.to_be_bytes());
    add_msg2.extend_from_slice(&1u16.to_be_bytes());
    add_msg2.extend_from_slice(&0u64.to_be_bytes()[2..8]);
    add_msg2.extend_from_slice(&2u64.to_be_bytes());
    add_msg2.push(b'S');
    add_msg2.extend_from_slice(&200u32.to_be_bytes());
    add_msg2.extend_from_slice(b"AAPL    ");
    add_msg2.extend_from_slice(&20000u32.to_be_bytes());
    let add_len2 = add_msg2.len() as u16;
    stream.extend_from_slice(&add_len2.to_be_bytes());
    stream.extend_from_slice(&add_msg2);

    stream
}

#[test]
fn bitmap_set_get_clear() {
    let mut bm = MsgBitmap::zeroed();
    assert!(!bm.get(0));
    assert!(!bm.get(511));

    bm.set(0);
    bm.set(511);
    assert!(bm.get(0));
    assert!(bm.get(511));
    assert_eq!(bm.popcount(), 2);
}

#[test]
fn bitmap_iter_set_bits() {
    let mut bm = MsgBitmap::zeroed();
    bm.set(0);
    bm.set(63);
    bm.set(64);
    bm.set(127);
    let bits: Vec<_> = bm.iter_set_bits().into_iter().collect();
    assert_eq!(bits, vec![0, 63, 64, 127]);
}

#[test]
fn evaluate_finds_matching_messages() {
    let stream = build_test_stream();
    let (bitmap, offsets) = evaluate_msg_type(&stream, b'A');
    assert_eq!(offsets.len(), 3);
    assert_eq!(bitmap.popcount(), 2);
    assert!(bitmap.get(0)); // first message is 'A'
    assert!(!bitmap.get(1)); // second message is 'D'
    assert!(bitmap.get(2)); // third message is 'A'
}

#[test]
fn filter_returns_only_matching() {
    let stream = build_test_stream();
    let results = filter_by_type(&stream, b'A');
    assert_eq!(results.len(), 2);
    for (msg, _) in &results {
        matches!(msg, Message::AddOrder(_));
    }
}

#[test]
fn filter_empty_when_no_match() {
    let stream = build_test_stream();
    let results = filter_by_type(&stream, b'Z');
    assert!(results.is_empty());
}

#[test]
fn evaluate_records_frame_ranges() {
    let stream = build_test_stream();
    let (_, offsets) = evaluate_msg_type(&stream, b'D');
    assert_eq!(offsets, vec![(2, 38), (40, 59), (61, 97)]);
}

#[test]
fn filter_messages_decodes_selected_in_order() {
    let stream = build_test_stream();
    let (bitmap, offsets) = evaluate_msg_type(&stream, b'A');
    let results = filter_messages(&stream, &bitmap, &offsets);
    assert_eq!(results.len(), 2);
    match (&results[0].0, &results[1].0) {
        (Message::AddOrder(a), Message::AddOrder(b)) => {
            assert_eq!(a.order_ref, 1);
            assert!(a.buy);
            assert_eq!(&a.stock, b"GOOG    ");
            assert_eq!(b.order_ref, 2);
            assert!(!b.buy);
            assert_eq!(b.price, 20000);
        }
        _ => panic!("expected two Add Orders"),
    }
    assert_eq!(results[0].1, 2);
    assert_eq!(results[1].1, 61);
}

#[test]
fn evaluate_stops_at_truncated_frame() {
    let mut stream = build_test_stream();
    stream.extend_from_slice(&[0x00, 0x30, b'A']);
    let (bitmap, offsets) = evaluate_msg_type(&stream, b'A');
    assert_eq!(offsets.len(), 3);
    assert_eq!(bitmap.popcount(), 2);
}
