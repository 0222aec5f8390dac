use hft_latency_lab::data::gen;
use hft_latency_lab::microarch::simd_scan_message_types;

#[test]
fn scan_finds_every_message_start() {
    let stream = gen::generate_full_stream(1);
    // frames of 12, 36, 31, 23, 19, 44, 12 bytes
    assert_eq!(simd_scan_message_types(&stream), vec![2, 16, 54, 87, 112, 133, 179]);
}

#[test]
fn scan_stops_at_a_truncated_frame() {
    assert_eq!(simd_scan_message_types(&[0, 1, 7, 0, 5, 1]), vec![2]);
    assert!(simd_scan_message_types(&[0]).is_empty());
}
