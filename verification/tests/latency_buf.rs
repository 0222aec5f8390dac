use hft_latency_lab::latency_buf::LatencyBuffer;

#[test]
fn records_in_order_and_resets() {
    let mut buf = LatencyBuffer::with_capacity(3);
    assert!(buf.is_empty());
    buf.record(5);
    buf.record(9);
    assert_eq!(buf.len(), 2);
    assert_eq!(buf.finish(), &[5, 9]);
    buf.reset();
    assert!(buf.is_empty());
    assert_eq!(buf.finish(), &[] as &[u64]);
    buf.record(1);
    buf.record(2);
    buf.record(3);
    assert_eq!(buf.finish(), &[1, 2, 3]);
}
