use hft_latency_lab::pipeline::spsc::SpscRing;

#[test]
fn spsc_basic() {
    let mut ring: SpscRing<u64, 4> = SpscRing::new();
    assert!(ring.push(42));
    assert!(ring.push(43));
    assert_eq!(ring.pop(), Some(42));
    assert_eq!(ring.pop(), Some(43));
    assert_eq!(ring.pop(), None);
}

#[test]
fn spsc_full() {
    let mut ring: SpscRing<u64, 2> = SpscRing::new();
    assert!(ring.push(1));
    assert!(ring.push(2));
    assert!(!ring.push(3)); // full
    assert_eq!(ring.pop(), Some(1));
    assert!(ring.push(3)); // now room
}

#[test]
fn spsc_keeps_fifo_order_across_wraparound() {
    let mut ring: SpscRing<u32, 4> = SpscRing::new();
    let mut next_in = 0u32;
    let mut next_out = 0u32;
    for round in 0..10 {
        for _ in 0..(round % 4 + 1) {
            if ring.push(next_in) {
                next_in += 1;
            }
        }
        for _ in 0..(round % 3 + 1) {
            if let Some(v) = ring.pop() {
                assert_eq!(v, next_out);
                next_out += 1;
            }
        }
    }
    while let Some(v) = ring.pop() {
        assert_eq!(v, next_out);
        next_out += 1;
    }
    assert_eq!(next_in, next_out);
}
