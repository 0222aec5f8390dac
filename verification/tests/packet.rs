use hft_latency_lab::data::gen;
use hft_latency_lab::net::packet_timer::PacketTimestamps;
use hft_latency_lab::net::raw_socket::PacketReceiver;
use std::cell::Cell;

#[test]
fn packet_timestamps_monotonic() {
    let tsc = Cell::new(1_000u64);
    let rdtsc_serialized = || {
        tsc.set(tsc.get() + 37);
        tsc.get()
    };
    let mut ts = PacketTimestamps::new(rdtsc_serialized());
    ts.parse_start = rdtsc_serialized();
    ts.parse_end = rdtsc_serialized();
    ts.book_update_end = rdtsc_serialized();
    ts.strategy_callback = rdtsc_serialized();

    assert!(ts.arrival <= ts.parse_start);
    assert!(ts.parse_start <= ts.parse_end);
    assert!(ts.parse_end <= ts.book_update_end);
    assert!(ts.book_update_end <= ts.strategy_callback);
    assert!(ts.total_latency_cycles() > 0);
}

#[test]
fn stage_latencies_are_differences() {
    let ts = PacketTimestamps {
        arrival: 10,
        parse_start: 15,
        parse_end: 40,
        book_update_end: 100,
        strategy_callback: 130,
    };
    assert_eq!(ts.total_latency_cycles(), 120);
    assert_eq!(ts.parse_latency_cycles(), 25);
    assert_eq!(ts.book_latency_cycles(), 60);
    assert_eq!(ts.strategy_latency_cycles(), 30);
    let fresh = PacketTimestamps::new(7);
    assert_eq!(fresh.total_latency_cycles(), 0);
}

#[test]
fn receiver_stamps_every_message_and_feeds_the_book() {
    let tsc = Cell::new(0u64);
    let clock = || {
        tsc.set(tsc.get() + 3);
        tsc.get()
    };
    let mut receiver = PacketReceiver::new(1000);
    let stream = gen::generate_full_stream(4);
    let n = receiver.process_stream(&stream, clock).len();
    // start event, 5 blocks of 4 orders, end event
    assert_eq!(n, 22);
    // every order was cancelled, and the deletes that follow are refused
    assert_eq!(receiver.book().order_count(), 0);
    assert_eq!(receiver.book().best_bid(), None);

    let (natural, _) = gen::generate_paired_streams(100, 50, 20);
    let stamps = receiver.process_stream(&natural, clock);
    assert_eq!(stamps.len(), 170);
    for ts in stamps {
        assert!(ts.total_latency_cycles() > 0);
    }
}

#[test]
fn packet_receiver_basic() {
    let tsc = Cell::new(1_000u64);
    let clock = || {
        tsc.set(tsc.get() + 11);
        tsc.get()
    };
    let mut receiver = PacketReceiver::new(1000);

    let (stream, _) = gen::generate_paired_streams(100, 50, 20);
    let timestamps = receiver.process_stream(&stream, clock);

    assert!(!timestamps.is_empty());
    for ts in timestamps {
        assert!(ts.total_latency_cycles() > 0);
    }
    // the latency report counts one sample per stamped message
    let book_samples = timestamps.iter().filter(|ts| ts.book_latency_cycles() > 0).count();
    assert!(timestamps.len() > 0);
    assert!(book_samples > 0);
}
