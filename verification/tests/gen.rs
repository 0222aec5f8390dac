use hft_latency_lab::data::gen;
use hft_latency_lab::parser::naive::{self, Message};

#[test]
fn built_add_order_decodes_to_its_fields() {
    let msg = gen::build_add_order(7, false, 300, 123_456);
    assert_eq!(msg.len(), 36);
    assert_eq!(msg[0], b'A');
    assert_eq!(msg[19], b'S');
    let (m, len) = naive::parse_one(&msg).unwrap();
    assert_eq!(len, 36);
    match m {
        Message::AddOrder(a) => {
            assert_eq!(a.stock_locate, gen::GEN_LOCATE);
            assert_eq!(a.tracking_number, gen::GEN_TRACKING);
            assert_eq!(a.timestamp_ns, gen::GEN_TIMESTAMP);
            assert_eq!(a.order_ref, 7);
            assert!(!a.buy);
            assert_eq!(a.shares, 300);
            assert_eq!(&a.stock, b"TEST    ");
            assert_eq!(a.price, 123_456);
        }
        _ => panic!("expected AddOrder"),
    }
}

#[test]
fn built_messages_have_wire_lengths() {
    assert_eq!(gen::build_order_executed(1, 2, 3).len(), 31);
    assert_eq!(gen::build_order_cancel(1, 2).len(), 23);
    assert_eq!(gen::build_order_delete(1).len(), 19);
    assert_eq!(gen::build_trade(1, 2, 3, 4).len(), 44);
    assert_eq!(gen::build_system_event(b'C'), {
        let mut v = vec![b'S', 0, 1, 0, 0];
        v.extend_from_slice(&gen::GEN_TIMESTAMP.to_be_bytes()[2..8]);
        v.push(b'C');
        v
    });
}

#[test]
fn built_trade_and_execution_round_trip() {
    match naive::parse_one(&gen::build_trade(9, 100, 5_000, 77)).unwrap().0 {
        Message::Trade(t) => {
            assert_eq!(t.order_ref, 9);
            assert!(t.buy);
            assert_eq!(t.shares, 100);
            assert_eq!(t.price, 5_000);
            assert_eq!(t.match_number, 77);
        }
        _ => panic!("expected Trade"),
    }
    match naive::parse_one(&gen::build_order_executed(u64::MAX, u32::MAX, 1)).unwrap().0 {
        Message::OrderExecuted(e) => {
            assert_eq!(e.order_ref, u64::MAX);
            assert_eq!(e.executed_shares, u32::MAX);
            assert_eq!(e.match_number, 1);
        }
        _ => panic!("expected OrderExecuted"),
    }
}

#[test]
fn full_stream_decodes_in_blocks() {
    let msgs = naive::parse_all(&gen::generate_full_stream(3));
    assert_eq!(msgs.len(), 17);
    assert!(matches!(msgs[0], Message::SystemEvent(ref s) if s.event_code == b'O'));
    assert!(matches!(msgs[1], Message::AddOrder(ref a) if a.order_ref == 0 && a.buy && a.shares == 100 && a.price == 1_000_000));
    assert!(matches!(msgs[2], Message::AddOrder(ref a) if a.order_ref == 1 && !a.buy && a.shares == 101 && a.price == 1_000_001));
    assert!(matches!(msgs[4], Message::OrderExecuted(ref e) if e.order_ref == 0 && e.executed_shares == 50));
    assert!(matches!(msgs[7], Message::OrderCancel(ref c) if c.order_ref == 0 && c.canceled_shares == 25));
    assert!(matches!(msgs[10], Message::OrderDelete(ref d) if d.order_ref == 0));
    assert!(matches!(msgs[15], Message::Trade(ref t) if t.order_ref == 2 && t.price == 1_000_002 && t.match_number == 2));
    assert!(matches!(msgs[16], Message::SystemEvent(ref s) if s.event_code == b'C'));
    assert_eq!(naive::parse_all(&gen::generate_full_stream(0)).len(), 2);
}

fn frames(stream: &[u8]) -> Vec<Vec<u8>> {
    let mut out = Vec::new();
    let mut pos = 0;
    while pos + 2 <= stream.len() {
        let len = u16::from_be_bytes([stream[pos], stream[pos + 1]]) as usize;
        out.push(stream[pos + 2..pos + 2 + len].to_vec());
        pos += 2 + len;
    }
    assert_eq!(pos, stream.len());
    out
}

#[test]
fn natural_stream_text_fields() {
    let (natural, _) = gen::generate_paired_streams(2, 3, 1);
    let f = frames(&natural);
    assert_eq!(f.len(), 6);
    let add = |i: usize, side: &str| format!("A010100000000123{:08}{}000100TEST    0000010000", i, side).into_bytes();
    let exec = |i: usize| format!("E010100000000123{:08}000050{:08}", i % 2, i).into_bytes();
    assert_eq!(f[0], add(0, "B"));
    assert_eq!(f[1], add(1, "S"));
    assert_eq!(f[2], exec(0));
    assert_eq!(f[3], exec(1));
    assert_eq!(f[4], exec(2));
    assert_eq!(f[5], format!("X010100000000123{:08}000025", 0).into_bytes());
    assert_eq!(f[0].len(), 49);
    assert_eq!(f[2].len(), 38);
    assert_eq!(f[5].len(), 30);
}

#[test]
fn stream_pads_order_numbers_to_eight_digits_at_least() {
    let (natural, _) = gen::generate_paired_streams(1, 0, 0);
    let f = frames(&natural);
    assert_eq!(&f[0][16..24], b"00000000");
    let seeded = gen::build_stream_seeded(0, 0, 1, 5);
    let g = frames(&seeded);
    // with no adds the order number is taken modulo one
    assert_eq!(&g[0][16..24], b"00000000");
}

#[test]
fn shuffled_stream_is_a_permutation_of_the_natural_one() {
    let (natural, shuffled) = gen::generate_paired_streams(40, 20, 10);
    let mut a = frames(&natural);
    let mut b = frames(&shuffled);
    assert_eq!(a.len(), 70);
    a.sort();
    b.sort();
    assert_eq!(a, b);
}

#[test]
fn seeded_shuffle_is_reproducible_and_moves_messages() {
    let s1 = gen::build_stream_seeded(30, 10, 5, 42);
    let s2 = gen::build_stream_seeded(30, 10, 5, 42);
    assert_eq!(s1, s2);
    let (natural, _) = gen::generate_paired_streams(30, 10, 5);
    assert_ne!(s1, natural);
    assert_eq!(s1.len(), natural.len());
}

#[test]
fn seeded_shuffle_of_two_follows_the_generator() {
    // one Fisher-Yates step: state = seed * mul + 1, j = (state >> 33) % 2
    let seed = 3u64;
    let state = seed.wrapping_mul(6364136223846793005).wrapping_add(1);
    let j = ((state >> 33) as usize) % 2;
    let (natural, _) = gen::generate_paired_streams(2, 0, 0);
    let f = frames(&natural);
    let expected: Vec<Vec<u8>> = if j == 0 { vec![f[1].clone(), f[0].clone()] } else { f.clone() };
    assert_eq!(frames(&gen::build_stream_seeded(2, 0, 0, seed)), expected);
}
