use hft_latency_lab::parser::bitmap64::{filter_multi_symbol, Bitmap64};

#[test]
fn new_is_zeroed() {
    let bm = Bitmap64::new(200);
    assert_eq!(bm.n_bits(), 200);
    assert_eq!(bm.popcount(), 0);
    for i in 0..200 {
        assert!(!bm.test(i));
    }
}

#[test]
fn set_clear_test() {
    let mut bm = Bitmap64::new(300);
    bm.set(0);
    bm.set(63);
    bm.set(64);
    bm.set(199);
    bm.set(299);
    assert!(bm.test(0));
    assert!(bm.test(63));
    assert!(bm.test(64));
    assert!(bm.test(199));
    assert!(bm.test(299));
    assert!(!bm.test(1));
    assert!(!bm.test(62));
    assert_eq!(bm.popcount(), 5);

    bm.clear(64);
    assert!(!bm.test(64));
    assert_eq!(bm.popcount(), 4);
}

#[test]
fn test_out_of_bounds_returns_false() {
    let bm = Bitmap64::new(64);
    assert!(!bm.test(64));
    assert!(!bm.test(1000));
}

#[test]
fn iter_set_bits_basic() {
    let mut bm = Bitmap64::new(200);
    bm.set(0);
    bm.set(63);
    bm.set(64);
    bm.set(127);
    bm.set(199);
    let bits: Vec<_> = bm.iter_set_bits().into_iter().collect();
    assert_eq!(bits, vec![0, 63, 64, 127, 199]);
}

#[test]
fn iter_set_bits_empty() {
    let bm = Bitmap64::new(100);
    let bits: Vec<_> = bm.iter_set_bits().into_iter().collect();
    assert!(bits.is_empty());
}

#[test]
fn and_same_size() {
    let mut a = Bitmap64::new(128);
    let mut b = Bitmap64::new(128);
    a.set(0);
    a.set(1);
    a.set(100);
    b.set(1);
    b.set(2);
    b.set(100);

    let result = a.and(&b);
    assert!(result.test(1));
    assert!(result.test(100));
    assert!(!result.test(0));
    assert!(!result.test(2));
    assert_eq!(result.popcount(), 2);
}

#[test]
fn and_different_sizes() {
    let mut a = Bitmap64::new(128);
    let mut b = Bitmap64::new(64);
    a.set(0);
    a.set(100);
    b.set(0);

    let result = a.and(&b);
    assert!(result.test(0));
    assert!(!result.test(100));
    assert_eq!(result.n_bits(), 64);
}

#[test]
fn or_same_size() {
    let mut a = Bitmap64::new(128);
    let mut b = Bitmap64::new(128);
    a.set(0);
    a.set(1);
    b.set(1);
    b.set(2);

    let result = a.or(&b);
    assert!(result.test(0));
    assert!(result.test(1));
    assert!(result.test(2));
    assert_eq!(result.popcount(), 3);
}

#[test]
fn or_different_sizes() {
    let mut a = Bitmap64::new(64);
    let mut b = Bitmap64::new(128);
    a.set(0);
    b.set(1);
    b.set(100);

    let result = a.or(&b);
    assert!(result.test(0));
    assert!(result.test(1));
    assert!(result.test(100));
    assert_eq!(result.n_bits(), 128);
}

#[test]
fn popcount_large() {
    let mut bm = Bitmap64::new(10_000);
    for i in (0..10_000).step_by(7) {
        bm.set(i);
    }
    assert_eq!(bm.popcount(), (10_000 + 6) / 7);
}

#[test]
fn filter_multi_symbol_basic() {
    // 3 symbols, 10 message slots each
    let mut sym0 = Bitmap64::new(10);
    sym0.set(0);
    sym0.set(3);
    sym0.set(7);

    let mut sym1 = Bitmap64::new(10);
    sym1.set(1);
    sym1.set(5);

    let mut sym2 = Bitmap64::new(10);
    sym2.set(2);
    sym2.set(9);

    let per_symbol = vec![sym0, sym1, sym2];

    // Filter for symbols 0 and 2
    let mut symbol_filter = Bitmap64::new(3);
    symbol_filter.set(0);
    symbol_filter.set(2);

    let result = filter_multi_symbol(&symbol_filter, &per_symbol);
    assert_eq!(result.popcount(), 5);
    assert!(result.test(0));
    assert!(result.test(2));
    assert!(result.test(3));
    assert!(result.test(7));
    assert!(result.test(9));
    assert!(!result.test(1));
    assert!(!result.test(5));
}

#[test]
fn filter_multi_symbol_empty_filter() {
    let mut sym0 = Bitmap64::new(10);
    sym0.set(0);
    let per_symbol = vec![sym0];

    let symbol_filter = Bitmap64::new(1);
    let result = filter_multi_symbol(&symbol_filter, &per_symbol);
    assert_eq!(result.popcount(), 0);
}

#[test]
fn filter_multi_symbol_no_bitmaps() {
    let mut symbol_filter = Bitmap64::new(3);
    symbol_filter.set(0);
    let result = filter_multi_symbol(&symbol_filter, &[]);
    assert_eq!(result.popcount(), 0);
}

#[test]
fn and_then_or_keep_set_bits_exact() {
    let mut a = Bitmap64::new(70);
    let mut b = Bitmap64::new(70);
    a.set(3);
    a.set(65);
    b.set(65);
    b.set(69);
    assert_eq!(a.and(&b).iter_set_bits(), vec![65]);
    assert_eq!(a.or(&b).iter_set_bits(), vec![3, 65, 69]);
    assert_eq!(Bitmap64::new(70).n_words(), 2);
}

#[test]
fn stock_bitmap_records_first_frames() {
    let stream = hft_latency_lab::data::gen::generate_full_stream(2);
    let mut seen = 0;
    let (bm, offsets) = hft_latency_lab::parser::bitmap64::build_stock_bitmap(&stream, 3, |body: &[u8]| {
        let _ = body.len();
        *b"TEST    "
    });
    seen += offsets.len();
    assert_eq!(seen, 3);
    assert_eq!(offsets, vec![(2, 14), (16, 52), (54, 90)]);
    assert_eq!(bm.n_bits(), 3);
    assert_eq!(bm.popcount(), 0);
    let (_, all) = hft_latency_lab::parser::bitmap64::build_stock_bitmap(&stream, 100, |_: &[u8]| [0u8; 8]);
    assert_eq!(all.len(), 12);
}
