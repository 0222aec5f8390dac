use hft_latency_lab::orderbook::arena::{OrderArena, SENTINEL};
use hft_latency_lab::orderbook::book::OrderBook;
use hft_latency_lab::orderbook::feed::{apply_message, apply_message_bbo, apply_to_book};
use hft_latency_lab::parser::naive::{AddOrder, AddOrderMpid, Message, OrderCancel, OrderDelete, OrderExecuted};

#[test]
fn arena_alloc_free_cycle() {
    let mut arena = OrderArena::with_capacity(16);
    let a = arena.alloc_node(100, 10, 1);
    let b = arena.alloc_node(200, 20, 2);
    assert_eq!(arena.get(a).price, 100);
    assert_eq!(arena.get(b).price, 200);

    arena.free(a);
    let c = arena.alloc_node(300, 30, 3);
    assert_eq!(c, a, "should reuse freed slot");
    assert_eq!(arena.get(c).price, 300);
}

#[test]
fn basic_order_book_operations() {
    let mut book = OrderBook::new(256);
    assert!(book.best_bid().is_none());
    assert!(book.best_ask().is_none());

    book.add_order(1, true, 100, 10);
    book.add_order(2, true, 101, 20);
    book.add_order(3, false, 102, 15);

    assert_eq!(book.best_bid(), Some(101)); // highest bid
    assert_eq!(book.best_ask(), Some(102)); // lowest ask

    assert!(book.cancel_order(2));
    assert_eq!(book.best_bid(), Some(100));
}

#[test]
fn arena_serves_prefilled_slots_before_growing() {
    let mut arena = OrderArena::with_capacity(4);
    assert_eq!(arena.len(), 4);
    for k in 0..4u32 {
        assert_eq!(arena.alloc_node(5, 1, k as u64), k);
        assert_eq!(arena.len(), 4);
    }
    let a = arena.alloc_node(5, 1, 9);
    assert_eq!(a, 4);
    assert_eq!(arena.len(), 5);
    assert_eq!(arena.get(a).next, SENTINEL);
    assert_eq!(arena.get(a).prev, SENTINEL);
    assert_eq!(arena.get(2).order_id, 2);
}

#[test]
fn cancel_of_unknown_id_changes_nothing() {
    let mut book = OrderBook::new(0);
    book.add_order(7, true, 50, 1);
    assert!(!book.cancel_order(8));
    assert_eq!(book.best_bid(), Some(50));
    assert_eq!(book.order_count(), 1);
}

#[test]
fn add_then_cancel_restores_both_sides() {
    let mut book = OrderBook::new(0);
    book.add_order(1, true, 100, 10);
    book.add_order(2, false, 105, 10);
    book.add_order(3, true, 103, 5);
    assert_eq!(book.best_bid(), Some(103));
    assert!(book.cancel_order(3));
    assert_eq!(book.best_bid(), Some(100));
    assert_eq!(book.best_ask(), Some(105));
    assert_eq!(book.order_count(), 2);
}

#[test]
fn bids_descend_and_asks_ascend() {
    let mut book = OrderBook::new(0);
    for (id, px) in [(1u64, 100u64), (2, 104), (3, 99), (4, 104)] {
        book.add_order(id, true, px, 1);
    }
    for (id, px) in [(10u64, 110u64), (11, 107), (12, 120)] {
        book.add_order(id, false, px, 1);
    }
    assert_eq!(book.best_bid(), Some(104));
    assert_eq!(book.best_ask(), Some(107));
    assert_eq!(book.spread(), Some(3));
    assert!(book.cancel_order(2));
    assert_eq!(book.best_bid(), Some(104));
    assert!(book.cancel_order(4));
    assert_eq!(book.best_bid(), Some(100));
    assert!(book.cancel_order(11));
    assert_eq!(book.best_ask(), Some(110));
    assert_eq!(book.order_count(), 4);
}

#[test]
fn execute_partial_then_full() {
    let mut book = OrderBook::new(0);
    book.add_order(1, false, 200, 30);
    book.add_order(2, false, 201, 30);
    assert!(book.execute_order(1, 10));
    assert_eq!(book.best_ask(), Some(200));
    assert_eq!(book.order_count(), 2);
    assert!(book.execute_order(1, 20));
    assert_eq!(book.best_ask(), Some(201));
    assert_eq!(book.order_count(), 1);
    assert!(!book.execute_order(99, 1));
}

#[test]
fn delete_removes_whole_order() {
    let mut book = OrderBook::new(0);
    book.add_order(5, true, 10, 100);
    assert!(book.delete_order(5));
    assert_eq!(book.best_bid(), None);
    assert_eq!(book.order_count(), 0);
    assert_eq!(book.spread(), None);
}

#[test]
fn freed_slot_is_reused_by_next_add() {
    let mut book = OrderBook::new(0);
    book.add_order(1, true, 10, 1);
    book.add_order(2, true, 11, 1);
    assert!(book.cancel_order(1));
    book.add_order(3, false, 12, 1);
    assert_eq!(book.best_ask(), Some(12));
    assert_eq!(book.best_bid(), Some(11));
    assert!(book.cancel_order(3));
    assert_eq!(book.best_ask(), None);
}

#[test]
fn crossed_book_has_no_spread() {
    let mut book = OrderBook::new(0);
    book.add_order(1, true, 10, 1);
    book.add_order(2, false, 9, 1);
    assert_eq!(book.spread(), None);
    assert_eq!(book.order_count(), 2);
}

#[test]
fn repeated_cancel_is_refused_and_changes_nothing() {
    let mut book = OrderBook::new(4);
    assert!(book.can_add());
    book.add_order(5, true, 10, 1);
    book.add_order(6, true, 9, 1);
    assert!(book.cancel_order(5));
    assert!(!book.cancel_order(5));
    assert!(!book.delete_order(5));
    assert!(!book.execute_order(5, 1));
    assert_eq!(book.best_bid(), Some(9));
    assert_eq!(book.order_count(), 1);
    // the freed slot goes to the next order exactly once
    book.add_order(7, false, 20, 1);
    book.add_order(8, false, 21, 1);
    assert_eq!(book.order_count(), 3);
    assert!(book.cancel_order(7));
    assert_eq!(book.best_ask(), Some(21));
    assert_eq!(book.best_bid(), Some(9));
}

#[test]
fn bbo_changes_are_reported() {
    let mut book = OrderBook::new(0);
    assert!(apply_message_bbo(&mut book, &add(1, true, 100, 10)));
    assert!(!apply_message_bbo(&mut book, &add(2, true, 90, 10)));
    assert!(apply_message_bbo(&mut book, &add(3, false, 110, 10)));
    assert!(!apply_message_bbo(
        &mut book,
        &Message::OrderDelete(OrderDelete { stock_locate: 1, tracking_number: 0, timestamp_ns: 0, order_ref: 2 }),
    ));
    assert!(apply_message_bbo(
        &mut book,
        &Message::OrderDelete(OrderDelete { stock_locate: 1, tracking_number: 0, timestamp_ns: 0, order_ref: 1 }),
    ));
    assert_eq!(book.best_bid(), None);
}

fn add(order_ref: u64, buy: bool, price: u32, shares: u32) -> Message {
    Message::AddOrder(AddOrder {
        stock_locate: 1,
        tracking_number: 0,
        timestamp_ns: 0,
        order_ref,
        buy,
        shares,
        stock: *b"TEST    ",
        price,
    })
}

#[test]
fn apply_message_dispatches_by_kind() {
    let mut book = OrderBook::new(0);
    apply_message(&mut book, &add(1, true, 100, 10));
    apply_message(&mut book, &add(2, false, 110, 10));
    assert_eq!(book.order_count(), 2);
    apply_message(
        &mut book,
        &Message::OrderExecuted(OrderExecuted {
            stock_locate: 1,
            tracking_number: 0,
            timestamp_ns: 0,
            order_ref: 2,
            executed_shares: 4,
            match_number: 1,
        }),
    );
    assert_eq!(book.order_count(), 2);
    apply_message(
        &mut book,
        &Message::OrderCancel(OrderCancel {
            stock_locate: 1,
            tracking_number: 0,
            timestamp_ns: 0,
            order_ref: 1,
            canceled_shares: 1,
        }),
    );
    assert_eq!(book.best_bid(), None);
    // a second cancel of the same order is skipped
    apply_message(
        &mut book,
        &Message::OrderDelete(OrderDelete { stock_locate: 1, tracking_number: 0, timestamp_ns: 0, order_ref: 1 }),
    );
    assert_eq!(book.best_ask(), Some(110));
    assert_eq!(book.order_count(), 1);
}

#[test]
fn apply_to_book_treats_cancel_as_partial() {
    let mut book = OrderBook::new(0);
    apply_to_book(
        &mut book,
        &Message::AddOrderMpid(AddOrderMpid {
            stock_locate: 1,
            tracking_number: 0,
            timestamp_ns: 0,
            order_ref: 9,
            buy: true,
            shares: 10,
            stock: *b"TEST    ",
            price: 500,
            attribution: *b"MPID",
        }),
    );
    apply_to_book(
        &mut book,
        &Message::OrderCancel(OrderCancel {
            stock_locate: 1,
            tracking_number: 0,
            timestamp_ns: 0,
            order_ref: 9,
            canceled_shares: 3,
        }),
    );
    assert_eq!(book.best_bid(), Some(500));
    apply_to_book(
        &mut book,
        &Message::OrderCancel(OrderCancel {
            stock_locate: 1,
            tracking_number: 0,
            timestamp_ns: 0,
            order_ref: 9,
            canceled_shares: 7,
        }),
    );
    assert_eq!(book.best_bid(), None);
}

#[test]
fn cancel_succeeds_only_for_live_ids() {
    let mut book = OrderBook::new(4);
    // the pre-allocated blank slots carry id 0 but hold no order
    assert!(!book.cancel_order(0));
    book.add_order(3, false, 40, 2);
    book.add_order(0, true, 30, 1);
    assert!(!book.cancel_order(9));
    assert!(book.cancel_order(0));
    assert!(!book.cancel_order(0));
    book.add_order(4, true, 31, 1);
    assert!(book.cancel_order(3));
    assert!(book.cancel_order(4));
    assert!(!book.cancel_order(3));
    assert_eq!(book.order_count(), 0);
    assert_eq!(book.best_bid(), None);
    assert_eq!(book.best_ask(), None);
}
