//! Synthetic ITCH data: single binary messages whose decoding is known, and
//! length-prefixed streams of text-field messages in natural and shuffled
//! order (the shuffled copy guards benchmarks against a branch predictor
//! that has learnt the message order).

use vstd::prelude::*;
use crate::parser::layout::{arr8, be, lemma_arr4, lemma_arr8, lemma_pow256_values, pow256};
use crate::parser::naive::{
    AddOrder, AddOrderMpid, BrokenTrade, CrossTrade, MarketParticipantPosition, Message, OrderCancel,
    OrderDelete, OrderExecuted, OrderExecutedWithPrice, SystemEvent, Trade, FLAG_YES, SIDE_BUY,
    TYPE_ADD_ORDER, TYPE_ADD_ORDER_MPID, TYPE_BROKEN_TRADE, TYPE_CROSS_TRADE, TYPE_MARKET_PARTICIPANT,
    TYPE_ORDER_CANCEL, TYPE_ORDER_DELETE, TYPE_ORDER_EXECUTED, TYPE_ORDER_EXECUTED_WITH_PRICE,
    TYPE_SYSTEM_EVENT, TYPE_TRADE, decode_message, decode_stream, decode_stream_from, lemma_decode_shift,
};

verus! {

/// Stock locate written into every generated binary message.
pub const GEN_LOCATE: u16 = 1;
/// Tracking number written into every generated binary message.
pub const GEN_TRACKING: u16 = 0;
/// Timestamp written into every generated binary message: 09:30:00 in
/// nanoseconds since midnight.
pub const GEN_TIMESTAMP: u64 = 34_200_000_000_000;
/// `'S'`: sell side indicator.
pub const SIDE_SELL: u8 = 0x53;

// ---------------------------------------------------------------------------
// Big-endian bytes
// ---------------------------------------------------------------------------

/// The `n` low-order bytes of `v`, most significant first.
pub open spec fn be_bytes(v: nat, n: nat) -> Seq<u8>
    decreases n,
{
    if n == 0 {
        Seq::empty()
    } else {
        be_bytes(v / 256, (n - 1) as nat).push((v % 256) as u8)
    }
}

proof fn lemma_be_bytes_len(v: nat, n: nat)
    ensures
        be_bytes(v, n).len() == n,
    decreases n,
{
    if n > 0 {
        lemma_be_bytes_len(v / 256, (n - 1) as nat);
    }
}

/// Reading back `n` big-endian bytes gives the value they were written from.
proof fn lemma_be_of_bytes(s: Seq<u8>, start: int, v: nat, n: nat)
    requires
        0 <= start,
        start + n <= s.len(),
        s.subrange(start, start + n) == be_bytes(v, n),
        v < pow256(n),
    ensures
        be(s, start, n) == v,
    decreases n,
{
    if n > 0 {
        lemma_be_bytes_len(v / 256, (n - 1) as nat);
        let m = (n - 1) as nat;
        assert(s.subrange(start, start + m) =~= be_bytes(v / 256, m)) by {
            assert forall|j: int| 0 <= j < m implies #[trigger] s.subrange(start, start + m)[j] == be_bytes(
                v / 256,
                m,
            )[j] by {
                assert(s.subrange(start, start + n)[j] == s[start + j]);
            }
        }
        assert(s[start + m] == s.subrange(start, start + n)[m as int]);
        assert(v / 256 < pow256(m)) by (nonlinear_arith)
            requires
                v < pow256(n),
                pow256(n) == 256 * pow256(m),
        ;
        lemma_be_of_bytes(s, start, v / 256, m);
    }
}

/// Appends the `n` low-order bytes of `v`, most significant first.
fn push_be(buf: &mut Vec<u8>, v: u64, n: usize)
    requires
        n <= 8,
    ensures
        final(buf)@ == old(buf)@ + be_bytes(v as nat, n as nat),
        be_bytes(v as nat, n as nat).len() == n,
    decreases n,
{
    proof {
        lemma_be_bytes_len(v as nat, n as nat);
    }
    if n > 0 {
        push_be(buf, v / 256, n - 1);
        buf.push((v % 256) as u8);
        assert(buf@ =~= old(buf)@ + be_bytes(v as nat, n as nat));
    }
}

/// Appends the bytes of `s`.
fn push_bytes(buf: &mut Vec<u8>, s: &[u8])
    ensures
        final(buf)@ == old(buf)@ + s@,
{
    let mut i: usize = 0;
    while i < s.len()
        invariant
            i <= s@.len(),
            buf@ == old(buf)@ + s@.subrange(0, i as int),
        decreases s@.len() - i,
    {
        buf.push(s[i]);
        i = i + 1;
        assert(buf@ =~= old(buf)@ + s@.subrange(0, i as int));
    }
    assert(s@.subrange(0, s@.len() as int) =~= s@);
}

// ---------------------------------------------------------------------------
// Binary messages
// ---------------------------------------------------------------------------

/// The stock field of generated messages, `"TEST    "`.
pub open spec fn gen_stock_bytes() -> Seq<u8> {
    seq![0x54u8, 0x45u8, 0x53u8, 0x54u8, 0x20u8, 0x20u8, 0x20u8, 0x20u8]
}

/// The stock field of generated messages, as an array.
pub open spec fn gen_stock() -> [u8; 8] {
    arr8(gen_stock_bytes(), 0)
}

fn stock_field() -> (r: [u8; 8])
    ensures
        r@ == gen_stock_bytes(),
        r == gen_stock(),
{
    let r: [u8; 8] = [0x54, 0x45, 0x53, 0x54, 0x20, 0x20, 0x20, 0x20];
    assert(r@ =~= gen_stock_bytes());
    proof {
        assert(gen_stock_bytes().subrange(0, 8) =~= gen_stock_bytes());
        lemma_arr8(r, gen_stock_bytes(), 0);
    }
    r
}

/// Type byte, stock locate, tracking number and timestamp.
pub open spec fn header_bytes(t: u8) -> Seq<u8> {
    seq![t] + be_bytes(GEN_LOCATE as nat, 2) + be_bytes(GEN_TRACKING as nat, 2) + be_bytes(
        GEN_TIMESTAMP as nat,
        6,
    )
}

fn push_header(buf: &mut Vec<u8>, t: u8)
    ensures
        final(buf)@ == old(buf)@ + header_bytes(t),
        header_bytes(t).len() == 11,
{
    buf.push(t);
    push_be(buf, GEN_LOCATE as u64, 2);
    push_be(buf, GEN_TRACKING as u64, 2);
    push_be(buf, GEN_TIMESTAMP, 6);
    assert(buf@ =~= old(buf)@ + header_bytes(t));
}

/// The fields that every generated message starts with read back as written.
proof fn lemma_header(s: Seq<u8>, t: u8)
    requires
        s.len() >= 11,
        s.subrange(0, 11) == header_bytes(t),
    ensures
        s[0] == t,
        be(s, 1, 2) == GEN_LOCATE,
        be(s, 3, 2) == GEN_TRACKING,
        be(s, 5, 6) == GEN_TIMESTAMP,
{
    lemma_pow256_values();
    reveal_with_fuel(pow256, 7);
    let h = header_bytes(t);
    lemma_be_bytes_len(GEN_LOCATE as nat, 2);
    lemma_be_bytes_len(GEN_TRACKING as nat, 2);
    lemma_be_bytes_len(GEN_TIMESTAMP as nat, 6);
    assert(s[0] == s.subrange(0, 11)[0]);
    assert(s.subrange(1, 3) =~= be_bytes(GEN_LOCATE as nat, 2)) by {
        assert forall|j: int| 0 <= j < 2 implies #[trigger] s.subrange(1, 3)[j] == be_bytes(GEN_LOCATE as nat, 2)[j] by {
            assert(s.subrange(0, 11)[1 + j] == s[1 + j]);
        }
    }
    assert(s.subrange(3, 5) =~= be_bytes(GEN_TRACKING as nat, 2)) by {
        assert forall|j: int| 0 <= j < 2 implies #[trigger] s.subrange(3, 5)[j] == be_bytes(GEN_TRACKING as nat, 2)[j] by {
            assert(s.subrange(0, 11)[3 + j] == s[3 + j]);
        }
    }
    assert(s.subrange(5, 11) =~= be_bytes(GEN_TIMESTAMP as nat, 6)) by {
        assert forall|j: int| 0 <= j < 6 implies #[trigger] s.subrange(5, 11)[j] == be_bytes(GEN_TIMESTAMP as nat, 6)[j] by {
            assert(s.subrange(0, 11)[5 + j] == s[5 + j]);
        }
    }
    lemma_be_of_bytes(s, 1, GEN_LOCATE as nat, 2);
    lemma_be_of_bytes(s, 3, GEN_TRACKING as nat, 2);
    lemma_be_of_bytes(s, 5, GEN_TIMESTAMP as nat, 6);
}

/// The side byte written for `buy`.
pub open spec fn side_byte(buy: bool) -> u8 {
    if buy {
        SIDE_BUY
    } else {
        SIDE_SELL
    }
}

/// Bytes of a generated Add Order.
pub open spec fn add_order_bytes(order_ref: u64, buy: bool, shares: u32, price: u32) -> Seq<u8> {
    header_bytes(TYPE_ADD_ORDER) + be_bytes(order_ref as nat, 8) + seq![side_byte(buy)] + be_bytes(
        shares as nat,
        4,
    ) + gen_stock_bytes() + be_bytes(price as nat, 4)
}

/// Bytes of a generated Order Executed.
pub open spec fn order_executed_bytes(order_ref: u64, shares: u32, match_number: u64) -> Seq<u8> {
    header_bytes(TYPE_ORDER_EXECUTED) + be_bytes(order_ref as nat, 8) + be_bytes(shares as nat, 4)
        + be_bytes(match_number as nat, 8)
}

/// Bytes of a generated Order Cancel.
pub open spec fn order_cancel_bytes(order_ref: u64, shares: u32) -> Seq<u8> {
    header_bytes(TYPE_ORDER_CANCEL) + be_bytes(order_ref as nat, 8) + be_bytes(shares as nat, 4)
}

/// Bytes of a generated Order Delete.
pub open spec fn order_delete_bytes(order_ref: u64) -> Seq<u8> {
    header_bytes(TYPE_ORDER_DELETE) + be_bytes(order_ref as nat, 8)
}

/// Bytes of a generated buy-side Trade.
pub open spec fn trade_bytes(order_ref: u64, shares: u32, price: u32, match_number: u64) -> Seq<u8> {
    header_bytes(TYPE_TRADE) + be_bytes(order_ref as nat, 8) + seq![SIDE_BUY] + be_bytes(
        shares as nat,
        4,
    ) + gen_stock_bytes() + be_bytes(price as nat, 4) + be_bytes(match_number as nat, 8)
}

/// Bytes of a generated System Event.
pub open spec fn system_event_bytes(code: u8) -> Seq<u8> {
    header_bytes(TYPE_SYSTEM_EVENT) + seq![code]
}

/// The message a generated Add Order decodes to.
pub open spec fn gen_add_order(order_ref: u64, buy: bool, shares: u32, price: u32) -> Message {
    Message::AddOrder(
        AddOrder {
            stock_locate: GEN_LOCATE,
            tracking_number: GEN_TRACKING,
            timestamp_ns: GEN_TIMESTAMP,
            order_ref,
            buy,
            shares,
            stock: gen_stock(),
            price,
        },
    )
}

/// The message a generated Order Executed decodes to.
pub open spec fn gen_order_executed(order_ref: u64, shares: u32, match_number: u64) -> Message {
    Message::OrderExecuted(
        OrderExecuted {
            stock_locate: GEN_LOCATE,
            tracking_number: GEN_TRACKING,
            timestamp_ns: GEN_TIMESTAMP,
            order_ref,
            executed_shares: shares,
            match_number,
        },
    )
}

/// The message a generated Order Cancel decodes to.
pub open spec fn gen_order_cancel(order_ref: u64, shares: u32) -> Message {
    Message::OrderCancel(
        OrderCancel {
            stock_locate: GEN_LOCATE,
            tracking_number: GEN_TRACKING,
            timestamp_ns: GEN_TIMESTAMP,
            order_ref,
            canceled_shares: shares,
        },
    )
}

/// The message a generated Order Delete decodes to.
pub open spec fn gen_order_delete(order_ref: u64) -> Message {
    Message::OrderDelete(
        OrderDelete {
            stock_locate: GEN_LOCATE,
            tracking_number: GEN_TRACKING,
            timestamp_ns: GEN_TIMESTAMP,
            order_ref,
        },
    )
}

/// The message a generated Trade decodes to.
pub open spec fn gen_trade(order_ref: u64, shares: u32, price: u32, match_number: u64) -> Message {
    Message::Trade(
        Trade {
            stock_locate: GEN_LOCATE,
            tracking_number: GEN_TRACKING,
            timestamp_ns: GEN_TIMESTAMP,
            order_ref,
            buy: true,
            shares,
            stock: gen_stock(),
            price,
            match_number,
        },
    )
}

/// The message a generated System Event decodes to.
pub open spec fn gen_system_event(code: u8) -> Message {
    Message::SystemEvent(
        SystemEvent {
            stock_locate: GEN_LOCATE,
            tracking_number: GEN_TRACKING,
            timestamp_ns: GEN_TIMESTAMP,
            event_code: code,
        },
    )
}

proof fn lemma_lens(order_ref: u64, shares: u32, price: u32, match_number: u64)
    ensures
        be_bytes(order_ref as nat, 8).len() == 8,
        be_bytes(shares as nat, 4).len() == 4,
        be_bytes(price as nat, 4).len() == 4,
        be_bytes(match_number as nat, 8).len() == 8,
        gen_stock_bytes().len() == 8,
        forall|t: u8| #[trigger] header_bytes(t).len() == 11,
{
    lemma_be_bytes_len(order_ref as nat, 8);
    lemma_be_bytes_len(shares as nat, 4);
    lemma_be_bytes_len(price as nat, 4);
    lemma_be_bytes_len(match_number as nat, 8);
    lemma_be_bytes_len(GEN_LOCATE as nat, 2);
    lemma_be_bytes_len(GEN_TRACKING as nat, 2);
    lemma_be_bytes_len(GEN_TIMESTAMP as nat, 6);
}

/// A generated Add Order decodes to the fields it was built from.
pub proof fn lemma_decode_add_order(order_ref: u64, buy: bool, shares: u32, price: u32)
    ensures
        decode_message(add_order_bytes(order_ref, buy, shares, price)) == Some(
            (gen_add_order(order_ref, buy, shares, price), 36usize),
        ),
{
    let s = add_order_bytes(order_ref, buy, shares, price);
    lemma_lens(order_ref, shares, price, 0);
    lemma_pow256_values();
    assert(s.len() == 36);
    assert(s.subrange(0, 11) =~= header_bytes(TYPE_ADD_ORDER));
    lemma_header(s, TYPE_ADD_ORDER);
    assert(s.subrange(11, 19) =~= be_bytes(order_ref as nat, 8));
    lemma_be_of_bytes(s, 11, order_ref as nat, 8);
    assert(s[19] == side_byte(buy));
    assert(s.subrange(20, 24) =~= be_bytes(shares as nat, 4));
    lemma_be_of_bytes(s, 20, shares as nat, 4);
    assert(s.subrange(24, 32) =~= gen_stock_bytes().subrange(0, 8));
    assert(s.subrange(32, 36) =~= be_bytes(price as nat, 4));
    lemma_be_of_bytes(s, 32, price as nat, 4);
}

/// A generated Order Executed decodes to the fields it was built from.
pub proof fn lemma_decode_order_executed(order_ref: u64, shares: u32, match_number: u64)
    ensures
        decode_message(order_executed_bytes(order_ref, shares, match_number)) == Some(
            (gen_order_executed(order_ref, shares, match_number), 31usize),
        ),
{
    let s = order_executed_bytes(order_ref, shares, match_number);
    lemma_lens(order_ref, shares, 0, match_number);
    lemma_pow256_values();
    assert(s.len() == 31);
    assert(s.subrange(0, 11) =~= header_bytes(TYPE_ORDER_EXECUTED));
    lemma_header(s, TYPE_ORDER_EXECUTED);
    assert(s.subrange(11, 19) =~= be_bytes(order_ref as nat, 8));
    lemma_be_of_bytes(s, 11, order_ref as nat, 8);
    assert(s.subrange(19, 23) =~= be_bytes(shares as nat, 4));
    lemma_be_of_bytes(s, 19, shares as nat, 4);
    assert(s.subrange(23, 31) =~= be_bytes(match_number as nat, 8));
    lemma_be_of_bytes(s, 23, match_number as nat, 8);
}

/// A generated Order Cancel decodes to the fields it was built from.
pub proof fn lemma_decode_order_cancel(order_ref: u64, shares: u32)
    ensures
        decode_message(order_cancel_bytes(order_ref, shares)) == Some(
            (gen_order_cancel(order_ref, shares), 23usize),
        ),
{
    let s = order_cancel_bytes(order_ref, shares);
    lemma_lens(order_ref, shares, 0, 0);
    lemma_pow256_values();
    assert(s.len() == 23);
    assert(s.subrange(0, 11) =~= header_bytes(TYPE_ORDER_CANCEL));
    lemma_header(s, TYPE_ORDER_CANCEL);
    assert(s.subrange(11, 19) =~= be_bytes(order_ref as nat, 8));
    lemma_be_of_bytes(s, 11, order_ref as nat, 8);
    assert(s.subrange(19, 23) =~= be_bytes(shares as nat, 4));
    lemma_be_of_bytes(s, 19, shares as nat, 4);
}

/// A generated Order Delete decodes to the fields it was built from.
pub proof fn lemma_decode_order_delete(order_ref: u64)
    ensures
        decode_message(order_delete_bytes(order_ref)) == Some(
            (gen_order_delete(order_ref), 19usize),
        ),
{
    let s = order_delete_bytes(order_ref);
    lemma_lens(order_ref, 0, 0, 0);
    lemma_pow256_values();
    assert(s.len() == 19);
    assert(s.subrange(0, 11) =~= header_bytes(TYPE_ORDER_DELETE));
    lemma_header(s, TYPE_ORDER_DELETE);
    assert(s.subrange(11, 19) =~= be_bytes(order_ref as nat, 8));
    lemma_be_of_bytes(s, 11, order_ref as nat, 8);
}

/// A generated Trade decodes to the fields it was built from.
pub proof fn lemma_decode_trade(order_ref: u64, shares: u32, price: u32, match_number: u64)
    ensures
        decode_message(trade_bytes(order_ref, shares, price, match_number)) == Some(
            (gen_trade(order_ref, shares, price, match_number), 44usize),
        ),
{
    let s = trade_bytes(order_ref, shares, price, match_number);
    lemma_lens(order_ref, shares, price, match_number);
    lemma_pow256_values();
    assert(s.len() == 44);
    assert(s.subrange(0, 11) =~= header_bytes(TYPE_TRADE));
    lemma_header(s, TYPE_TRADE);
    assert(s.subrange(11, 19) =~= be_bytes(order_ref as nat, 8));
    lemma_be_of_bytes(s, 11, order_ref as nat, 8);
    assert(s[19] == SIDE_BUY);
    assert(s.subrange(20, 24) =~= be_bytes(shares as nat, 4));
    lemma_be_of_bytes(s, 20, shares as nat, 4);
    assert(s.subrange(24, 32) =~= gen_stock_bytes().subrange(0, 8));
    assert(s.subrange(32, 36) =~= be_bytes(price as nat, 4));
    lemma_be_of_bytes(s, 32, price as nat, 4);
    assert(s.subrange(36, 44) =~= be_bytes(match_number as nat, 8));
    lemma_be_of_bytes(s, 36, match_number as nat, 8);
}

/// A generated System Event decodes to the event code it was built from.
pub proof fn lemma_decode_system_event(code: u8)
    ensures
        decode_message(system_event_bytes(code)) == Some((gen_system_event(code), 12usize)),
{
    let s = system_event_bytes(code);
    lemma_lens(0, 0, 0, 0);
    assert(s.len() == 12);
    assert(s.subrange(0, 11) =~= header_bytes(TYPE_SYSTEM_EVENT));
    lemma_header(s, TYPE_SYSTEM_EVENT);
    assert(s[11] == code);
}

/// `'N'`: no flag.
pub open spec fn flag_byte(yes: bool) -> u8 {
    if yes {
        FLAG_YES
    } else {
        0x4eu8
    }
}

/// Bytes of an Add Order with MPID attribution built from its fields.
pub open spec fn add_order_mpid_bytes(
    order_ref: u64,
    buy: bool,
    shares: u32,
    price: u32,
    attribution: [u8; 4],
) -> Seq<u8> {
    header_bytes(TYPE_ADD_ORDER_MPID) + be_bytes(order_ref as nat, 8) + seq![side_byte(buy)] + be_bytes(
        shares as nat,
        4,
    ) + gen_stock_bytes() + be_bytes(price as nat, 4) + attribution@
}

/// Bytes of an Order Executed With Price built from its fields.
pub open spec fn executed_with_price_bytes(
    order_ref: u64,
    shares: u32,
    match_number: u64,
    printable: bool,
    price: u32,
) -> Seq<u8> {
    header_bytes(TYPE_ORDER_EXECUTED_WITH_PRICE) + be_bytes(order_ref as nat, 8) + be_bytes(shares as nat, 4)
        + be_bytes(match_number as nat, 8) + seq![flag_byte(printable)] + be_bytes(price as nat, 4)
}

/// Bytes of a Trade on either side built from its fields.
pub open spec fn trade_side_bytes(order_ref: u64, buy: bool, shares: u32, price: u32, match_number: u64) -> Seq<
    u8,
> {
    header_bytes(TYPE_TRADE) + be_bytes(order_ref as nat, 8) + seq![side_byte(buy)] + be_bytes(shares as nat, 4)
        + gen_stock_bytes() + be_bytes(price as nat, 4) + be_bytes(match_number as nat, 8)
}

/// Bytes of a Market Participant Position built from its fields.
pub open spec fn market_participant_bytes(mpid: [u8; 4], primary: bool, mode: u8, state: u8) -> Seq<u8> {
    header_bytes(TYPE_MARKET_PARTICIPANT) + mpid@ + gen_stock_bytes() + seq![flag_byte(primary), mode, state]
}

/// Bytes of a Cross Trade built from its fields.
pub open spec fn cross_trade_bytes(shares: u64, price: u32, match_number: u64, cross_type: u8) -> Seq<u8> {
    header_bytes(TYPE_CROSS_TRADE) + be_bytes(shares as nat, 8) + gen_stock_bytes() + be_bytes(price as nat, 4)
        + be_bytes(match_number as nat, 8) + seq![cross_type]
}

/// Bytes of a Broken Trade built from its match number.
pub open spec fn broken_trade_bytes(match_number: u64) -> Seq<u8> {
    header_bytes(TYPE_BROKEN_TRADE) + be_bytes(match_number as nat, 8)
}

/// An Add Order with MPID built from its fields decodes to those fields:
/// the order is a buy exactly when it was written with the buy side byte.
pub proof fn lemma_decode_add_order_mpid(order_ref: u64, buy: bool, shares: u32, price: u32, attribution: [u8; 4])
    ensures
        decode_message(add_order_mpid_bytes(order_ref, buy, shares, price, attribution)) == Some(
            (
                Message::AddOrderMpid(
                    AddOrderMpid {
                        stock_locate: GEN_LOCATE,
                        tracking_number: GEN_TRACKING,
                        timestamp_ns: GEN_TIMESTAMP,
                        order_ref,
                        buy,
                        shares,
                        stock: gen_stock(),
                        price,
                        attribution,
                    },
                ),
                40usize,
            ),
        ),
{
    broadcast use vstd::array::group_array_axioms;
    let s = add_order_mpid_bytes(order_ref, buy, shares, price, attribution);
    lemma_lens(order_ref, shares, price, 0);
    lemma_pow256_values();
    assert(attribution@.len() == 4);
    assert(s.len() == 40);
    assert(s.subrange(0, 11) =~= header_bytes(TYPE_ADD_ORDER_MPID));
    lemma_header(s, TYPE_ADD_ORDER_MPID);
    assert(s.subrange(11, 19) =~= be_bytes(order_ref as nat, 8));
    lemma_be_of_bytes(s, 11, order_ref as nat, 8);
    assert(s[19] == side_byte(buy));
    assert(s.subrange(20, 24) =~= be_bytes(shares as nat, 4));
    lemma_be_of_bytes(s, 20, shares as nat, 4);
    assert(s.subrange(24, 32) =~= gen_stock_bytes().subrange(0, 8));
    assert(s.subrange(32, 36) =~= be_bytes(price as nat, 4));
    lemma_be_of_bytes(s, 32, price as nat, 4);
    assert(s.subrange(36, 40) =~= attribution@);
    lemma_arr4(attribution, s, 36);
}

/// An Order Executed With Price built from its fields decodes to those
/// fields: it is printable exactly when it was written with the yes flag.
pub proof fn lemma_decode_executed_with_price(
    order_ref: u64,
    shares: u32,
    match_number: u64,
    printable: bool,
    price: u32,
)
    ensures
        decode_message(executed_with_price_bytes(order_ref, shares, match_number, printable, price)) == Some(
            (
                Message::OrderExecutedWithPrice(
                    OrderExecutedWithPrice {
                        stock_locate: GEN_LOCATE,
                        tracking_number: GEN_TRACKING,
                        timestamp_ns: GEN_TIMESTAMP,
                        order_ref,
                        executed_shares: shares,
                        match_number,
                        printable,
                        execution_price: price,
                    },
                ),
                36usize,
            ),
        ),
{
    let s = executed_with_price_bytes(order_ref, shares, match_number, printable, price);
    lemma_lens(order_ref, shares, price, match_number);
    lemma_pow256_values();
    assert(s.len() == 36);
    assert(s.subrange(0, 11) =~= header_bytes(TYPE_ORDER_EXECUTED_WITH_PRICE));
    lemma_header(s, TYPE_ORDER_EXECUTED_WITH_PRICE);
    assert(s.subrange(11, 19) =~= be_bytes(order_ref as nat, 8));
    lemma_be_of_bytes(s, 11, order_ref as nat, 8);
    assert(s.subrange(19, 23) =~= be_bytes(shares as nat, 4));
    lemma_be_of_bytes(s, 19, shares as nat, 4);
    assert(s.subrange(23, 31) =~= be_bytes(match_number as nat, 8));
    lemma_be_of_bytes(s, 23, match_number as nat, 8);
    assert(s[31] == flag_byte(printable));
    assert(s.subrange(32, 36) =~= be_bytes(price as nat, 4));
    lemma_be_of_bytes(s, 32, price as nat, 4);
}

/// A Trade built from its fields decodes to those fields, on the side it
/// was written with.
pub proof fn lemma_decode_trade_side(order_ref: u64, buy: bool, shares: u32, price: u32, match_number: u64)
    ensures
        decode_message(trade_side_bytes(order_ref, buy, shares, price, match_number)) == Some(
            (
                Message::Trade(
                    Trade {
                        stock_locate: GEN_LOCATE,
                        tracking_number: GEN_TRACKING,
                        timestamp_ns: GEN_TIMESTAMP,
                        order_ref,
                        buy,
                        shares,
                        stock: gen_stock(),
                        price,
                        match_number,
                    },
                ),
                44usize,
            ),
        ),
{
    let s = trade_side_bytes(order_ref, buy, shares, price, match_number);
    lemma_lens(order_ref, shares, price, match_number);
    lemma_pow256_values();
    assert(s.len() == 44);
    assert(s.subrange(0, 11) =~= header_bytes(TYPE_TRADE));
    lemma_header(s, TYPE_TRADE);
    assert(s.subrange(11, 19) =~= be_bytes(order_ref as nat, 8));
    lemma_be_of_bytes(s, 11, order_ref as nat, 8);
    assert(s[19] == side_byte(buy));
    assert(s.subrange(20, 24) =~= be_bytes(shares as nat, 4));
    lemma_be_of_bytes(s, 20, shares as nat, 4);
    assert(s.subrange(24, 32) =~= gen_stock_bytes().subrange(0, 8));
    assert(s.subrange(32, 36) =~= be_bytes(price as nat, 4));
    lemma_be_of_bytes(s, 32, price as nat, 4);
    assert(s.subrange(36, 44) =~= be_bytes(match_number as nat, 8));
    lemma_be_of_bytes(s, 36, match_number as nat, 8);
}

/// A Market Participant Position built from its fields decodes to those
/// fields: the participant is primary exactly when written with the yes
/// flag.
pub proof fn lemma_decode_market_participant(mpid: [u8; 4], primary: bool, mode: u8, state: u8)
    ensures
        decode_message(market_participant_bytes(mpid, primary, mode, state)) == Some(
            (
                Message::MarketParticipantPosition(
                    MarketParticipantPosition {
                        stock_locate: GEN_LOCATE,
                        tracking_number: GEN_TRACKING,
                        timestamp_ns: GEN_TIMESTAMP,
                        mpid,
                        stock: gen_stock(),
                        primary_market_maker: primary,
                        market_maker_mode: mode,
                        market_participant_state: state,
                    },
                ),
                26usize,
            ),
        ),
{
    broadcast use vstd::array::group_array_axioms;
    let s = market_participant_bytes(mpid, primary, mode, state);
    lemma_lens(0, 0, 0, 0);
    assert(mpid@.len() == 4);
    assert(s.len() == 26);
    assert(s.subrange(0, 11) =~= header_bytes(TYPE_MARKET_PARTICIPANT));
    lemma_header(s, TYPE_MARKET_PARTICIPANT);
    assert(s.subrange(11, 15) =~= mpid@);
    lemma_arr4(mpid, s, 11);
    assert(s.subrange(15, 23) =~= gen_stock_bytes().subrange(0, 8));
    assert(s[23] == flag_byte(primary));
    assert(s[24] == mode);
    assert(s[25] == state);
}

/// A Cross Trade built from its fields decodes to those fields.
pub proof fn lemma_decode_cross_trade(shares: u64, price: u32, match_number: u64, cross_type: u8)
    ensures
        decode_message(cross_trade_bytes(shares, price, match_number, cross_type)) == Some(
            (
                Message::CrossTrade(
                    CrossTrade {
                        stock_locate: GEN_LOCATE,
                        tracking_number: GEN_TRACKING,
                        timestamp_ns: GEN_TIMESTAMP,
                        shares,
                        stock: gen_stock(),
                        cross_price: price,
                        match_number,
                        cross_type,
                    },
                ),
                40usize,
            ),
        ),
{
    let s = cross_trade_bytes(shares, price, match_number, cross_type);
    lemma_lens(shares, 0, price, match_number);
    lemma_pow256_values();
    assert(s.len() == 40);
    assert(s.subrange(0, 11) =~= header_bytes(TYPE_CROSS_TRADE));
    lemma_header(s, TYPE_CROSS_TRADE);
    assert(s.subrange(11, 19) =~= be_bytes(shares as nat, 8));
    lemma_be_of_bytes(s, 11, shares as nat, 8);
    assert(s.subrange(19, 27) =~= gen_stock_bytes().subrange(0, 8));
    assert(s.subrange(27, 31) =~= be_bytes(price as nat, 4));
    lemma_be_of_bytes(s, 27, price as nat, 4);
    assert(s.subrange(31, 39) =~= be_bytes(match_number as nat, 8));
    lemma_be_of_bytes(s, 31, match_number as nat, 8);
    assert(s[39] == cross_type);
}

/// A Broken Trade built from its match number decodes to it.
pub proof fn lemma_decode_broken_trade(match_number: u64)
    ensures
        decode_message(broken_trade_bytes(match_number)) == Some(
            (
                Message::BrokenTrade(
                    BrokenTrade {
                        stock_locate: GEN_LOCATE,
                        tracking_number: GEN_TRACKING,
                        timestamp_ns: GEN_TIMESTAMP,
                        match_number,
                    },
                ),
                19usize,
            ),
        ),
{
    let s = broken_trade_bytes(match_number);
    lemma_lens(0, 0, 0, match_number);
    lemma_pow256_values();
    assert(s.len() == 19);
    assert(s.subrange(0, 11) =~= header_bytes(TYPE_BROKEN_TRADE));
    lemma_header(s, TYPE_BROKEN_TRADE);
    assert(s.subrange(11, 19) =~= be_bytes(match_number as nat, 8));
    lemma_be_of_bytes(s, 11, match_number as nat, 8);
}

/// An Add Order for `order_ref`: `shares` at `price` on the buy side when
/// `buy`, else the sell side.
pub fn build_add_order(order_ref: u64, buy: bool, shares: u32, price: u32) -> (r: Vec<u8>)
    ensures
        r@ == add_order_bytes(order_ref, buy, shares, price),
        decode_message(r@) == Some((gen_add_order(order_ref, buy, shares, price), 36usize)),
{
    let mut msg: Vec<u8> = Vec::new();
    push_header(&mut msg, TYPE_ADD_ORDER);
    push_be(&mut msg, order_ref, 8);
    msg.push(if buy { SIDE_BUY } else { SIDE_SELL });
    push_be(&mut msg, shares as u64, 4);
    let stock = stock_field();
    push_bytes(&mut msg, &stock);
    push_be(&mut msg, price as u64, 4);
    assert(msg@ =~= add_order_bytes(order_ref, buy, shares, price));
    proof {
        lemma_decode_add_order(order_ref, buy, shares, price);
    }
    msg
}

/// An Order Executed of `shares` of `order_ref` under `match_number`.
pub fn build_order_executed(order_ref: u64, shares: u32, match_number: u64) -> (r: Vec<u8>)
    ensures
        r@ == order_executed_bytes(order_ref, shares, match_number),
        decode_message(r@) == Some((gen_order_executed(order_ref, shares, match_number), 31usize)),
{
    let mut msg: Vec<u8> = Vec::new();
    push_header(&mut msg, TYPE_ORDER_EXECUTED);
    push_be(&mut msg, order_ref, 8);
    push_be(&mut msg, shares as u64, 4);
    push_be(&mut msg, match_number, 8);
    assert(msg@ =~= order_executed_bytes(order_ref, shares, match_number));
    proof {
        lemma_decode_order_executed(order_ref, shares, match_number);
    }
    msg
}

/// An Order Cancel of `shares` of `order_ref`.
pub fn build_order_cancel(order_ref: u64, shares: u32) -> (r: Vec<u8>)
    ensures
        r@ == order_cancel_bytes(order_ref, shares),
        decode_message(r@) == Some((gen_order_cancel(order_ref, shares), 23usize)),
{
    let mut msg: Vec<u8> = Vec::new();
    push_header(&mut msg, TYPE_ORDER_CANCEL);
    push_be(&mut msg, order_ref, 8);
    push_be(&mut msg, shares as u64, 4);
    assert(msg@ =~= order_cancel_bytes(order_ref, shares));
    proof {
        lemma_decode_order_cancel(order_ref, shares);
    }
    msg
}

/// An Order Delete of `order_ref`.
pub fn build_order_delete(order_ref: u64) -> (r: Vec<u8>)
    ensures
        r@ == order_delete_bytes(order_ref),
        decode_message(r@) == Some((gen_order_delete(order_ref), 19usize)),
{
    let mut msg: Vec<u8> = Vec::new();
    push_header(&mut msg, TYPE_ORDER_DELETE);
    push_be(&mut msg, order_ref, 8);
    assert(msg@ =~= order_delete_bytes(order_ref));
    proof {
        lemma_decode_order_delete(order_ref);
    }
    msg
}

/// A buy-side Trade of `shares` at `price` against `order_ref` under
/// `match_number`.
pub fn build_trade(order_ref: u64, shares: u32, price: u32, match_number: u64) -> (r: Vec<u8>)
    ensures
        r@ == trade_bytes(order_ref, shares, price, match_number),
        decode_message(r@) == Some((gen_trade(order_ref, shares, price, match_number), 44usize)),
{
    let mut msg: Vec<u8> = Vec::new();
    push_header(&mut msg, TYPE_TRADE);
    push_be(&mut msg, order_ref, 8);
    msg.push(SIDE_BUY);
    push_be(&mut msg, shares as u64, 4);
    let stock = stock_field();
    push_bytes(&mut msg, &stock);
    push_be(&mut msg, price as u64, 4);
    push_be(&mut msg, match_number, 8);
    assert(msg@ =~= trade_bytes(order_ref, shares, price, match_number));
    proof {
        lemma_decode_trade(order_ref, shares, price, match_number);
    }
    msg
}

/// A System Event with event code `code`.
pub fn build_system_event(code: u8) -> (r: Vec<u8>)
    ensures
        r@ == system_event_bytes(code),
        decode_message(r@) == Some((gen_system_event(code), 12usize)),
{
    let mut msg: Vec<u8> = Vec::new();
    push_header(&mut msg, TYPE_SYSTEM_EVENT);
    msg.push(code);
    assert(msg@ =~= system_event_bytes(code));
    proof {
        lemma_decode_system_event(code);
    }
    msg
}

// ---------------------------------------------------------------------------
// Text-field messages and streams
// ---------------------------------------------------------------------------

/// `'0'`.
pub const DIGIT_ZERO: u8 = 0x30;
/// Multiplier of the generator that drives the shuffle.
pub const LCG_MUL: u64 = 6364136223846793005;

/// Decimal digits of `v`, most significant first, without leading zeros.
pub open spec fn decimal(v: nat) -> Seq<u8>
    decreases v,
{
    if v < 10 {
        seq![(DIGIT_ZERO + v) as u8]
    } else {
        decimal(v / 10).push((DIGIT_ZERO + v % 10) as u8)
    }
}

/// `v` in decimal, padded on the left with zeros to at least `width` digits.
pub open spec fn padded(v: nat, width: nat) -> Seq<u8> {
    let d = decimal(v);
    if d.len() < width {
        Seq::new((width - d.len()) as nat, |i: int| DIGIT_ZERO) + d
    } else {
        d
    }
}

fn decimal_digits(v: u64) -> (r: Vec<u8>)
    ensures
        r@ == decimal(v as nat),
    decreases v,
{
    if v < 10 {
        let mut r: Vec<u8> = Vec::new();
        r.push(DIGIT_ZERO + v as u8);
        r
    } else {
        let mut r = decimal_digits(v / 10);
        r.push(DIGIT_ZERO + (v % 10) as u8);
        r
    }
}

/// Appends `v` in decimal, zero-padded to at least `width` digits.
fn push_padded(buf: &mut Vec<u8>, v: u64, width: usize)
    ensures
        final(buf)@ == old(buf)@ + padded(v as nat, width as nat),
{
    let d = decimal_digits(v);
    let ghost start = buf@;
    if d.len() < width {
        let zeros = width - d.len();
        let mut k: usize = 0;
        while k < zeros
            invariant
                k <= zeros,
                buf@ == start + Seq::new(k as nat, |i: int| DIGIT_ZERO),
            decreases zeros - k,
        {
            buf.push(DIGIT_ZERO);
            k = k + 1;
            assert(buf@ =~= start + Seq::new(k as nat, |i: int| DIGIT_ZERO));
        }
    }
    push_bytes(buf, d.as_slice());
    assert(buf@ =~= start + padded(v as nat, width as nat));
}

/// `n`, or one when `n` is zero.
pub open spec fn at_least_one(n: nat) -> nat {
    if n == 0 {
        1
    } else {
        n
    }
}

/// The `i`-th text-field Add Order of a stream: order number `i` in
/// eight digits, buying when `i` is even and selling otherwise.
pub open spec fn text_add(i: nat) -> Seq<u8> {
    seq![TYPE_ADD_ORDER] + padded(1, 2) + padded(1, 2) + padded(123, 11) + padded(i, 8) + seq![
        side_byte(i % 2 == 0),
    ] + padded(100, 6) + gen_stock_bytes() + padded(10000, 10)
}

/// The `i`-th text-field Order Executed of a stream over `n_add` orders.
pub open spec fn text_exec(i: nat, n_add: nat) -> Seq<u8> {
    seq![TYPE_ORDER_EXECUTED] + padded(1, 2) + padded(1, 2) + padded(123, 11) + padded(
        i % at_least_one(n_add),
        8,
    ) + padded(50, 6) + padded(i, 8)
}

/// The `i`-th text-field Order Cancel of a stream over `n_add` orders.
pub open spec fn text_cancel(i: nat, n_add: nat) -> Seq<u8> {
    seq![TYPE_ORDER_CANCEL] + padded(1, 2) + padded(1, 2) + padded(123, 11) + padded(
        i % at_least_one(n_add),
        8,
    ) + padded(25, 6)
}

/// The messages of a stream in natural order: all adds, then all
/// executions, then all cancels.
pub open spec fn stream_messages(n_add: nat, n_exec: nat, n_cancel: nat) -> Seq<Seq<u8>> {
    Seq::new(n_add, |i: int| text_add(i as nat)) + Seq::new(
        n_exec,
        |i: int| text_exec(i as nat, n_add),
    ) + Seq::new(n_cancel, |i: int| text_cancel(i as nat, n_add))
}

/// A message preceded by its length, truncated to 16 bits, big-endian.
pub open spec fn frame(m: Seq<u8>) -> Seq<u8> {
    be_bytes((m.len() as u16) as nat, 2) + m
}

/// The messages framed one after another.
pub open spec fn framed(msgs: Seq<Seq<u8>>) -> Seq<u8>
    decreases msgs.len(),
{
    if msgs.len() == 0 {
        Seq::empty()
    } else {
        framed(msgs.drop_last()) + frame(msgs.last())
    }
}

/// Swaps the entries at `i` and `j`.
pub open spec fn swap_at<T>(s: Seq<T>, i: int, j: int) -> Seq<T> {
    s.update(i, s[j]).update(j, s[i])
}

/// The step of the linear congruential generator behind the shuffle.
pub open spec fn lcg_next(state: u64) -> u64 {
    state.wrapping_mul(LCG_MUL).wrapping_add(1)
}

/// The Fisher–Yates pass over positions `i` down to 1: each position swaps
/// with one drawn from the top bits of the next generator state.
pub open spec fn shuffle_down<T>(s: Seq<T>, i: nat, state: u64) -> Seq<T>
    decreases i,
{
    if i == 0 {
        s
    } else {
        let next = lcg_next(state);
        let j = ((next >> 33u64) as nat) % (i + 1);
        shuffle_down(swap_at(s, i as int, j as int), (i - 1) as nat, next)
    }
}

/// `s` shuffled by a generator seeded with `seed`.
pub open spec fn shuffled<T>(s: Seq<T>, seed: u64) -> Seq<T> {
    if s.len() == 0 {
        s
    } else {
        shuffle_down(s, (s.len() - 1) as nat, seed)
    }
}

fn text_add_message(i: usize) -> (r: Vec<u8>)
    ensures
        r@ == text_add(i as nat),
{
    let mut msg: Vec<u8> = Vec::new();
    msg.push(TYPE_ADD_ORDER);
    push_padded(&mut msg, 1, 2);
    push_padded(&mut msg, 1, 2);
    push_padded(&mut msg, 123, 11);
    push_padded(&mut msg, i as u64, 8);
    msg.push(if i % 2 == 0 { SIDE_BUY } else { SIDE_SELL });
    push_padded(&mut msg, 100, 6);
    let stock = stock_field();
    push_bytes(&mut msg, &stock);
    push_padded(&mut msg, 10000, 10);
    assert(msg@ =~= text_add(i as nat));
    msg
}

fn text_exec_message(i: usize, n_add: usize) -> (r: Vec<u8>)
    ensures
        r@ == text_exec(i as nat, n_add as nat),
{
    let base = if n_add == 0 { 1 } else { n_add };
    let mut msg: Vec<u8> = Vec::new();
    msg.push(TYPE_ORDER_EXECUTED);
    push_padded(&mut msg, 1, 2);
    push_padded(&mut msg, 1, 2);
    push_padded(&mut msg, 123, 11);
    push_padded(&mut msg, (i % base) as u64, 8);
    push_padded(&mut msg, 50, 6);
    push_padded(&mut msg, i as u64, 8);
    assert(msg@ =~= text_exec(i as nat, n_add as nat));
    msg
}

fn text_cancel_message(i: usize, n_add: usize) -> (r: Vec<u8>)
    ensures
        r@ == text_cancel(i as nat, n_add as nat),
{
    let base = if n_add == 0 { 1 } else { n_add };
    let mut msg: Vec<u8> = Vec::new();
    msg.push(TYPE_ORDER_CANCEL);
    push_padded(&mut msg, 1, 2);
    push_padded(&mut msg, 1, 2);
    push_padded(&mut msg, 123, 11);
    push_padded(&mut msg, (i % base) as u64, 8);
    push_padded(&mut msg, 25, 6);
    assert(msg@ =~= text_cancel(i as nat, n_add as nat));
    msg
}

/// The messages of a stream in natural order.
fn text_messages(n_add: usize, n_exec: usize, n_cancel: usize) -> (r: Vec<Vec<u8>>)
    ensures
        r@.len() == stream_messages(n_add as nat, n_exec as nat, n_cancel as nat).len(),
        forall|k: int|
            0 <= k < r@.len() ==> #[trigger] r@[k]@ == stream_messages(
                n_add as nat,
                n_exec as nat,
                n_cancel as nat,
            )[k],
{
    let ghost target = stream_messages(n_add as nat, n_exec as nat, n_cancel as nat);
    let mut messages: Vec<Vec<u8>> = Vec::new();
    let mut i: usize = 0;
    while i < n_add
        invariant
            i <= n_add,
            messages@.len() == i,
            target == stream_messages(n_add as nat, n_exec as nat, n_cancel as nat),
            forall|k: int| 0 <= k < i ==> #[trigger] messages@[k]@ == target[k],
        decreases n_add - i,
    {
        messages.push(text_add_message(i));
        i = i + 1;
    }
    let mut i: usize = 0;
    while i < n_exec
        invariant
            i <= n_exec,
            messages@.len() == n_add + i,
            target == stream_messages(n_add as nat, n_exec as nat, n_cancel as nat),
            forall|k: int| 0 <= k < n_add + i ==> #[trigger] messages@[k]@ == target[k],
        decreases n_exec - i,
    {
        messages.push(text_exec_message(i, n_add));
        i = i + 1;
    }
    let mut i: usize = 0;
    while i < n_cancel
        invariant
            i <= n_cancel,
            messages@.len() == n_add + n_exec + i,
            target == stream_messages(n_add as nat, n_exec as nat, n_cancel as nat),
            forall|k: int| 0 <= k < n_add + n_exec + i ==> #[trigger] messages@[k]@ == target[k],
        decreases n_cancel - i,
    {
        messages.push(text_cancel_message(i, n_add));
        i = i + 1;
    }
    messages
}

/// `0, 1, ..., n - 1`.
pub open spec fn identity(n: nat) -> Seq<usize> {
    Seq::new(n, |k: int| k as usize)
}

fn identity_order(n: usize) -> (r: Vec<usize>)
    ensures
        r@ == identity(n as nat),
{
    let mut r: Vec<usize> = Vec::new();
    let mut k: usize = 0;
    while k < n
        invariant
            k <= n,
            r@ == identity(k as nat),
        decreases n - k,
    {
        r.push(k);
        k = k + 1;
        assert(r@ =~= identity(k as nat));
    }
    r
}

/// The order in which a shuffled stream emits its `n` messages.
fn shuffled_order(n: usize, seed: u64) -> (r: Vec<usize>)
    ensures
        r@ == shuffled(identity(n as nat), seed),
{
    let mut perm = identity_order(n);
    if n > 1 {
        let ghost target = shuffled(identity(n as nat), seed);
        let mut state = seed;
        let mut i = n - 1;
        while i >= 1
            invariant
                perm@.len() == n,
                i < n,
                target == shuffle_down(perm@, i as nat, state),
            decreases i,
        {
            let ghost before = perm@;
            state = state.wrapping_mul(LCG_MUL).wrapping_add(1);
            assert(state >> 33u64 <= 0x7fff_ffffu64) by (bit_vector);
            let j = (state >> 33) as usize % (i + 1);
            let a = perm[i];
            let b = perm[j];
            perm.set(i, b);
            perm.set(j, a);
            assert(perm@ =~= swap_at(before, i as int, j as int));
            i = i - 1;
        }
    }
    perm
}

/// The entries of `msgs` at the positions listed in `order`.
pub open spec fn pick(msgs: Seq<Seq<u8>>, order: Seq<usize>) -> Seq<Seq<u8>> {
    order.map_values(|p: usize| msgs[p as int])
}

/// Frames `messages` in the order `order`.
fn frame_in_order(messages: &Vec<Vec<u8>>, order: &Vec<usize>, Ghost(msgs): Ghost<Seq<Seq<u8>>>) -> (r: Vec<u8>)
    requires
        messages@.len() == msgs.len(),
        forall|k: int| 0 <= k < msgs.len() ==> #[trigger] messages@[k]@ == msgs[k],
        forall|k: int| 0 <= k < order@.len() ==> #[trigger] order@[k] < msgs.len(),
    ensures
        r@ == framed(pick(msgs, order@)),
{
    let ghost emitted = pick(msgs, order@);
    let mut buf: Vec<u8> = Vec::new();
    let mut k: usize = 0;
    while k < order.len()
        invariant
            k <= order@.len(),
            messages@.len() == msgs.len(),
            forall|q: int| 0 <= q < msgs.len() ==> #[trigger] messages@[q]@ == msgs[q],
            forall|q: int| 0 <= q < order@.len() ==> #[trigger] order@[q] < msgs.len(),
            emitted == pick(msgs, order@),
            buf@ == framed(emitted.take(k as int)),
        decreases order@.len() - k,
    {
        let m = &messages[order[k]];
        let len16 = m.len() as u16;
        push_be(&mut buf, len16 as u64, 2);
        push_bytes(&mut buf, m.as_slice());
        proof {
            let done = emitted.take(k + 1);
            assert(done.drop_last() =~= emitted.take(k as int));
            assert(done.last() == msgs[order@[k as int] as int]);
        }
        k = k + 1;
        assert(buf@ =~= framed(emitted.take(k as int)));
    }
    assert(emitted.take(order@.len() as int) =~= emitted);
    buf
}

proof fn lemma_shuffle_pick(m: Seq<Seq<u8>>, t: Seq<usize>, i: nat, state: u64)
    requires
        i < t.len(),
        forall|k: int| 0 <= k < t.len() ==> #[trigger] t[k] < m.len(),
    ensures
        shuffle_down(t, i, state).len() == t.len(),
        forall|k: int| 0 <= k < t.len() ==> #[trigger] shuffle_down(t, i, state)[k] < m.len(),
        shuffle_down(pick(m, t), i, state) == pick(m, shuffle_down(t, i, state)),
    decreases i,
{
    if i > 0 {
        let next = lcg_next(state);
        let j = ((next >> 33u64) as nat) % (i + 1);
        let t2 = swap_at(t, i as int, j as int);
        assert(swap_at(pick(m, t), i as int, j as int) =~= pick(m, t2));
        lemma_shuffle_pick(m, t2, (i - 1) as nat, next);
    }
}

/// Shuffling the messages themselves or the order they are emitted in
/// gives the same stream.
proof fn lemma_shuffled_pick(m: Seq<Seq<u8>>, seed: u64)
    requires
        m.len() <= usize::MAX,
    ensures
        forall|k: int|
            0 <= k < m.len() ==> #[trigger] shuffled(identity(m.len()), seed)[k] < m.len(),
        shuffled(identity(m.len()), seed).len() == m.len(),
        pick(m, shuffled(identity(m.len()), seed)) == shuffled(m, seed),
{
    let id = identity(m.len());
    assert(pick(m, id) =~= m);
    if m.len() > 0 {
        lemma_shuffle_pick(m, id, (m.len() - 1) as nat, seed);
    }
}

proof fn lemma_swap_permutes<T>(s: Seq<T>, i: int, j: int)
    requires
        0 <= i < s.len(),
        0 <= j < s.len(),
    ensures
        swap_at(s, i, j).to_multiset() == s.to_multiset(),
{
    if i == j {
        assert(swap_at(s, i, j) =~= s);
    } else {
        let m = s.to_multiset();
        let s1 = s.update(i, s[j]);
        vstd::seq_lib::to_multiset_update(s, i, s[j]);
        vstd::seq_lib::to_multiset_update(s1, j, s[i]);
        assert(s1[j] == s[j]);
        assert(s.contains(s[i]));
        vstd::seq_lib::to_multiset_contains(s, s[i]);
        assert(m.count(s[i]) > 0);
        assert(m.insert(s[j]).remove(s[i]).insert(s[i]).remove(s[j]) =~= m) by {
            broadcast use vstd::multiset::group_multiset_axioms;
            let m2 = m.insert(s[j]).remove(s[i]).insert(s[i]).remove(s[j]);
            assert forall|x: T| #[trigger] m2.count(x) == m.count(x) by {
                if x == s[i] {
                } else if x == s[j] {
                } else {
                }
            }
        }
    }
}

/// A shuffle only reorders: it keeps every entry, as often as it occurred.
pub proof fn lemma_shuffle_down_permutes<T>(s: Seq<T>, i: nat, state: u64)
    requires
        i < s.len(),
    ensures
        shuffle_down(s, i, state).len() == s.len(),
        shuffle_down(s, i, state).to_multiset() == s.to_multiset(),
    decreases i,
{
    if i > 0 {
        let next = lcg_next(state);
        let j = ((next >> 33u64) as nat) % (i + 1);
        lemma_swap_permutes(s, i as int, j as int);
        lemma_shuffle_down_permutes(swap_at(s, i as int, j as int), (i - 1) as nat, next);
    }
}

/// The shuffled copy of a stream holds the same messages as the natural
/// one, each as often.
pub proof fn lemma_shuffled_permutes<T>(s: Seq<T>, seed: u64)
    ensures
        shuffled(s, seed).len() == s.len(),
        shuffled(s, seed).to_multiset() == s.to_multiset(),
{
    if s.len() > 0 {
        lemma_shuffle_down_permutes(s, (s.len() - 1) as nat, seed);
    }
}

/// Reads the system clock: the time elapsed since the Unix epoch
/// (`SystemTime::elapsed` on `UNIX_EPOCH`), in nanoseconds cut to the low
/// 64 bits, or `None` when the clock reads before the epoch. Nothing is
/// claimed of the value.
#[verifier::external_body]
fn clock_nanos() -> Option<u64> {
    match std::time::SystemTime::UNIX_EPOCH.elapsed() {
        Ok(d) => Some(d.as_nanos() as u64),
        Err(_) => None,
    }
}

/// The frames of a stream, in natural order or shuffled by `seed`.
fn emit_stream(n_add: usize, n_exec: usize, n_cancel: usize, seed: Option<u64>) -> (r: Vec<u8>)
    requires
        n_add + n_exec + n_cancel <= usize::MAX,
    ensures
        ({
            let msgs = stream_messages(n_add as nat, n_exec as nat, n_cancel as nat);
            r@ == match seed {
                None => framed(msgs),
                Some(s) => framed(shuffled(msgs, s)),
            }
        }),
{
    let ghost msgs = stream_messages(n_add as nat, n_exec as nat, n_cancel as nat);
    let messages = text_messages(n_add, n_exec, n_cancel);
    let n = n_add + n_exec + n_cancel;
    assert(msgs.len() == n);
    let order = match seed {
        None => identity_order(n),
        Some(s) => shuffled_order(n, s),
    };
    proof {
        lemma_shuffled_pick(msgs, if let Some(s) = seed { s } else { 0 });
        assert(pick(msgs, identity(n as nat)) =~= msgs);
    }
    frame_in_order(&messages, &order, Ghost(msgs))
}

enum ShuffleMode {
    /// All adds, then all executions, then all cancels.
    Natural,
    /// A random interleaving.
    Shuffled,
}

fn build_stream(n_add: usize, n_exec: usize, n_cancel: usize, mode: ShuffleMode) -> (r: Vec<u8>)
    requires
        n_add + n_exec + n_cancel <= usize::MAX,
    ensures
        ({
            let msgs = stream_messages(n_add as nat, n_exec as nat, n_cancel as nat);
            match mode {
                ShuffleMode::Natural => r@ == framed(msgs),
                ShuffleMode::Shuffled => exists|seed: u64| r@ == framed(shuffled(msgs, seed)),
            }
        }),
{
    match mode {
        ShuffleMode::Natural => emit_stream(n_add, n_exec, n_cancel, None),
        ShuffleMode::Shuffled => {
            // a clock set before the epoch still seeds a shuffle
            let seed = match clock_nanos() {
                Some(t) => t,
                None => 0,
            };
            emit_stream(n_add, n_exec, n_cancel, Some(seed))
        },
    }
}

/// The stream of `n_add` adds, `n_exec` executions and `n_cancel` cancels,
/// emitted in the order a generator seeded with `seed` shuffles them into.
pub fn build_stream_seeded(n_add: usize, n_exec: usize, n_cancel: usize, seed: u64) -> (r: Vec<u8>)
    requires
        n_add + n_exec + n_cancel <= usize::MAX,
    ensures
        r@ == framed(shuffled(stream_messages(n_add as nat, n_exec as nat, n_cancel as nat), seed)),
{
    emit_stream(n_add, n_exec, n_cancel, Some(seed))
}

/// A synthetic ITCH-like stream with interleaved message types, returned
/// twice: in natural order and shuffled by a clock-seeded generator.
pub fn generate_paired_streams(n_add: usize, n_exec: usize, n_cancel: usize) -> (r: (Vec<u8>, Vec<u8>))
    requires
        n_add + n_exec + n_cancel <= usize::MAX,
    ensures
        r.0@ == framed(stream_messages(n_add as nat, n_exec as nat, n_cancel as nat)),
        exists|seed: u64|
            r.1@ == framed(shuffled(stream_messages(n_add as nat, n_exec as nat, n_cancel as nat), seed)),
{
    let natural = build_stream(n_add, n_exec, n_cancel, ShuffleMode::Natural);
    let shuffled = build_stream(n_add, n_exec, n_cancel, ShuffleMode::Shuffled);
    (natural, shuffled)
}

/// `'O'`: start of messages.
pub const EVENT_START_OF_MESSAGES: u8 = 0x4f;
/// `'C'`: end of messages.
pub const EVENT_END_OF_MESSAGES: u8 = 0x43;

/// The binary messages of a full stream over `n` orders: a start event,
/// then per order an add, an execution, a cancel, a delete and a trade,
/// each kind in a block of its own, then an end event.
pub open spec fn full_stream_messages(n: nat) -> Seq<Seq<u8>> {
    seq![system_event_bytes(EVENT_START_OF_MESSAGES)] + Seq::new(
        n,
        |i: int|
            add_order_bytes(
                i as u64,
                i % 2 == 0,
                (100 + i % 50) as u32,
                (1_000_000 + i % 1000) as u32,
            ),
    ) + Seq::new(n, |i: int| order_executed_bytes(i as u64, 50, i as u64)) + Seq::new(
        n,
        |i: int| order_cancel_bytes(i as u64, 25),
    ) + Seq::new(n, |i: int| order_delete_bytes(i as u64)) + Seq::new(
        n,
        |i: int| trade_bytes(i as u64, 100, (1_000_000 + i % 100) as u32, i as u64),
    ) + seq![system_event_bytes(EVENT_END_OF_MESSAGES)]
}

/// What the messages of [`full_stream_messages`] decode to.
pub open spec fn full_stream_decoded(n: nat) -> Seq<Message> {
    seq![gen_system_event(EVENT_START_OF_MESSAGES)] + Seq::new(
        n,
        |i: int|
            gen_add_order(i as u64, i % 2 == 0, (100 + i % 50) as u32, (1_000_000 + i % 1000) as u32),
    ) + Seq::new(n, |i: int| gen_order_executed(i as u64, 50, i as u64)) + Seq::new(
        n,
        |i: int| gen_order_cancel(i as u64, 25),
    ) + Seq::new(n, |i: int| gen_order_delete(i as u64)) + Seq::new(
        n,
        |i: int| gen_trade(i as u64, 100, (1_000_000 + i % 100) as u32, i as u64),
    ) + seq![gen_system_event(EVENT_END_OF_MESSAGES)]
}

/// A stream over `n` orders that carries every message kind the generator
/// builds (see [`full_stream_messages`]).
pub fn generate_full_stream(n: usize) -> (r: Vec<u8>)
    requires
        5 * n + 2 <= usize::MAX,
    ensures
        r@ == framed(full_stream_messages(n as nat)),
{
    let ghost target = full_stream_messages(n as nat);
    let mut messages: Vec<Vec<u8>> = Vec::new();
    messages.push(build_system_event(EVENT_START_OF_MESSAGES));
    let mut i: usize = 0;
    while i < n
        invariant
            i <= n,
            5 * n + 2 <= usize::MAX,
            target == full_stream_messages(n as nat),
            messages@.len() == 1 + i,
            forall|k: int| 0 <= k < messages@.len() ==> #[trigger] messages@[k]@ == target[k],
        decreases n - i,
    {
        messages.push(build_add_order(i as u64, i % 2 == 0, (100 + i % 50) as u32, (1_000_000 + i % 1000) as u32));
        i = i + 1;
    }
    let mut i: usize = 0;
    while i < n
        invariant
            i <= n,
            5 * n + 2 <= usize::MAX,
            target == full_stream_messages(n as nat),
            messages@.len() == 1 + n + i,
            forall|k: int| 0 <= k < messages@.len() ==> #[trigger] messages@[k]@ == target[k],
        decreases n - i,
    {
        messages.push(build_order_executed(i as u64, 50, i as u64));
        i = i + 1;
    }
    let mut i: usize = 0;
    while i < n
        invariant
            i <= n,
            5 * n + 2 <= usize::MAX,
            target == full_stream_messages(n as nat),
            messages@.len() == 1 + 2 * n + i,
            forall|k: int| 0 <= k < messages@.len() ==> #[trigger] messages@[k]@ == target[k],
        decreases n - i,
    {
        messages.push(build_order_cancel(i as u64, 25));
        i = i + 1;
    }
    let mut i: usize = 0;
    while i < n
        invariant
            i <= n,
            5 * n + 2 <= usize::MAX,
            target == full_stream_messages(n as nat),
            messages@.len() == 1 + 3 * n + i,
            forall|k: int| 0 <= k < messages@.len() ==> #[trigger] messages@[k]@ == target[k],
        decreases n - i,
    {
        messages.push(build_order_delete(i as u64));
        i = i + 1;
    }
    let mut i: usize = 0;
    while i < n
        invariant
            i <= n,
            5 * n + 2 <= usize::MAX,
            target == full_stream_messages(n as nat),
            messages@.len() == 1 + 4 * n + i,
            forall|k: int| 0 <= k < messages@.len() ==> #[trigger] messages@[k]@ == target[k],
        decreases n - i,
    {
        messages.push(build_trade(i as u64, 100, (1_000_000 + i % 100) as u32, i as u64));
        i = i + 1;
    }
    messages.push(build_system_event(EVENT_END_OF_MESSAGES));
    let order = identity_order(messages.len());
    proof {
        assert(target.len() == messages@.len());
        assert(pick(target, identity(messages@.len())) =~= target);
    }
    frame_in_order(&messages, &order, Ghost(target))
}

/// `m` decodes to the message `d`.
pub open spec fn decodes_to(m: Seq<u8>, d: Message) -> bool {
    match decode_message(m) {
        Some((x, _)) => x == d,
        None => false,
    }
}

proof fn lemma_framed_append(a: Seq<Seq<u8>>, b: Seq<Seq<u8>>)
    ensures
        framed(a + b) == framed(a) + framed(b),
    decreases b.len(),
{
    if b.len() == 0 {
        assert(a + b =~= a);
        assert(framed(a) + framed(b) =~= framed(a));
    } else {
        assert((a + b).drop_last() =~= a + b.drop_last());
        assert((a + b).last() == b.last());
        lemma_framed_append(a, b.drop_last());
        assert(framed(a + b) =~= framed(a) + framed(b));
    }
}

/// A stream of framed messages, each shorter than 65536 bytes and each
/// decoding, decodes to the sequence of their decodings.
pub proof fn lemma_decode_framed(msgs: Seq<Seq<u8>>, ds: Seq<Message>)
    requires
        msgs.len() == ds.len(),
        forall|k: int| 0 <= k < msgs.len() ==> (#[trigger] msgs[k]).len() < 0x1_0000,
        forall|k: int|
            0 <= k < msgs.len() ==> decodes_to(#[trigger] msgs[k], ds[k]),
    ensures
        decode_stream(framed(msgs)) == ds,
    decreases msgs.len(),
{
    if msgs.len() == 0 {
        assert(ds =~= Seq::<Message>::empty());
    } else {
        let m = msgs[0];
        let rest = msgs.drop_first();
        assert(msgs =~= seq![m] + rest);
        lemma_framed_append(seq![m], rest);
        assert(seq![m].drop_last() =~= Seq::<Seq<u8>>::empty());
        assert(framed(Seq::<Seq<u8>>::empty()) == Seq::<u8>::empty());
        assert(seq![m].last() == m);
        assert(framed(seq![m]) =~= frame(m));
        assert forall|k: int| 0 <= k < rest.len() implies (#[trigger] rest[k]).len() < 0x1_0000 by {
            assert(rest[k] == msgs[k + 1]);
        }
        assert forall|k: int| 0 <= k < rest.len() implies decodes_to(#[trigger] rest[k], ds.drop_first()[k]) by {
            assert(rest[k] == msgs[k + 1]);
            assert(decodes_to(msgs[k + 1], ds[k + 1]));
        }
        lemma_decode_framed(rest, ds.drop_first());
        let f = frame(m);
        let s = f + framed(rest);
        lemma_be_bytes_len((m.len() as u16) as nat, 2);
        lemma_pow256_values();
        assert(s.subrange(0, 2) =~= be_bytes((m.len() as u16) as nat, 2));
        lemma_be_of_bytes(s, 0, (m.len() as u16) as nat, 2);
        assert(be(s, 0, 2) == m.len());
        assert(s.subrange(2, 2 + m.len() as int) =~= m);
        assert(framed(rest) =~= Seq::<u8>::empty() + framed(rest));
        lemma_decode_shift(f, framed(rest), 0);
        assert(f.len() == 2 + m.len());
        assert(decode_stream_from(s, f.len() as int) == ds.drop_first());
        assert(decodes_to(msgs[0], ds[0]));
        assert(decode_stream(s) =~= ds);
    }
}

/// The full stream decodes to the messages it was generated from.
pub proof fn lemma_full_stream_decodes(n: nat)
    ensures
        decode_stream(framed(full_stream_messages(n))) == full_stream_decoded(n),
{
    let msgs = full_stream_messages(n);
    let ds = full_stream_decoded(n);
    assert(msgs.len() == ds.len());
    assert forall|k: int| 0 <= k < msgs.len() implies (#[trigger] msgs[k]).len() < 0x1_0000
        && decodes_to(msgs[k], ds[k]) by {
        lemma_lens(0, 0, 0, 0);
        if k == 0 {
            lemma_decode_system_event(EVENT_START_OF_MESSAGES);
        } else if k <= n {
            let i = k - 1;
            lemma_decode_add_order(i as u64, i % 2 == 0, (100 + i % 50) as u32, (1_000_000 + i % 1000) as u32);
            lemma_lens(i as u64, (100 + i % 50) as u32, (1_000_000 + i % 1000) as u32, 0);
        } else if k <= 2 * n {
            let i = k - 1 - n;
            lemma_decode_order_executed(i as u64, 50, i as u64);
            lemma_lens(i as u64, 50, 0, i as u64);
        } else if k <= 3 * n {
            let i = k - 1 - 2 * n;
            lemma_decode_order_cancel(i as u64, 25);
            lemma_lens(i as u64, 25, 0, 0);
        } else if k <= 4 * n {
            let i = k - 1 - 3 * n;
            lemma_decode_order_delete(i as u64);
            lemma_lens(i as u64, 0, 0, 0);
        } else if k <= 5 * n {
            let i = k - 1 - 4 * n;
            lemma_decode_trade(i as u64, 100, (1_000_000 + i % 100) as u32, i as u64);
            lemma_lens(i as u64, 100, (1_000_000 + i % 100) as u32, i as u64);
        } else {
            lemma_decode_system_event(EVENT_END_OF_MESSAGES);
        }
    }
    assert forall|k: int| 0 <= k < msgs.len() implies (#[trigger] msgs[k]).len() < 0x1_0000 by {}
    lemma_decode_framed(msgs, ds);
}

} // verus!
