//! Optimized ITCH 5.0 decoder: fixed-offset reads assembled with shifts,
//! a bounds check hoisted per message type, and a pre-sized output vector.
//! It meets the same specification as the reference decoder.

use vstd::prelude::*;
use crate::parser::layout::{arr4, arr8, be, lemma_arr4, lemma_arr8, read_len_prefix};
use crate::parser::naive::{
    decode_message, decode_stream, decode_stream_from, u16_at, u32_at, u48_at, u64_at, AddOrder,
    AddOrderMpid, BrokenTrade, CrossTrade, MarketParticipantPosition, Message, OrderCancel,
    OrderDelete, OrderExecuted, OrderExecutedWithPrice, SystemEvent, Trade, FLAG_YES, SIDE_BUY,
    TYPE_ADD_ORDER, TYPE_ADD_ORDER_MPID, TYPE_BROKEN_TRADE, TYPE_CROSS_TRADE,
    TYPE_MARKET_PARTICIPANT, TYPE_ORDER_CANCEL, TYPE_ORDER_DELETE, TYPE_ORDER_EXECUTED,
    TYPE_ORDER_EXECUTED_WITH_PRICE, TYPE_SYSTEM_EVENT, TYPE_TRADE,
};

verus! {

#[inline(always)]
fn read_u16(buf: &[u8], at: usize) -> (r: u16)
    requires
        at + 2 <= buf@.len(),
    ensures
        r == u16_at(buf@, at as int),
{
    let a = buf[at];
    let b = buf[at + 1];
    proof {
        reveal_with_fuel(be, 3);
        assert(((a as u16) << 8u16) | (b as u16) == a * 256 + b) by (bit_vector);
    }
    ((a as u16) << 8u16) | (b as u16)
}

#[inline(always)]
fn read_u32(buf: &[u8], at: usize) -> (r: u32)
    requires
        at + 4 <= buf@.len(),
    ensures
        r == u32_at(buf@, at as int),
{
    let a = buf[at];
    let b = buf[at + 1];
    let c = buf[at + 2];
    let d = buf[at + 3];
    proof {
        reveal_with_fuel(be, 5);
        assert(((a as u32) << 24u32) | ((b as u32) << 16u32) | ((c as u32) << 8u32) | (d as u32)
            == ((a * 256 + b) * 256 + c) * 256 + d) by (bit_vector);
    }
    ((a as u32) << 24u32) | ((b as u32) << 16u32) | ((c as u32) << 8u32) | (d as u32)
}

#[inline(always)]
fn read_u64(buf: &[u8], at: usize) -> (r: u64)
    requires
        at + 8 <= buf@.len(),
    ensures
        r == u64_at(buf@, at as int),
{
    let a = buf[at];
    let b = buf[at + 1];
    let c = buf[at + 2];
    let d = buf[at + 3];
    let e = buf[at + 4];
    let f = buf[at + 5];
    let g = buf[at + 6];
    let h = buf[at + 7];
    proof {
        reveal_with_fuel(be, 9);
        assert(((a as u64) << 56u64) | ((b as u64) << 48u64) | ((c as u64) << 40u64) | ((d as u64)
            << 32u64) | ((e as u64) << 24u64) | ((f as u64) << 16u64) | ((g as u64) << 8u64) | (
        h as u64) == ((((((a * 256 + b) * 256 + c) * 256 + d) * 256 + e) * 256 + f) * 256 + g)
            * 256 + h) by (bit_vector);
    }
    ((a as u64) << 56u64) | ((b as u64) << 48u64) | ((c as u64) << 40u64) | ((d as u64) << 32u64)
        | ((e as u64) << 24u64) | ((f as u64) << 16u64) | ((g as u64) << 8u64) | (h as u64)
}

#[inline(always)]
fn read_u48(buf: &[u8], at: usize) -> (r: u64)
    requires
        at + 6 <= buf@.len(),
    ensures
        r == u48_at(buf@, at as int),
{
    let a = buf[at];
    let b = buf[at + 1];
    let c = buf[at + 2];
    let d = buf[at + 3];
    let e = buf[at + 4];
    let f = buf[at + 5];
    proof {
        reveal_with_fuel(be, 7);
        assert(((a as u64) << 40u64) | ((b as u64) << 32u64) | ((c as u64) << 24u64) | ((d as u64)
            << 16u64) | ((e as u64) << 8u64) | (f as u64) == ((((a * 256 + b) * 256 + c) * 256
            + d) * 256 + e) * 256 + f) by (bit_vector);
    }
    ((a as u64) << 40u64) | ((b as u64) << 32u64) | ((c as u64) << 24u64) | ((d as u64) << 16u64)
        | ((e as u64) << 8u64) | (f as u64)
}

#[inline(always)]
fn read_stock(buf: &[u8], at: usize) -> (r: [u8; 8])
    requires
        at + 8 <= buf@.len(),
    ensures
        r == arr8(buf@, at as int),
{
    let s = [
        buf[at],
        buf[at + 1],
        buf[at + 2],
        buf[at + 3],
        buf[at + 4],
        buf[at + 5],
        buf[at + 6],
        buf[at + 7],
    ];
    proof {
        assert(s@ =~= buf@.subrange(at as int, at + 8));
        lemma_arr8(s, buf@, at as int);
    }
    s
}

#[inline(always)]
fn read_tag(buf: &[u8], at: usize) -> (r: [u8; 4])
    requires
        at + 4 <= buf@.len(),
    ensures
        r == arr4(buf@, at as int),
{
    let s = [buf[at], buf[at + 1], buf[at + 2], buf[at + 3]];
    proof {
        assert(s@ =~= buf@.subrange(at as int, at + 4));
        lemma_arr4(s, buf@, at as int);
    }
    s
}

/// Decodes a single ITCH 5.0 message from `buf`; agrees with the reference
/// decoder on every input.
pub fn parse_one(buf: &[u8]) -> (r: Option<(Message, usize)>)
    ensures
        r == decode_message(buf@),
{
    if buf.len() == 0 {
        return None;
    }
    let t = buf[0];
    if t == TYPE_ADD_ORDER {
        if buf.len() < 36 {
            return None;
        }
        let msg = AddOrder {
            stock_locate: read_u16(buf, 1),
            tracking_number: read_u16(buf, 3),
            timestamp_ns: read_u48(buf, 5),
            order_ref: read_u64(buf, 11),
            buy: buf[19] == SIDE_BUY,
            shares: read_u32(buf, 20),
            stock: read_stock(buf, 24),
            price: read_u32(buf, 32),
        };
        Some((Message::AddOrder(msg), 36))
    } else if t == TYPE_ADD_ORDER_MPID {
        if buf.len() < 40 {
            return None;
        }
        let msg = AddOrderMpid {
            stock_locate: read_u16(buf, 1),
            tracking_number: read_u16(buf, 3),
            timestamp_ns: read_u48(buf, 5),
            order_ref: read_u64(buf, 11),
            buy: buf[19] == SIDE_BUY,
            shares: read_u32(buf, 20),
            stock: read_stock(buf, 24),
            price: read_u32(buf, 32),
            attribution: read_tag(buf, 36),
        };
        Some((Message::AddOrderMpid(msg), 40))
    } else if t == TYPE_ORDER_EXECUTED {
        if buf.len() < 31 {
            return None;
        }
        let msg = OrderExecuted {
            stock_locate: read_u16(buf, 1),
            tracking_number: read_u16(buf, 3),
            timestamp_ns: read_u48(buf, 5),
            order_ref: read_u64(buf, 11),
            executed_shares: read_u32(buf, 19),
            match_number: read_u64(buf, 23),
        };
        Some((Message::OrderExecuted(msg), 31))
    } else if t == TYPE_ORDER_EXECUTED_WITH_PRICE {
        if buf.len() < 36 {
            return None;
        }
        let msg = OrderExecutedWithPrice {
            stock_locate: read_u16(buf, 1),
            tracking_number: read_u16(buf, 3),
            timestamp_ns: read_u48(buf, 5),
            order_ref: read_u64(buf, 11),
            executed_shares: read_u32(buf, 19),
            match_number: read_u64(buf, 23),
            printable: buf[31] == FLAG_YES,
            execution_price: read_u32(buf, 32),
        };
        Some((Message::OrderExecutedWithPrice(msg), 36))
    } else if t == TYPE_ORDER_CANCEL {
        if buf.len() < 23 {
            return None;
        }
        let msg = OrderCancel {
            stock_locate: read_u16(buf, 1),
            tracking_number: read_u16(buf, 3),
            timestamp_ns: read_u48(buf, 5),
            order_ref: read_u64(buf, 11),
            canceled_shares: read_u32(buf, 19),
        };
        Some((Message::OrderCancel(msg), 23))
    } else if t == TYPE_ORDER_DELETE {
        if buf.len() < 19 {
            return None;
        }
        let msg = OrderDelete {
            stock_locate: read_u16(buf, 1),
            tracking_number: read_u16(buf, 3),
            timestamp_ns: read_u48(buf, 5),
            order_ref: read_u64(buf, 11),
        };
        Some((Message::OrderDelete(msg), 19))
    } else if t == TYPE_SYSTEM_EVENT {
        if buf.len() < 12 {
            return None;
        }
        let msg = SystemEvent {
            stock_locate: read_u16(buf, 1),
            tracking_number: read_u16(buf, 3),
            timestamp_ns: read_u48(buf, 5),
            event_code: buf[11],
        };
        Some((Message::SystemEvent(msg), 12))
    } else if t == TYPE_MARKET_PARTICIPANT {
        if buf.len() < 26 {
            return None;
        }
        let msg = MarketParticipantPosition {
            stock_locate: read_u16(buf, 1),
            tracking_number: read_u16(buf, 3),
            timestamp_ns: read_u48(buf, 5),
            mpid: read_tag(buf, 11),
            stock: read_stock(buf, 15),
            primary_market_maker: buf[23] == FLAG_YES,
            market_maker_mode: buf[24],
            market_participant_state: buf[25],
        };
        Some((Message::MarketParticipantPosition(msg), 26))
    } else if t == TYPE_TRADE {
        if buf.len() < 44 {
            return None;
        }
        let msg = Trade {
            stock_locate: read_u16(buf, 1),
            tracking_number: read_u16(buf, 3),
            timestamp_ns: read_u48(buf, 5),
            order_ref: read_u64(buf, 11),
            buy: buf[19] == SIDE_BUY,
            shares: read_u32(buf, 20),
            stock: read_stock(buf, 24),
            price: read_u32(buf, 32),
            match_number: read_u64(buf, 36),
        };
        Some((Message::Trade(msg), 44))
    } else if t == TYPE_CROSS_TRADE {
        if buf.len() < 40 {
            return None;
        }
        let msg = CrossTrade {
            stock_locate: read_u16(buf, 1),
            tracking_number: read_u16(buf, 3),
            timestamp_ns: read_u48(buf, 5),
            shares: read_u64(buf, 11),
            stock: read_stock(buf, 19),
            cross_price: read_u32(buf, 27),
            match_number: read_u64(buf, 31),
            cross_type: buf[39],
        };
        Some((Message::CrossTrade(msg), 40))
    } else if t == TYPE_BROKEN_TRADE {
        if buf.len() < 19 {
            return None;
        }
        let msg = BrokenTrade {
            stock_locate: read_u16(buf, 1),
            tracking_number: read_u16(buf, 3),
            timestamp_ns: read_u48(buf, 5),
            match_number: read_u64(buf, 11),
        };
        Some((Message::BrokenTrade(msg), 19))
    } else {
        Some((Message::Unknown { msg_type: t }, 1))
    }
}

/// Decodes every length-prefixed message of `buf` into a pre-sized vector;
/// agrees with the reference decoder on every input.
pub fn parse_all(buf: &[u8]) -> (msgs: Vec<Message>)
    ensures
        msgs@ == decode_stream(buf@),
{
    let len = buf.len();
    let estimated_count = len / 24;
    let mut msgs: Vec<Message> = Vec::with_capacity(estimated_count);
    let mut pos: usize = 0;
    while 2 <= len - pos
        invariant
            pos <= len,
            len == buf@.len(),
            msgs@ + decode_stream_from(buf@, pos as int) == decode_stream(buf@),
        decreases len - pos,
    {
        let msg_len = read_len_prefix(buf, pos);
        let msg_start = pos + 2;
        if msg_len > len - msg_start {
            assert(msgs@ + decode_stream_from(buf@, pos as int) =~= msgs@);
            return msgs;
        }
        let msg_end = msg_start + msg_len;
        let ghost old_msgs = msgs@;
        match parse_one(&buf[msg_start..msg_end]) {
            Some((msg, _)) => {
                msgs.push(msg);
                assert(old_msgs + decode_stream_from(buf@, pos as int) =~= msgs@
                    + decode_stream_from(buf@, msg_end as int));
            },
            None => {},
        }
        pos = msg_end;
    }
    assert(msgs@ + decode_stream_from(buf@, pos as int) =~= msgs@);
    msgs
}

} // verus!
