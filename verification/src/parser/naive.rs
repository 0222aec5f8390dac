//! Golden-reference ITCH 5.0 decoder: slow but obviously correct.
//! Every field is read one byte at a time; the optimized decoder is held
//! to the same specification, [`decode_message`].

use vstd::prelude::*;
use crate::parser::layout::{
    arr4, arr8, be, lemma_arr4, lemma_arr8, lemma_be_bound, lemma_pow256_values, read_be,
    read_len_prefix,
};

verus! {

/// Add Order ('A').
#[derive(Debug, Clone, PartialEq, Eq)]
pub struct AddOrder {
    pub stock_locate: u16,
    pub tracking_number: u16,
    pub timestamp_ns: u64,
    pub order_ref: u64,
    pub buy: bool,
    pub shares: u32,
    pub stock: [u8; 8],
    /// Price times 10000 (fixed point).
    pub price: u32,
}

/// Add Order with MPID attribution ('F').
#[derive(Debug, Clone, PartialEq, Eq)]
pub struct AddOrderMpid {
    pub stock_locate: u16,
    pub tracking_number: u16,
    pub timestamp_ns: u64,
    pub order_ref: u64,
    pub buy: bool,
    pub shares: u32,
    pub stock: [u8; 8],
    pub price: u32,
    pub attribution: [u8; 4],
}

/// Order Executed ('E').
#[derive(Debug, Clone, PartialEq, Eq)]
pub struct OrderExecuted {
    pub stock_locate: u16,
    pub tracking_number: u16,
    pub timestamp_ns: u64,
    pub order_ref: u64,
    pub executed_shares: u32,
    pub match_number: u64,
}

/// Order Executed With Price ('C').
#[derive(Debug, Clone, PartialEq, Eq)]
pub struct OrderExecutedWithPrice {
    pub stock_locate: u16,
    pub tracking_number: u16,
    pub timestamp_ns: u64,
    pub order_ref: u64,
    pub executed_shares: u32,
    pub match_number: u64,
    pub printable: bool,
    pub execution_price: u32,
}

/// Order Cancel ('X').
#[derive(Debug, Clone, PartialEq, Eq)]
pub struct OrderCancel {
    pub stock_locate: u16,
    pub tracking_number: u16,
    pub timestamp_ns: u64,
    pub order_ref: u64,
    pub canceled_shares: u32,
}

/// Order Delete ('D').
#[derive(Debug, Clone, PartialEq, Eq)]
pub struct OrderDelete {
    pub stock_locate: u16,
    pub tracking_number: u16,
    pub timestamp_ns: u64,
    pub order_ref: u64,
}

/// System Event ('S').
#[derive(Debug, Clone, PartialEq, Eq)]
pub struct SystemEvent {
    pub stock_locate: u16,
    pub tracking_number: u16,
    pub timestamp_ns: u64,
    pub event_code: u8,
}

/// Market Participant Position ('L').
#[derive(Debug, Clone, PartialEq, Eq)]
pub struct MarketParticipantPosition {
    pub stock_locate: u16,
    pub tracking_number: u16,
    pub timestamp_ns: u64,
    pub mpid: [u8; 4],
    pub stock: [u8; 8],
    pub primary_market_maker: bool,
    pub market_maker_mode: u8,
    pub market_participant_state: u8,
}

/// Non-cross Trade ('P').
#[derive(Debug, Clone, PartialEq, Eq)]
pub struct Trade {
    pub stock_locate: u16,
    pub tracking_number: u16,
    pub timestamp_ns: u64,
    pub order_ref: u64,
    pub buy: bool,
    pub shares: u32,
    pub stock: [u8; 8],
    pub price: u32,
    pub match_number: u64,
}

/// Cross Trade ('Q').
#[derive(Debug, Clone, PartialEq, Eq)]
pub struct CrossTrade {
    pub stock_locate: u16,
    pub tracking_number: u16,
    pub timestamp_ns: u64,
    pub shares: u64,
    pub stock: [u8; 8],
    pub cross_price: u32,
    pub match_number: u64,
    pub cross_type: u8,
}

/// Broken Trade ('B').
#[derive(Debug, Clone, PartialEq, Eq)]
pub struct BrokenTrade {
    pub stock_locate: u16,
    pub tracking_number: u16,
    pub timestamp_ns: u64,
    pub match_number: u64,
}

/// A decoded ITCH message.
#[derive(Debug, Clone, PartialEq, Eq)]
pub enum Message {
    AddOrder(AddOrder),
    AddOrderMpid(AddOrderMpid),
    OrderExecuted(OrderExecuted),
    OrderExecutedWithPrice(OrderExecutedWithPrice),
    OrderCancel(OrderCancel),
    OrderDelete(OrderDelete),
    SystemEvent(SystemEvent),
    MarketParticipantPosition(MarketParticipantPosition),
    Trade(Trade),
    CrossTrade(CrossTrade),
    BrokenTrade(BrokenTrade),
    Unknown { msg_type: u8 },
}

// ---------------------------------------------------------------------------
// Type and flag bytes
// ---------------------------------------------------------------------------

/// `'A'`: Add Order.
pub const TYPE_ADD_ORDER: u8 = 0x41;
/// `'F'`: Add Order with MPID.
pub const TYPE_ADD_ORDER_MPID: u8 = 0x46;
/// `'E'`: Order Executed.
pub const TYPE_ORDER_EXECUTED: u8 = 0x45;
/// `'C'`: Order Executed With Price.
pub const TYPE_ORDER_EXECUTED_WITH_PRICE: u8 = 0x43;
/// `'X'`: Order Cancel.
pub const TYPE_ORDER_CANCEL: u8 = 0x58;
/// `'D'`: Order Delete.
pub const TYPE_ORDER_DELETE: u8 = 0x44;
/// `'S'`: System Event.
pub const TYPE_SYSTEM_EVENT: u8 = 0x53;
/// `'L'`: Market Participant Position.
pub const TYPE_MARKET_PARTICIPANT: u8 = 0x4c;
/// `'P'`: Trade.
pub const TYPE_TRADE: u8 = 0x50;
/// `'Q'`: Cross Trade.
pub const TYPE_CROSS_TRADE: u8 = 0x51;
/// `'B'`: Broken Trade.
pub const TYPE_BROKEN_TRADE: u8 = 0x42;
/// `'B'`: buy side indicator.
pub const SIDE_BUY: u8 = 0x42;
/// `'Y'`: yes flag.
pub const FLAG_YES: u8 = 0x59;

// ---------------------------------------------------------------------------
// Specification of the wire format
// ---------------------------------------------------------------------------

/// Length in bytes of a message of type `t`, or `None` for a type this
/// decoder does not know.
pub open spec fn wire_len(t: u8) -> Option<usize> {
    if t == TYPE_ADD_ORDER {
        Some(36)
    } else if t == TYPE_ADD_ORDER_MPID {
        Some(40)
    } else if t == TYPE_ORDER_EXECUTED {
        Some(31)
    } else if t == TYPE_ORDER_EXECUTED_WITH_PRICE {
        Some(36)
    } else if t == TYPE_ORDER_CANCEL {
        Some(23)
    } else if t == TYPE_ORDER_DELETE {
        Some(19)
    } else if t == TYPE_SYSTEM_EVENT {
        Some(12)
    } else if t == TYPE_MARKET_PARTICIPANT {
        Some(26)
    } else if t == TYPE_TRADE {
        Some(44)
    } else if t == TYPE_CROSS_TRADE {
        Some(40)
    } else if t == TYPE_BROKEN_TRADE {
        Some(19)
    } else {
        None
    }
}

pub open spec fn u16_at(s: Seq<u8>, at: int) -> u16 {
    be(s, at, 2) as u16
}

pub open spec fn u32_at(s: Seq<u8>, at: int) -> u32 {
    be(s, at, 4) as u32
}

pub open spec fn u48_at(s: Seq<u8>, at: int) -> u64 {
    be(s, at, 6) as u64
}

pub open spec fn u64_at(s: Seq<u8>, at: int) -> u64 {
    be(s, at, 8) as u64
}

/// The message carried by the bytes `s`, whose first byte is a known type
/// and whose length is at least that type's [`wire_len`].
pub open spec fn decode_body(s: Seq<u8>) -> Message {
    let t = s[0];
    let locate = u16_at(s, 1);
    let tracking = u16_at(s, 3);
    let ts = u48_at(s, 5);
    if t == TYPE_ADD_ORDER {
        Message::AddOrder(
            AddOrder {
                stock_locate: locate,
                tracking_number: tracking,
                timestamp_ns: ts,
                order_ref: u64_at(s, 11),
                buy: s[19] == SIDE_BUY,
                shares: u32_at(s, 20),
                stock: arr8(s, 24),
                price: u32_at(s, 32),
            },
        )
    } else if t == TYPE_ADD_ORDER_MPID {
        Message::AddOrderMpid(
            AddOrderMpid {
                stock_locate: locate,
                tracking_number: tracking,
                timestamp_ns: ts,
                order_ref: u64_at(s, 11),
                buy: s[19] == SIDE_BUY,
                shares: u32_at(s, 20),
                stock: arr8(s, 24),
                price: u32_at(s, 32),
                attribution: arr4(s, 36),
            },
        )
    } else if t == TYPE_ORDER_EXECUTED {
        Message::OrderExecuted(
            OrderExecuted {
                stock_locate: locate,
                tracking_number: tracking,
                timestamp_ns: ts,
                order_ref: u64_at(s, 11),
                executed_shares: u32_at(s, 19),
                match_number: u64_at(s, 23),
            },
        )
    } else if t == TYPE_ORDER_EXECUTED_WITH_PRICE {
        Message::OrderExecutedWithPrice(
            OrderExecutedWithPrice {
                stock_locate: locate,
                tracking_number: tracking,
                timestamp_ns: ts,
                order_ref: u64_at(s, 11),
                executed_shares: u32_at(s, 19),
                match_number: u64_at(s, 23),
                printable: s[31] == FLAG_YES,
                execution_price: u32_at(s, 32),
            },
        )
    } else if t == TYPE_ORDER_CANCEL {
        Message::OrderCancel(
            OrderCancel {
                stock_locate: locate,
                tracking_number: tracking,
                timestamp_ns: ts,
                order_ref: u64_at(s, 11),
                canceled_shares: u32_at(s, 19),
            },
        )
    } else if t == TYPE_ORDER_DELETE {
        Message::OrderDelete(
            OrderDelete {
                stock_locate: locate,
                tracking_number: tracking,
                timestamp_ns: ts,
                order_ref: u64_at(s, 11),
            },
        )
    } else if t == TYPE_SYSTEM_EVENT {
        Message::SystemEvent(
            SystemEvent {
                stock_locate: locate,
                tracking_number: tracking,
                timestamp_ns: ts,
                event_code: s[11],
            },
        )
    } else if t == TYPE_MARKET_PARTICIPANT {
        Message::MarketParticipantPosition(
            MarketParticipantPosition {
                stock_locate: locate,
                tracking_number: tracking,
                timestamp_ns: ts,
                mpid: arr4(s, 11),
                stock: arr8(s, 15),
                primary_market_maker: s[23] == FLAG_YES,
                market_maker_mode: s[24],
                market_participant_state: s[25],
            },
        )
    } else if t == TYPE_TRADE {
        Message::Trade(
            Trade {
                stock_locate: locate,
                tracking_number: tracking,
                timestamp_ns: ts,
                order_ref: u64_at(s, 11),
                buy: s[19] == SIDE_BUY,
                shares: u32_at(s, 20),
                stock: arr8(s, 24),
                price: u32_at(s, 32),
                match_number: u64_at(s, 36),
            },
        )
    } else if t == TYPE_CROSS_TRADE {
        Message::CrossTrade(
            CrossTrade {
                stock_locate: locate,
                tracking_number: tracking,
                timestamp_ns: ts,
                shares: u64_at(s, 11),
                stock: arr8(s, 19),
                cross_price: u32_at(s, 27),
                match_number: u64_at(s, 31),
                cross_type: s[39],
            },
        )
    } else {
        Message::BrokenTrade(
            BrokenTrade {
                stock_locate: locate,
                tracking_number: tracking,
                timestamp_ns: ts,
                match_number: u64_at(s, 11),
            },
        )
    }
}

/// Decoding of one message: `None` for empty input or a known type whose
/// body is shorter than its [`wire_len`]; an unknown type byte decodes to
/// [`Message::Unknown`] and consumes one byte.
pub open spec fn decode_message(s: Seq<u8>) -> Option<(Message, usize)> {
    if s.len() == 0 {
        None
    } else {
        match wire_len(s[0]) {
            None => Some((Message::Unknown { msg_type: s[0] }, 1usize)),
            Some(n) => if s.len() < n {
                None
            } else {
                Some((decode_body(s), n))
            },
        }
    }
}

/// Messages decoded from the frames of `s` found from `pos` on; frames whose
/// body does not decode are skipped.
pub open spec fn decode_stream_from(s: Seq<u8>, pos: int) -> Seq<Message>
    decreases s.len() - pos,
{
    if pos < 0 || pos + 2 > s.len() {
        Seq::empty()
    } else {
        let end = pos + 2 + be(s, pos, 2);
        if end > s.len() {
            Seq::empty()
        } else {
            let rest = decode_stream_from(s, end);
            match decode_message(s.subrange(pos + 2, end)) {
                Some((m, _)) => seq![m] + rest,
                None => rest,
            }
        }
    }
}

/// All messages decoded from a length-prefixed stream.
pub open spec fn decode_stream(s: Seq<u8>) -> Seq<Message> {
    decode_stream_from(s, 0)
}

/// Walking the length prefixes of `s` from `pos` ends exactly at the end
/// of `s`: `s` from `pos` on is a whole number of frames.
pub open spec fn whole_frames_from(s: Seq<u8>, pos: int) -> bool
    decreases s.len() - pos,
{
    if pos == s.len() {
        true
    } else if pos < 0 || pos + 2 > s.len() {
        false
    } else {
        let end = pos + 2 + be(s, pos, 2);
        end <= s.len() && whole_frames_from(s, end)
    }
}

/// Big-endian reads inside the first part of a concatenation ignore the
/// second part.
pub proof fn lemma_be_prefix(a: Seq<u8>, b: Seq<u8>, pos: int, n: nat)
    requires
        0 <= pos,
        pos + n <= a.len(),
    ensures
        be(a + b, pos, n) == be(a, pos, n),
    decreases n,
{
    if n > 0 {
        lemma_be_prefix(a, b, pos, (n - 1) as nat);
        assert((a + b)[pos + n - 1] == a[pos + n - 1]);
    }
}

/// Big-endian reads see only the bytes they cover.
pub proof fn lemma_be_shift(p: Seq<u8>, q: Seq<u8>, k: int, n: nat)
    requires
        0 <= k,
        k + n <= q.len(),
    ensures
        be(p + q, p.len() + k, n) == be(q, k, n),
    decreases n,
{
    if n > 0 {
        lemma_be_shift(p, q, k, (n - 1) as nat);
        assert((p + q)[p.len() + k + n - 1] == q[k + n - 1]);
    }
}

/// Decoding from inside the second part of a concatenation ignores the
/// first part.
pub proof fn lemma_decode_shift(p: Seq<u8>, q: Seq<u8>, k: int)
    requires
        0 <= k,
    ensures
        decode_stream_from(p + q, p.len() + k) == decode_stream_from(q, k),
    decreases q.len() - k,
{
    let s = p + q;
    let pos = p.len() + k;
    if k + 2 <= q.len() {
        lemma_be_shift(p, q, k, 2);
        let end = k + 2 + be(q, k, 2);
        if end <= q.len() {
            assert(s.subrange(pos + 2, p.len() + end) =~= q.subrange(k + 2, end));
            lemma_decode_shift(p, q, end);
        }
    }
}

proof fn lemma_decode_concat_from(a: Seq<u8>, b: Seq<u8>, pos: int)
    requires
        0 <= pos <= a.len(),
        whole_frames_from(a, pos),
    ensures
        decode_stream_from(a + b, pos) == decode_stream_from(a, pos) + decode_stream(b),
    decreases a.len() - pos,
{
    if pos == a.len() {
        lemma_decode_shift(a, b, 0);
        assert(decode_stream_from(a, pos) =~= Seq::<Message>::empty());
        assert(decode_stream_from(a + b, pos) =~= decode_stream_from(a, pos) + decode_stream(b));
    } else {
        lemma_be_prefix(a, b, pos, 2);
        let end = pos + 2 + be(a, pos, 2);
        assert((a + b).subrange(pos + 2, end) =~= a.subrange(pos + 2, end));
        lemma_decode_concat_from(a, b, end);
        let rest = decode_stream_from(a, end);
        match decode_message(a.subrange(pos + 2, end)) {
            Some((m, _)) => {
                assert(seq![m] + rest + decode_stream(b) =~= seq![m] + (rest + decode_stream(b)));
            },
            None => {},
        }
    }
}

/// Decoding a whole number of frames followed by any bytes gives the
/// messages of the frames followed by the messages of the rest.
pub proof fn lemma_decode_concat(a: Seq<u8>, b: Seq<u8>)
    requires
        whole_frames_from(a, 0),
    ensures
        decode_stream(a + b) == decode_stream(a) + decode_stream(b),
{
    lemma_decode_concat_from(a, b, 0);
}

// ---------------------------------------------------------------------------
// Field readers
// ---------------------------------------------------------------------------

fn field_u16(buf: &[u8], at: usize) -> (r: u16)
    requires
        at + 2 <= buf@.len(),
    ensures
        r == u16_at(buf@, at as int),
{
    proof {
        lemma_be_bound(buf@, at as int, 2);
        lemma_pow256_values();
    }
    read_be(buf, at, 2) as u16
}

fn field_u32(buf: &[u8], at: usize) -> (r: u32)
    requires
        at + 4 <= buf@.len(),
    ensures
        r == u32_at(buf@, at as int),
{
    proof {
        lemma_be_bound(buf@, at as int, 4);
        lemma_pow256_values();
    }
    read_be(buf, at, 4) as u32
}

fn field_u48(buf: &[u8], at: usize) -> (r: u64)
    requires
        at + 6 <= buf@.len(),
    ensures
        r == u48_at(buf@, at as int),
{
    proof {
        lemma_be_bound(buf@, at as int, 6);
        lemma_pow256_values();
    }
    read_be(buf, at, 6)
}

fn field_u64(buf: &[u8], at: usize) -> (r: u64)
    requires
        at + 8 <= buf@.len(),
    ensures
        r == u64_at(buf@, at as int),
{
    proof {
        lemma_be_bound(buf@, at as int, 8);
        lemma_pow256_values();
    }
    read_be(buf, at, 8)
}

fn field_arr8(buf: &[u8], at: usize) -> (r: [u8; 8])
    requires
        at + 8 <= buf@.len(),
    ensures
        r == arr8(buf@, at as int),
{
    let len = buf.len();
    let mut s = [0x20u8; 8];
    let mut i: usize = 0;
    while i < 8
        invariant
            len == buf@.len(),
            i <= 8,
            at + 8 <= buf@.len(),
            forall|j: int| 0 <= j < i ==> s@[j] == buf@[at + j],
        decreases 8 - i,
    {
        s[i] = buf[at + i];
        i = i + 1;
    }
    proof {
        assert(s@ =~= buf@.subrange(at as int, at + 8));
        lemma_arr8(s, buf@, at as int);
    }
    s
}

fn field_arr4(buf: &[u8], at: usize) -> (r: [u8; 4])
    requires
        at + 4 <= buf@.len(),
    ensures
        r == arr4(buf@, at as int),
{
    let len = buf.len();
    let mut s = [0x20u8; 4];
    let mut i: usize = 0;
    while i < 4
        invariant
            len == buf@.len(),
            i <= 4,
            at + 4 <= buf@.len(),
            forall|j: int| 0 <= j < i ==> s@[j] == buf@[at + j],
        decreases 4 - i,
    {
        s[i] = buf[at + i];
        i = i + 1;
    }
    proof {
        assert(s@ =~= buf@.subrange(at as int, at + 4));
        lemma_arr4(s, buf@, at as int);
    }
    s
}

// ---------------------------------------------------------------------------
// Decoding
// ---------------------------------------------------------------------------

/// Decodes a single ITCH 5.0 message from `buf`.
/// Returns the message and the number of bytes its type occupies.
pub fn parse_one(buf: &[u8]) -> (r: Option<(Message, usize)>)
    ensures
        r == decode_message(buf@),
{
    if buf.len() == 0 {
        return None;
    }
    let t = buf[0];
    if t == TYPE_ADD_ORDER {
        if buf.len() < 36 {
            return None;
        }
        let msg = AddOrder {
            stock_locate: field_u16(buf, 1),
            tracking_number: field_u16(buf, 3),
            timestamp_ns: field_u48(buf, 5),
            order_ref: field_u64(buf, 11),
            buy: buf[19] == SIDE_BUY,
            shares: field_u32(buf, 20),
            stock: field_arr8(buf, 24),
            price: field_u32(buf, 32),
        };
        Some((Message::AddOrder(msg), 36))
    } else if t == TYPE_ADD_ORDER_MPID {
        if buf.len() < 40 {
            return None;
        }
        let msg = AddOrderMpid {
            stock_locate: field_u16(buf, 1),
            tracking_number: field_u16(buf, 3),
            timestamp_ns: field_u48(buf, 5),
            order_ref: field_u64(buf, 11),
            buy: buf[19] == SIDE_BUY,
            shares: field_u32(buf, 20),
            stock: field_arr8(buf, 24),
            price: field_u32(buf, 32),
            attribution: field_arr4(buf, 36),
        };
        Some((Message::AddOrderMpid(msg), 40))
    } else if t == TYPE_ORDER_EXECUTED {
        if buf.len() < 31 {
            return None;
        }
        let msg = OrderExecuted {
            stock_locate: field_u16(buf, 1),
            tracking_number: field_u16(buf, 3),
            timestamp_ns: field_u48(buf, 5),
            order_ref: field_u64(buf, 11),
            executed_shares: field_u32(buf, 19),
            match_number: field_u64(buf, 23),
        };
        Some((Message::OrderExecuted(msg), 31))
    } else if t == TYPE_ORDER_EXECUTED_WITH_PRICE {
        if buf.len() < 36 {
            return None;
        }
        let msg = OrderExecutedWithPrice {
            stock_locate: field_u16(buf, 1),
            tracking_number: field_u16(buf, 3),
            timestamp_ns: field_u48(buf, 5),
            order_ref: field_u64(buf, 11),
            executed_shares: field_u32(buf, 19),
            match_number: field_u64(buf, 23),
            printable: buf[31] == FLAG_YES,
            execution_price: field_u32(buf, 32),
        };
        Some((Message::OrderExecutedWithPrice(msg), 36))
    } else if t == TYPE_ORDER_CANCEL {
        if buf.len() < 23 {
            return None;
        }
        let msg = OrderCancel {
            stock_locate: field_u16(buf, 1),
            tracking_number: field_u16(buf, 3),
            timestamp_ns: field_u48(buf, 5),
            order_ref: field_u64(buf, 11),
            canceled_shares: field_u32(buf, 19),
        };
        Some((Message::OrderCancel(msg), 23))
    } else if t == TYPE_ORDER_DELETE {
        if buf.len() < 19 {
            return None;
        }
        let msg = OrderDelete {
            stock_locate: field_u16(buf, 1),
            tracking_number: field_u16(buf, 3),
            timestamp_ns: field_u48(buf, 5),
            order_ref: field_u64(buf, 11),
        };
        Some((Message::OrderDelete(msg), 19))
    } else if t == TYPE_SYSTEM_EVENT {
        if buf.len() < 12 {
            return None;
        }
        let msg = SystemEvent {
            stock_locate: field_u16(buf, 1),
            tracking_number: field_u16(buf, 3),
            timestamp_ns: field_u48(buf, 5),
            event_code: buf[11],
        };
        Some((Message::SystemEvent(msg), 12))
    } else if t == TYPE_MARKET_PARTICIPANT {
        if buf.len() < 26 {
            return None;
        }
        let msg = MarketParticipantPosition {
            stock_locate: field_u16(buf, 1),
            tracking_number: field_u16(buf, 3),
            timestamp_ns: field_u48(buf, 5),
            mpid: field_arr4(buf, 11),
            stock: field_arr8(buf, 15),
            primary_market_maker: buf[23] == FLAG_YES,
            market_maker_mode: buf[24],
            market_participant_state: buf[25],
        };
        Some((Message::MarketParticipantPosition(msg), 26))
    } else if t == TYPE_TRADE {
        if buf.len() < 44 {
            return None;
        }
        let msg = Trade {
            stock_locate: field_u16(buf, 1),
            tracking_number: field_u16(buf, 3),
            timestamp_ns: field_u48(buf, 5),
            order_ref: field_u64(buf, 11),
            buy: buf[19] == SIDE_BUY,
            shares: field_u32(buf, 20),
            stock: field_arr8(buf, 24),
            price: field_u32(buf, 32),
            match_number: field_u64(buf, 36),
        };
        Some((Message::Trade(msg), 44))
    } else if t == TYPE_CROSS_TRADE {
        if buf.len() < 40 {
            return None;
        }
        let msg = CrossTrade {
            stock_locate: field_u16(buf, 1),
            tracking_number: field_u16(buf, 3),
            timestamp_ns: field_u48(buf, 5),
            shares: field_u64(buf, 11),
            stock: field_arr8(buf, 19),
            cross_price: field_u32(buf, 27),
            match_number: field_u64(buf, 31),
            cross_type: buf[39],
        };
        Some((Message::CrossTrade(msg), 40))
    } else if t == TYPE_BROKEN_TRADE {
        if buf.len() < 19 {
            return None;
        }
        let msg = BrokenTrade {
            stock_locate: field_u16(buf, 1),
            tracking_number: field_u16(buf, 3),
            timestamp_ns: field_u48(buf, 5),
            match_number: field_u64(buf, 11),
        };
        Some((Message::BrokenTrade(msg), 19))
    } else {
        Some((Message::Unknown { msg_type: t }, 1))
    }
}

/// Decodes every length-prefixed message of `buf`, in order.
/// Scanning stops at a truncated prefix or body; frames whose body does
/// not decode are skipped.
pub fn parse_all(buf: &[u8]) -> (msgs: Vec<Message>)
    ensures
        msgs@ == decode_stream(buf@),
{
    let mut msgs: Vec<Message> = Vec::new();
    let len = buf.len();
    let mut pos: usize = 0;
    while pos < len
        invariant
            pos <= len,
            len == buf@.len(),
            msgs@ + decode_stream_from(buf@, pos as int) == decode_stream(buf@),
        decreases len - pos,
    {
        if len - pos < 2 {
            assert(msgs@ + decode_stream_from(buf@, pos as int) =~= msgs@);
            return msgs;
        }
        let msg_len = read_len_prefix(buf, pos);
        let msg_start = pos + 2;
        if msg_len > len - msg_start {
            assert(msgs@ + decode_stream_from(buf@, pos as int) =~= msgs@);
            return msgs;
        }
        let msg_end = msg_start + msg_len;
        let ghost old_msgs = msgs@;
        let body = &buf[msg_start..msg_end];
        match parse_one(body) {
            Some((msg, _)) => {
                msgs.push(msg);
                assert(old_msgs + decode_stream_from(buf@, pos as int) =~= msgs@
                    + decode_stream_from(buf@, msg_end as int));
            },
            None => {},
        }
        pos = msg_end;
    }
    assert(msgs@ + decode_stream_from(buf@, pos as int) =~= msgs@);
    msgs
}

// ---------------------------------------------------------------------------
// ASCII decimal fields
// ---------------------------------------------------------------------------

/// Value of the decimal text `s`, most significant digit first; each byte
/// contributes `byte - '0'`.
pub open spec fn ascii_value(s: Seq<u8>) -> int
    decreases s.len(),
{
    if s.len() == 0 {
        0
    } else {
        ascii_value(s.drop_last()) * 10 + (s.last() - 0x30)
    }
}

/// No byte of `s` lies below `'0'`.
pub open spec fn no_byte_below_zero_digit(s: Seq<u8>) -> bool {
    forall|i: int| 0 <= i < s.len() ==> s[i] >= 0x30
}

proof fn lemma_ascii_prefix_mono(s: Seq<u8>, i: int, j: int)
    requires
        no_byte_below_zero_digit(s),
        0 <= i <= j <= s.len(),
    ensures
        0 <= ascii_value(s.take(i)) <= ascii_value(s.take(j)),
    decreases j,
{
    if j > 0 {
        assert(s.take(j).drop_last() =~= s.take(j - 1));
        if i < j {
            lemma_ascii_prefix_mono(s, i, j - 1);
        } else {
            lemma_ascii_prefix_mono(s, j - 1, j - 1);
        }
    }
}

/// Parses big-endian ASCII digits.
pub fn parse_ascii_u64(buf: &[u8]) -> (v: u64)
    requires
        no_byte_below_zero_digit(buf@),
        ascii_value(buf@) <= u64::MAX,
    ensures
        v == ascii_value(buf@),
{
    let len = buf.len();
    let mut val: u64 = 0;
    let mut i: usize = 0;
    assert(buf@.take(0) =~= Seq::<u8>::empty());
    while i < len
        invariant
            i <= len,
            len == buf@.len(),
            no_byte_below_zero_digit(buf@),
            ascii_value(buf@) <= u64::MAX,
            val == ascii_value(buf@.take(i as int)),
        decreases len - i,
    {
        proof {
            lemma_ascii_prefix_mono(buf@, i + 1, len as int);
            assert(buf@.take(len as int) =~= buf@);
            assert(buf@.take(i + 1).drop_last() =~= buf@.take(i as int));
        }
        val = val * 10 + (buf[i] - 0x30) as u64;
        i = i + 1;
    }
    assert(buf@.take(len as int) =~= buf@);
    val
}

/// Parses ASCII digits and keeps the low 32 bits.
pub fn parse_ascii_u32(buf: &[u8]) -> (v: u32)
    requires
        no_byte_below_zero_digit(buf@),
        ascii_value(buf@) <= u64::MAX,
    ensures
        v == ascii_value(buf@) as u32,
{
    parse_ascii_u64(buf) as u32
}

/// Parses ASCII digits and keeps the low 16 bits.
pub fn parse_ascii_u16(buf: &[u8]) -> (v: u16)
    requires
        no_byte_below_zero_digit(buf@),
        ascii_value(buf@) <= u64::MAX,
    ensures
        v == ascii_value(buf@) as u16,
{
    parse_ascii_u64(buf) as u16
}

/// Parses an ASCII timestamp field (nanoseconds since midnight).
pub fn parse_timestamp(buf: &[u8]) -> (v: u64)
    requires
        no_byte_below_zero_digit(buf@),
        ascii_value(buf@) <= u64::MAX,
    ensures
        v == ascii_value(buf@),
{
    parse_ascii_u64(buf)
}

} // verus!
