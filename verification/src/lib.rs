//! Verified core of a NASDAQ TotalView-ITCH latency lab: wire decoding,
//! message filtering bitmaps, an arena-backed order book, synthetic market
//! data and the small bookkeeping types around them.

pub mod parser;
pub mod orderbook;
pub mod data;
pub mod latency_buf;
pub mod bench_env;
pub mod net;
pub mod microarch;
pub mod pipeline;
pub mod strategy;
