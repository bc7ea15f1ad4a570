//! Aggregation of exchange order books: a tournament tree that keeps the `k`
//! best orders of several books, the market data types and the rules by which
//! they are parsed, ordered and shown, and the decisions of the reconnecting
//! websocket and of the expiry of stale books.
pub mod aggregate;
pub mod algorithm;
pub mod display;
pub mod lsl;
pub mod market;
pub mod network;

use crate::market::ExchangeConfig;
use crate::network::span::Span;
use crate::network::websocket::DurableWSConfig;
use vstd::prelude::*;

verus! {

pub struct Config {
    pub exchanges: Vec<ExchangeConfig>,
    pub connection: DurableWSConfig,
    pub order_lifetime: Span,
    pub nb_orders: usize,
}

} // verus!
