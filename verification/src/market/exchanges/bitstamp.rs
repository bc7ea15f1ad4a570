//! Bitstamp WebSocket API documentation: https://www.bitstamp.net/websocket/v2/
use vstd::prelude::*;

verus! {

pub struct ChannelDef {
    pub channel: String,
}

/// A request to subscribe to a channel.
pub struct SubRequest {
    pub event: String,
    pub data: ChannelDef,
}

impl SubRequest {
    /// The request to subscribe to the order book channel of a currency pair,
    /// such as `ethbtc`.
    pub fn new(symbol: &str) -> (r: Self)
        ensures
            r.event@ == "bts:subscribe"@,
            r.data.channel@ == "order_book_"@ + symbol@,
    {
        SubRequest {
            event: "bts:subscribe".to_owned(),
            data: ChannelDef { channel: "order_book_".to_owned().concat(symbol) },
        }
    }
}

} // verus!
