//! The form in which Binance sends order books.
use crate::market::data::{book_of, parse_asks, parse_bids, OrderBook, ParseError};
use crate::market::decimal::Dec;
use vstd::prelude::*;

verus! {

// Ask & bid data is in the form of [[price, amount], [price, amount],..],
// where the prices and amounts are numbers encoded as strings.
// Only elements we need are included - any extra data is ignored by the parser,
// so that the format is potentially compatible with other exchanges as well.
pub struct RawOrderBook {
    asks: Vec<Vec<Dec>>,
    bids: Vec<Vec<Dec>>,
}

impl View for RawOrderBook {
    type V = (Seq<Seq<Dec>>, Seq<Seq<Dec>>);

    /// The raw asks and bids.
    closed spec fn view(&self) -> (Seq<Seq<Dec>>, Seq<Seq<Dec>>) {
        (self.asks@.map_values(|v: Vec<Dec>| v@), self.bids@.map_values(|v: Vec<Dec>| v@))
    }
}

impl RawOrderBook {
    pub fn new(asks: Vec<Vec<Dec>>, bids: Vec<Vec<Dec>>) -> (r: Self)
        ensures
            r@ == (asks@.map_values(|v: Vec<Dec>| v@), bids@.map_values(|v: Vec<Dec>| v@)),
    {
        RawOrderBook { asks, bids }
    }

    /// Numbers the orders in the order received, and fails where an order is
    /// not a `[price, amount]` pair.
    pub fn to_order_book(self, exchange_id: usize, book_id: u64) -> (r: Result<OrderBook, ParseError>)
        ensures
            r is Ok <==> book_of(exchange_id, book_id, self@.0, self@.1) is Some,
            r matches Ok(b) ==> book_of(exchange_id, book_id, self@.0, self@.1) == Some((b.asks@, b.bids@)),
            r matches Err(e) ==> e is LengthError,
    {
        let asks = match parse_asks(exchange_id, book_id, &self.asks) {
            Ok(asks) => asks,
            Err(e) => return Err(e),
        };
        let bids = match parse_bids(exchange_id, book_id, &self.bids) {
            Ok(bids) => bids,
            Err(e) => return Err(e),
        };
        Ok(OrderBook { asks, bids })
    }
}

} // verus!
