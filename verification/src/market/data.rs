//! Elemental market datatypes, not specific to any exchange.
pub mod binance;
pub mod bitstamp;

use crate::algorithm::order::{equivalent, TotalOrder};
use crate::market::decimal::{
    lemma_value_leq_transitive_all, lemma_value_order, value_leq, value_lt, Dec, ValueOrder,
};
use std::cmp::Ordering;
use vstd::prelude::*;

verus! {

#[verifier::external_type_specification]
#[verifier::external_body]
pub struct ExDecimalError(rust_decimal::Error);

#[verifier::external_type_specification]
#[verifier::external_body]
pub struct ExJsonError(serde_json::Error);

#[derive(Debug)]
pub enum ParseError {
    ParseDecimalError(rust_decimal::Error),
    LengthError,
    SerdeError(serde_json::Error),
}

/// Lexicographic order on the identifiers `(exchange_id, book_id, order_id)`.
pub open spec fn ids_leq(a: (usize, u64, usize), b: (usize, u64, usize)) -> bool {
    a.0 < b.0 || (a.0 == b.0 && (a.1 < b.1 || (a.1 == b.1 && a.2 <= b.2)))
}

fn compare_ids_leq(a: (usize, u64, usize), b: (usize, u64, usize)) -> (r: bool)
    ensures
        r == ids_leq(a, b),
{
    a.0 < b.0 || (a.0 == b.0 && (a.1 < b.1 || (a.1 == b.1 && a.2 <= b.2)))
}

#[derive(Debug, Clone, Copy)]
pub struct Ask {
    pub exchange_id: usize,
    pub book_id: u64,
    pub order_id: usize,
    pub price: Dec,
    pub amount: Dec,
}

impl Ask {
    pub open spec fn ids(self) -> (usize, u64, usize) {
        (self.exchange_id, self.book_id, self.order_id)
    }

    /// The ask built from the parsed pair `[price, amount]`.
    pub open spec fn from_pair(exchange_id: usize, book_id: u64, order_id: usize, value: Seq<Dec>) -> Ask {
        Ask { exchange_id, book_id, order_id, price: value[0], amount: value[1] }
    }

    /// Parse a [price, amount] array of length 2.
    fn from_raw(exchange_id: usize, book_id: u64, order_id: usize, value: &Vec<Dec>) -> (r: Result<
        Self,
        ParseError,
    >)
        ensures
            r is Ok <==> value@.len() == 2,
            r matches Ok(a) ==> a == Ask::from_pair(exchange_id, book_id, order_id, value@),
            r matches Err(e) ==> e is LengthError,
    {
        if value.len() == 2 {
            // Ordering is very important, to not confuse price & amount.
            Ok(Self { exchange_id, book_id, order_id, price: value[0], amount: value[1] })
        } else {
            Err(ParseError::LengthError)
        }
    }
}

/// The better ask (lower price, then greater amount) comes first; the
/// identifiers break the remaining ties, so that two asks compare equal only
/// when they represent the same order.
impl TotalOrder for Ask {
    open spec fn leq(self, other: Self) -> bool {
        if value_lt(self.price@, other.price@) {
            true
        } else if value_lt(other.price@, self.price@) {
            false
        } else if value_lt(other.amount@, self.amount@) {
            true
        } else if value_lt(self.amount@, other.amount@) {
            false
        } else {
            ids_leq(self.ids(), other.ids())
        }
    }

    proof fn lemma_reflexive(x: Self) {
        lemma_value_order();
    }

    proof fn lemma_transitive(x: Self, y: Self, z: Self) {
        lemma_value_order();
        lemma_value_leq_transitive_all(x.price@, y.price@, z.price@);
        lemma_value_leq_transitive_all(x.amount@, y.amount@, z.amount@);
    }

    proof fn lemma_total(x: Self, y: Self) {
        lemma_value_order();
    }

    fn compare_leq(&self, other: &Self) -> (r: bool) {
        match self.price.compare(&other.price) {
            ValueOrder::Less => true,
            ValueOrder::Greater => false,
            ValueOrder::Equal => match self.amount.compare(&other.amount) {
                ValueOrder::Greater => true,
                ValueOrder::Less => false,
                ValueOrder::Equal => compare_ids_leq(
                    (self.exchange_id, self.book_id, self.order_id),
                    (other.exchange_id, other.book_id, other.order_id),
                ),
            },
        }
    }
}

impl PartialEq for Ask {
    fn eq(&self, other: &Self) -> (r: bool) {
        self.compare_leq(other) && other.compare_leq(self)
    }
}

impl vstd::std_specs::cmp::PartialEqSpecImpl for Ask {
    open spec fn obeys_eq_spec() -> bool {
        true
    }

    open spec fn eq_spec(&self, other: &Self) -> bool {
        self.leq(*other) && other.leq(*self)
    }
}

impl Eq for Ask {
}

impl PartialOrd for Ask {
    fn partial_cmp(&self, other: &Self) -> (r: Option<Ordering>) {
        if self.compare_leq(other) {
            if other.compare_leq(self) {
                Some(Ordering::Equal)
            } else {
                Some(Ordering::Less)
            }
        } else {
            Some(Ordering::Greater)
        }
    }
}

impl vstd::std_specs::cmp::PartialOrdSpecImpl for Ask {
    open spec fn obeys_partial_cmp_spec() -> bool {
        true
    }

    open spec fn partial_cmp_spec(&self, other: &Self) -> Option<Ordering> {
        if self.leq(*other) {
            if other.leq(*self) {
                Some(Ordering::Equal)
            } else {
                Some(Ordering::Less)
            }
        } else {
            Some(Ordering::Greater)
        }
    }
}

// Bid is basically identical to Ask, but this similarity is only incidental, not intrinsic
// (i.e. it is possible to imagine a different implementation/data for bids),
// so we do not attempt to avoid this code duplication.
#[derive(Debug, Clone, Copy)]
pub struct Bid {
    pub exchange_id: usize,
    pub book_id: u64,
    pub order_id: usize,
    pub price: Dec,
    pub amount: Dec,
}

impl Bid {
    pub open spec fn ids(self) -> (usize, u64, usize) {
        (self.exchange_id, self.book_id, self.order_id)
    }

    /// The bid built from the parsed pair `[price, amount]`.
    pub open spec fn from_pair(exchange_id: usize, book_id: u64, order_id: usize, value: Seq<Dec>) -> Bid {
        Bid { exchange_id, book_id, order_id, price: value[0], amount: value[1] }
    }

    /// Parse a [price, amount] array of length 2.
    fn from_raw(exchange_id: usize, book_id: u64, order_id: usize, value: &Vec<Dec>) -> (r: Result<
        Self,
        ParseError,
    >)
        ensures
            r is Ok <==> value@.len() == 2,
            r matches Ok(b) ==> b == Bid::from_pair(exchange_id, book_id, order_id, value@),
            r matches Err(e) ==> e is LengthError,
    {
        if value.len() == 2 {
            // Ordering is very important, to not confuse price & amount.
            Ok(Self { exchange_id, book_id, order_id, price: value[0], amount: value[1] })
        } else {
            Err(ParseError::LengthError)
        }
    }
}

/// The better bid (greater price, then greater amount) comes first; the
/// identifiers break the remaining ties, so that two bids compare equal only
/// when they represent the same order.
impl TotalOrder for Bid {
    open spec fn leq(self, other: Self) -> bool {
        if value_lt(other.price@, self.price@) {
            true
        } else if value_lt(self.price@, other.price@) {
            false
        } else if value_lt(other.amount@, self.amount@) {
            true
        } else if value_lt(self.amount@, other.amount@) {
            false
        } else {
            ids_leq(self.ids(), other.ids())
        }
    }

    proof fn lemma_reflexive(x: Self) {
        lemma_value_order();
    }

    proof fn lemma_transitive(x: Self, y: Self, z: Self) {
        lemma_value_order();
        lemma_value_leq_transitive_all(x.price@, y.price@, z.price@);
        lemma_value_leq_transitive_all(x.amount@, y.amount@, z.amount@);
    }

    proof fn lemma_total(x: Self, y: Self) {
        lemma_value_order();
    }

    fn compare_leq(&self, other: &Self) -> (r: bool) {
        match self.price.compare(&other.price) {
            ValueOrder::Greater => true,
            ValueOrder::Less => false,
            ValueOrder::Equal => match self.amount.compare(&other.amount) {
                ValueOrder::Greater => true,
                ValueOrder::Less => false,
                ValueOrder::Equal => compare_ids_leq(
                    (self.exchange_id, self.book_id, self.order_id),
                    (other.exchange_id, other.book_id, other.order_id),
                ),
            },
        }
    }
}

impl PartialEq for Bid {
    fn eq(&self, other: &Self) -> (r: bool) {
        self.compare_leq(other) && other.compare_leq(self)
    }
}

impl vstd::std_specs::cmp::PartialEqSpecImpl for Bid {
    open spec fn obeys_eq_spec() -> bool {
        true
    }

    open spec fn eq_spec(&self, other: &Self) -> bool {
        self.leq(*other) && other.leq(*self)
    }
}

impl Eq for Bid {
}

impl PartialOrd for Bid {
    fn partial_cmp(&self, other: &Self) -> (r: Option<Ordering>) {
        if self.compare_leq(other) {
            if other.compare_leq(self) {
                Some(Ordering::Equal)
            } else {
                Some(Ordering::Less)
            }
        } else {
            Some(Ordering::Greater)
        }
    }
}

impl vstd::std_specs::cmp::PartialOrdSpecImpl for Bid {
    open spec fn obeys_partial_cmp_spec() -> bool {
        true
    }

    open spec fn partial_cmp_spec(&self, other: &Self) -> Option<Ordering> {
        if self.leq(*other) {
            if other.leq(*self) {
                Some(Ordering::Equal)
            } else {
                Some(Ordering::Less)
            }
        } else {
            Some(Ordering::Greater)
        }
    }
}

/// The two decimals have the same value.
pub open spec fn same_value(a: Dec, b: Dec) -> bool {
    value_leq(a@, b@) && value_leq(b@, a@)
}

/// Two asks compare equal exactly when they have the same price, the same
/// amount and the same identifiers: when they represent the same order.
pub proof fn lemma_asks_equal(a: Ask, b: Ask)
    ensures
        equivalent(a, b) <==> same_value(a.price, b.price) && same_value(a.amount, b.amount)
            && a.ids() == b.ids(),
{
    lemma_value_order();
}

/// Two bids compare equal exactly when they have the same price, the same
/// amount and the same identifiers: when they represent the same order.
pub proof fn lemma_bids_equal(a: Bid, b: Bid)
    ensures
        equivalent(a, b) <==> same_value(a.price, b.price) && same_value(a.amount, b.amount)
            && a.ids() == b.ids(),
{
    lemma_value_order();
}

#[derive(Debug, Clone, Copy, PartialEq, Eq, Structural)]
pub enum OrderBookFormat {
    Binance,
    Bitstamp,
}

#[derive(Clone, Debug)]
pub struct OrderBook {
    pub asks: Vec<Ask>,
    pub bids: Vec<Bid>,
}

impl Default for OrderBook {
    fn default() -> (r: Self)
        ensures
            r.asks@.len() == 0,
            r.bids@.len() == 0,
    {
        OrderBook { asks: Vec::new(), bids: Vec::new() }
    }
}

/// Every raw order is a `[price, amount]` pair.
pub open spec fn all_pairs(raw: Seq<Seq<Dec>>) -> bool {
    forall|i: int| 0 <= i < raw.len() ==> (#[trigger] raw[i]).len() == 2
}

/// The asks of a raw list of `[price, amount]` pairs, numbered in order.
pub open spec fn asks_of(exchange_id: usize, book_id: u64, raw: Seq<Seq<Dec>>) -> Seq<Ask> {
    Seq::new(raw.len(), |i: int| Ask::from_pair(exchange_id, book_id, i as usize, raw[i]))
}

/// The bids of a raw list of `[price, amount]` pairs, numbered in order.
pub open spec fn bids_of(exchange_id: usize, book_id: u64, raw: Seq<Seq<Dec>>) -> Seq<Bid> {
    Seq::new(raw.len(), |i: int| Bid::from_pair(exchange_id, book_id, i as usize, raw[i]))
}

/// Parses each raw `[price, amount]` pair into an ask, numbering the orders.
pub fn parse_asks(exchange_id: usize, book_id: u64, raw: &Vec<Vec<Dec>>) -> (r: Result<
    Vec<Ask>,
    ParseError,
>)
    ensures
        r is Ok <==> all_pairs(raw@.map_values(|v: Vec<Dec>| v@)),
        r matches Ok(asks) ==> asks@ == asks_of(exchange_id, book_id, raw@.map_values(|v: Vec<Dec>| v@)),
        r matches Err(e) ==> e is LengthError,
{
    let ghost pairs = raw@.map_values(|v: Vec<Dec>| v@);
    let mut asks: Vec<Ask> = Vec::new();
    let mut order_id: usize = 0;
    while order_id < raw.len()
        invariant
            order_id <= raw.len(),
            pairs == raw@.map_values(|v: Vec<Dec>| v@),
            forall|i: int| 0 <= i < order_id ==> (#[trigger] pairs[i]).len() == 2,
            asks@ == asks_of(exchange_id, book_id, pairs.take(order_id as int)),
        decreases raw.len() - order_id,
    {
        match Ask::from_raw(exchange_id, book_id, order_id, &raw[order_id]) {
            Ok(ask) => {
                asks.push(ask);
            },
            Err(e) => {
                assert(pairs[order_id as int].len() != 2);
                return Err(e);
            },
        }
        order_id += 1;
        proof {
            assert(asks@ =~= asks_of(exchange_id, book_id, pairs.take(order_id as int)));
        }
    }
    proof {
        assert(pairs.take(order_id as int) =~= pairs);
    }
    Ok(asks)
}

/// Parses each raw `[price, amount]` pair into a bid, numbering the orders.
pub fn parse_bids(exchange_id: usize, book_id: u64, raw: &Vec<Vec<Dec>>) -> (r: Result<
    Vec<Bid>,
    ParseError,
>)
    ensures
        r is Ok <==> all_pairs(raw@.map_values(|v: Vec<Dec>| v@)),
        r matches Ok(bids) ==> bids@ == bids_of(exchange_id, book_id, raw@.map_values(|v: Vec<Dec>| v@)),
        r matches Err(e) ==> e is LengthError,
{
    let ghost pairs = raw@.map_values(|v: Vec<Dec>| v@);
    let mut bids: Vec<Bid> = Vec::new();
    let mut order_id: usize = 0;
    while order_id < raw.len()
        invariant
            order_id <= raw.len(),
            pairs == raw@.map_values(|v: Vec<Dec>| v@),
            forall|i: int| 0 <= i < order_id ==> (#[trigger] pairs[i]).len() == 2,
            bids@ == bids_of(exchange_id, book_id, pairs.take(order_id as int)),
        decreases raw.len() - order_id,
    {
        match Bid::from_raw(exchange_id, book_id, order_id, &raw[order_id]) {
            Ok(bid) => {
                bids.push(bid);
            },
            Err(e) => {
                assert(pairs[order_id as int].len() != 2);
                return Err(e);
            },
        }
        order_id += 1;
        proof {
            assert(bids@ =~= bids_of(exchange_id, book_id, pairs.take(order_id as int)));
        }
    }
    proof {
        assert(pairs.take(order_id as int) =~= pairs);
    }
    Ok(bids)
}

/// The order book of raw ask and bid pairs, or `None` where a pair does not
/// have two elements.
pub open spec fn book_of(exchange_id: usize, book_id: u64, asks: Seq<Seq<Dec>>, bids: Seq<Seq<Dec>>) -> Option<(Seq<Ask>, Seq<Bid>)> {
    if all_pairs(asks) && all_pairs(bids) {
        Some((asks_of(exchange_id, book_id, asks), bids_of(exchange_id, book_id, bids)))
    } else {
        None
    }
}

} // verus!
