use rusty_markets::aggregate::Aggregator;
use rusty_markets::algorithm::k_min_tree::KMinTree;
use rusty_markets::market::data::OrderBook;
use rusty_markets::algorithm::order::TotalOrder;
use rusty_markets::display::DisplayBook;
use rusty_markets::market::data::{binance, bitstamp, Ask, Bid, ParseError};
use rusty_markets::market::decimal::{Dec, ValueOrder};
use rusty_markets::market::exchanges::bitstamp::SubRequest;
use rusty_markets::market::BookIds;

fn dec(m: i128, s: u32) -> Dec {
    Dec::from_parts(m, s).unwrap()
}

fn ask(exchange_id: usize, order_id: usize, price: Dec, amount: Dec) -> Ask {
    Ask { exchange_id, book_id: 1, order_id, price, amount }
}

fn bid(exchange_id: usize, order_id: usize, price: Dec, amount: Dec) -> Bid {
    Bid { exchange_id, book_id: 1, order_id, price, amount }
}

#[test]
fn decimal_bounds() {
    assert!(Dec::from_parts(79228162514264337593543950335, 28).is_some());
    assert!(Dec::from_parts(79228162514264337593543950336, 0).is_none());
    assert!(Dec::from_parts(-79228162514264337593543950336, 0).is_none());
    assert!(Dec::from_parts(1, 29).is_none());
    let z = Dec::zero();
    assert_eq!((z.mantissa(), z.scale()), (0, 0));
}

#[test]
fn decimals_compare_by_value() {
    assert_eq!(dec(10, 1).compare(&dec(100, 2)), ValueOrder::Equal);
    assert_eq!(dec(5, 1).compare(&dec(49, 2)), ValueOrder::Greater);
    assert_eq!(dec(-5, 1).compare(&dec(-49, 2)), ValueOrder::Less);
    assert_eq!(dec(1, 28).compare(&dec(0, 0)), ValueOrder::Greater);
}

#[test]
fn decimal_subtraction() {
    let d = dec(1250, 2).checked_sub(&dec(1300, 2)).unwrap();
    assert_eq!((d.mantissa(), d.scale()), (-50, 2));
    // 0.0125 - 0.01 = 0.0025
    let d = dec(125, 4).checked_sub(&dec(1, 2)).unwrap();
    assert_eq!((d.mantissa(), d.scale()), (25, 4));
    let max = dec(79228162514264337593543950335, 0);
    let min = dec(-79228162514264337593543950335, 0);
    assert!(max.checked_sub(&min).is_none());
}

#[test]
fn asks_order_by_lower_price_then_greater_amount() {
    let cheap = ask(0, 0, dec(10, 0), dec(1, 0));
    let dear = ask(0, 1, dec(11, 0), dec(5, 0));
    assert!(cheap.compare_leq(&dear));
    assert!(!dear.compare_leq(&cheap));
    let big = ask(1, 0, dec(10, 0), dec(2, 0));
    assert!(big.compare_leq(&cheap));
    assert!(!cheap.compare_leq(&big));
    // Same order, price written differently.
    let again = ask(0, 0, dec(100, 1), dec(10, 1));
    assert!(again == cheap);
    assert!(ask(0, 1, dec(10, 0), dec(1, 0)) != cheap);
    assert!(cheap < dear && big < cheap && !(again < cheap) && again <= cheap);
    assert_eq!(cheap.partial_cmp(&again), Some(std::cmp::Ordering::Equal));
}

#[test]
fn bids_order_by_higher_price_then_greater_amount() {
    let high = bid(0, 0, dec(11, 0), dec(1, 0));
    let low = bid(0, 1, dec(10, 0), dec(5, 0));
    assert!(high.compare_leq(&low));
    assert!(!low.compare_leq(&high));
    let big = bid(1, 0, dec(11, 0), dec(3, 0));
    assert!(big.compare_leq(&high));
    assert!(bid(0, 0, dec(110, 1), dec(1, 0)) == high);
    assert!(high < low && big < high && low > big);
}

#[test]
fn binance_book_numbers_orders() {
    let raw = binance::RawOrderBook::new(
        vec![vec![dec(101, 1), dec(2, 0)], vec![dec(102, 1), dec(3, 0)]],
        vec![vec![dec(99, 1), dec(1, 0)]],
    );
    let book = raw.to_order_book(4, 17).unwrap();
    assert_eq!(book.asks.len(), 2);
    assert_eq!(book.bids.len(), 1);
    assert_eq!((book.asks[1].exchange_id, book.asks[1].book_id, book.asks[1].order_id), (4, 17, 1));
    assert_eq!(book.asks[1].price.mantissa(), 102);
    assert_eq!(book.asks[1].amount.mantissa(), 3);
    assert_eq!(book.bids[0].order_id, 0);
    assert_eq!(book.bids[0].price.mantissa(), 99);
}

#[test]
fn bitstamp_book_rejects_bad_pairs() {
    let raw = bitstamp::RawOrderBook::new(
        vec![vec![dec(101, 1), dec(2, 0)]],
        vec![vec![dec(99, 1)]],
    );
    assert!(matches!(raw.to_order_book(0, 0), Err(ParseError::LengthError)));
    let raw = bitstamp::RawOrderBook::new(vec![vec![dec(1, 0), dec(2, 0), dec(3, 0)]], vec![]);
    assert!(matches!(raw.to_order_book(0, 0), Err(ParseError::LengthError)));
    let raw = bitstamp::RawOrderBook::new(vec![], vec![]);
    let book = raw.to_order_book(0, 0).unwrap();
    assert!(book.asks.is_empty() && book.bids.is_empty());
}

#[test]
fn tree_of_asks_keeps_best_asks() {
    let mut tree: KMinTree<Ask> = KMinTree::new(2, 2);
    let a0 = ask(0, 0, dec(12, 0), dec(1, 0));
    let a1 = ask(0, 1, dec(10, 0), dec(1, 0));
    let b0 = ask(1, 0, dec(11, 0), dec(1, 0));
    let top = tree.update_leaf(0, vec![a0, a1]).cloned().unwrap();
    assert!(top == vec![a1, a0]);
    let top = tree.update_leaf(1, vec![b0]).cloned().unwrap();
    assert!(top == vec![a1, b0]);
    // The same order again, its price written with another scale.
    let b0_again = ask(1, 0, dec(110, 1), dec(10, 1));
    assert!(tree.update_leaf(1, vec![b0_again]).is_none());
}

#[test]
fn display_book_spread_and_labels() {
    let labels = ["binance", "bitstamp"];
    let asks = [ask(1, 0, dec(1250, 2), dec(2, 0)), ask(0, 0, dec(13, 0), dec(1, 0))];
    let bids = [bid(0, 0, dec(12, 0), dec(3, 0))];
    let book = DisplayBook::new(&asks, &bids, &labels).unwrap();
    assert_eq!((book.spread.mantissa(), book.spread.scale()), (50, 2));
    assert_eq!(book.asks.len(), 2);
    assert_eq!(book.asks[0].exchange, "bitstamp");
    assert_eq!(book.asks[1].exchange, "binance");
    assert_eq!(book.bids[0].exchange, "binance");
    assert_eq!(book.bids[0].amount.mantissa(), 3);
    let empty = DisplayBook::new(&asks, &[], &labels).unwrap();
    assert_eq!((empty.spread.mantissa(), empty.spread.scale()), (0, 0));
    assert!(empty.bids.is_empty());
}

#[test]
fn display_book_overflowing_spread() {
    let labels = ["x"];
    let asks = [ask(0, 0, dec(79228162514264337593543950335, 0), dec(1, 0))];
    let bids = [bid(0, 0, dec(-79228162514264337593543950335, 0), dec(1, 0))];
    assert!(DisplayBook::new(&asks, &bids, &labels).is_none());
}

#[test]
fn subscription_request() {
    let r = SubRequest::new("ethbtc");
    assert_eq!(r.event, "bts:subscribe");
    assert_eq!(r.data.channel, "order_book_ethbtc");
}

#[test]
fn book_ids_count_up() {
    let mut ids = BookIds::new();
    assert_eq!(ids.next_id(), 0);
    assert_eq!(ids.next_id(), 1);
    assert_eq!(ids.next_id(), 2);
}

#[test]
fn aggregator_combines_exchanges_and_clears_expired_books() {
    let mut agg = Aggregator::new(2, 2);
    assert_eq!(agg.nb_exchanges(), 2);
    let a0 = ask(0, 0, dec(12, 0), dec(1, 0));
    let a1 = ask(1, 0, dec(10, 0), dec(1, 0));
    let b0 = bid(0, 0, dec(9, 0), dec(1, 0));
    let book0 = OrderBook { asks: vec![a0], bids: vec![b0] };
    assert!(agg.step(0, Some(book0.clone())));
    assert!(agg.best_asks() == [a0] && agg.best_bids() == [b0]);
    // The same book again changes nothing.
    assert!(!agg.step(0, Some(book0)));
    assert!(agg.step(1, Some(OrderBook { asks: vec![a1], bids: vec![] })));
    assert!(agg.best_asks() == [a1, a0]);
    // Exchange 0's book expired.
    assert!(agg.step(0, None));
    assert!(agg.best_asks() == [a1] && agg.best_bids().is_empty());
    assert!(!agg.step(0, None));
}

#[test]
fn tree_get_returns_tracked_values() {
    let mut tree: KMinTree<i32> = KMinTree::new(2, 2);
    assert!(tree.get().is_empty());
    tree.update_leaf(1, vec![5, 3, 8]);
    assert_eq!(tree.get(), [3, 5]);
    let empty: KMinTree<i32> = KMinTree::new(2, 0);
    assert!(empty.get().is_empty());
}
