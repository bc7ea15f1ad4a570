//! The best asks and bids of all exchanges, kept up to date message by message.
use crate::algorithm::k_min_tree::{concat_all, KMinTree};
use crate::algorithm::order::{is_k_smallest, seq_equivalent};
use crate::market::data::{Ask, Bid, OrderBook};
use vstd::prelude::*;

verus! {

/// The asks and bids that a message brings: a new book's, or none where the
/// exchange's last book expired.
pub open spec fn sides_of(book: Option<OrderBook>) -> (Seq<Ask>, Seq<Bid>) {
    match book {
        Some(b) => (b.asks@, b.bids@),
        None => (Seq::empty(), Seq::empty()),
    }
}

/// A message hands on every order of the new book, and an expired book leaves
/// no order.
pub proof fn lemma_sides_of_whole_book(book: Option<OrderBook>)
    ensures
        book matches Some(b) ==> sides_of(book).0 == b.asks@ && sides_of(book).1 == b.bids@,
        book is None ==> sides_of(book).0.len() == 0 && sides_of(book).1.len() == 0,
{
}

/// One tree of asks and one of bids, with a leaf per exchange.
pub struct Aggregator {
    asks: KMinTree<Ask>,
    bids: KMinTree<Bid>,
}

impl Aggregator {
    pub closed spec fn asks(&self) -> KMinTree<Ask> {
        self.asks
    }

    pub closed spec fn bids(&self) -> KMinTree<Bid> {
        self.bids
    }

    /// Tracks the `nb_orders` best asks and bids of `nb_exchanges` exchanges.
    pub fn new(nb_orders: usize, nb_exchanges: usize) -> (r: Self)
        ensures
            r.asks().k() == nb_orders,
            r.bids().k() == nb_orders,
            r.asks().leaves() == Seq::new(nb_exchanges as nat, |i: int| Seq::<Ask>::empty()),
            r.bids().leaves() == Seq::new(nb_exchanges as nat, |i: int| Seq::<Bid>::empty()),
            r.asks().smallest() == Seq::<Ask>::empty(),
            r.bids().smallest() == Seq::<Bid>::empty(),
    {
        Aggregator { asks: KMinTree::new(nb_orders, nb_exchanges), bids: KMinTree::new(nb_orders, nb_exchanges) }
    }

    /// The number of exchanges that both trees have a leaf for.
    pub fn nb_exchanges(&self) -> (n: usize)
        ensures
            n <= self.asks().leaves().len(),
            n <= self.bids().leaves().len(),
            n == self.asks().leaves().len() || n == self.bids().leaves().len(),
    {
        let a = self.asks.nb_leaves();
        let b = self.bids.nb_leaves();
        if a <= b {
            a
        } else {
            b
        }
    }

    /// Takes in what an exchange sent: its new book, or `None` where its last
    /// book expired, which clears the exchange's orders. Returns whether the
    /// best asks or the best bids changed, that is whether the combined book
    /// is to be shown again.
    pub fn step(&mut self, exchange_id: usize, book: Option<OrderBook>) -> (changed: bool)
        requires
            exchange_id < old(self).asks().leaves().len(),
            exchange_id < old(self).bids().leaves().len(),
        ensures
            final(self).asks().k() == old(self).asks().k(),
            final(self).bids().k() == old(self).bids().k(),
            final(self).asks().leaves() == old(self).asks().leaves().update(
                exchange_id as int,
                sides_of(book).0,
            ),
            final(self).bids().leaves() == old(self).bids().leaves().update(
                exchange_id as int,
                sides_of(book).1,
            ),
            is_k_smallest(
                final(self).asks().smallest(),
                final(self).asks().k(),
                concat_all(final(self).asks().leaves()),
            ),
            is_k_smallest(
                final(self).bids().smallest(),
                final(self).bids().k(),
                concat_all(final(self).bids().leaves()),
            ),
            changed <==> !seq_equivalent(final(self).asks().smallest(), old(self).asks().smallest())
                || !seq_equivalent(final(self).bids().smallest(), old(self).bids().smallest()),
            // The exchange's leaves hold the whole book, every order of it, or
            // nothing where the book expired; the other exchanges keep theirs.
            book matches Some(b) ==> final(self).asks().leaves()[exchange_id as int] == b.asks@
                && final(self).bids().leaves()[exchange_id as int] == b.bids@,
            book is None ==> final(self).asks().leaves()[exchange_id as int] == Seq::<Ask>::empty()
                && final(self).bids().leaves()[exchange_id as int] == Seq::<Bid>::empty(),
            final(self).asks().leaves().len() == old(self).asks().leaves().len(),
            final(self).bids().leaves().len() == old(self).bids().leaves().len(),
            forall|i: int|
                0 <= i < old(self).asks().leaves().len() && i != exchange_id ==> #[trigger] final(self).asks().leaves()[i] == old(self).asks().leaves()[i],
            forall|i: int|
                0 <= i < old(self).bids().leaves().len() && i != exchange_id ==> #[trigger] final(self).bids().leaves()[i] == old(self).bids().leaves()[i],
    {
        let ghost sides = sides_of(book);
        // An expired book is replaced by the default, empty one.
        let book = match book {
            Some(b) => b,
            None => OrderBook::default(),
        };
        assert(book.asks@ =~= sides.0 && book.bids@ =~= sides.1);
        let asks_changed = self.asks.update_leaf(exchange_id, book.asks).is_some();
        let bids_changed = self.bids.update_leaf(exchange_id, book.bids).is_some();
        asks_changed || bids_changed
    }

    /// The best asks, best first.
    pub fn best_asks(&self) -> (r: &[Ask])
        ensures
            r@ == self.asks().smallest(),
    {
        self.asks.get()
    }

    /// The best bids, best first.
    pub fn best_bids(&self) -> (r: &[Bid])
        ensures
            r@ == self.bids().smallest(),
    {
        self.bids.get()
    }
}

} // verus!
