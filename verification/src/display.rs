//! The order book in the form in which it is shown.
use crate::market::data::{Ask, Bid};
use crate::market::decimal::{decimal_difference, parts_of, same_scale_difference_fits, Dec};
use vstd::prelude::*;

verus! {

pub struct DisplayOrder<'a> {
    pub exchange: &'a str,
    pub price: Dec,
    pub amount: Dec,
}

// Market data in the requested output form.
pub struct DisplayBook<'a> {
    pub spread: Dec,
    pub asks: Vec<DisplayOrder<'a>>,
    pub bids: Vec<DisplayOrder<'a>>,
}

/// The best ask price less the best bid price (as `Decimal::checked_sub`
/// computes it), or zero where either side is empty; `None` where the
/// subtraction overflows.
pub open spec fn spread_of(asks: Seq<Ask>, bids: Seq<Bid>) -> Option<(int, nat)> {
    if asks.len() > 0 && bids.len() > 0 {
        decimal_difference(asks[0].price@, bids[0].price@)
    } else {
        Some((0, 0))
    }
}

/// The spread is taken between the best ask and the best bid, the first of
/// each side, and is zero where a side is empty.
pub proof fn lemma_spread_of_best_prices(asks: Seq<Ask>, bids: Seq<Bid>)
    ensures
        asks.len() > 0 && bids.len() > 0 ==> spread_of(asks, bids) == decimal_difference(
            asks[0].price@,
            bids[0].price@,
        ),
        asks.len() == 0 || bids.len() == 0 ==> spread_of(asks, bids) == Some((0int, 0nat)),
{
}

/// An order shown with the label of its exchange.
pub open spec fn shown<'a>(exchange: &'a str, price: Dec, amount: Dec) -> DisplayOrder<'a> {
    DisplayOrder { exchange, price, amount }
}

/// Every order names an exchange that has a label.
pub open spec fn labelled(ids: Seq<usize>, nb_labels: nat) -> bool {
    forall|i: int| 0 <= i < ids.len() ==> #[trigger] ids[i] < nb_labels
}

impl<'a> DisplayBook<'a> {
    /// The book of sorted asks and bids, with exchange labels. Asks & bids must be
    /// sorted, or spread will be calculated incorrectly.
    pub fn new(asks: &[Ask], bids: &[Bid], labels: &'a [&'a str]) -> (r: Option<Self>)
        requires
            labelled(asks@.map_values(|a: Ask| a.exchange_id), labels@.len()),
            labelled(bids@.map_values(|b: Bid| b.exchange_id), labels@.len()),
        ensures
            r is Some <==> spread_of(asks@, bids@) is Some,
            // The spread is the best (first) ask price less the best (first) bid
            // price, exactly their difference where both have one scale and it
            // fits; zero where a side is empty.
            asks@.len() > 0 && bids@.len() > 0 ==> (r is None <==> decimal_difference(
                asks@[0].price@,
                bids@[0].price@,
            ) is None),
            asks@.len() > 0 && bids@.len() > 0 ==> (r matches Some(book) ==> Some(book.spread@)
                == decimal_difference(asks@[0].price@, bids@[0].price@)),
            asks@.len() > 0 && bids@.len() > 0 && same_scale_difference_fits(
                asks@[0].price@,
                bids@[0].price@,
            ) ==> (r matches Some(book) && book.spread@ == (
                asks@[0].price@.0 - bids@[0].price@.0,
                asks@[0].price@.1,
            )),
            asks@.len() == 0 || bids@.len() == 0 ==> (r matches Some(book) && book.spread@ == (
                0int,
                0nat,
            )),
            r matches Some(book) ==> {
                &&& Some(book.spread@) == spread_of(asks@, bids@)
                &&& book.asks@.len() == asks@.len()
                &&& book.bids@.len() == bids@.len()
                &&& forall|i: int|
                    0 <= i < asks@.len() ==> #[trigger] book.asks@[i] == shown(
                        labels@[asks@[i].exchange_id as int],
                        asks@[i].price,
                        asks@[i].amount,
                    )
                &&& forall|i: int|
                    0 <= i < bids@.len() ==> #[trigger] book.bids@[i] == shown(
                        labels@[bids@[i].exchange_id as int],
                        bids@[i].price,
                        bids@[i].amount,
                    )
            },
    {
        let spread = if asks.len() > 0 && bids.len() > 0 {
            match asks[0].price.checked_sub(&bids[0].price) {
                Some(d) => d,
                None => return None,
            }
        } else {
            Dec::zero()
        };
        let mut shown_asks: Vec<DisplayOrder<'a>> = Vec::new();
        let mut i: usize = 0;
        while i < asks.len()
            invariant
                i <= asks@.len(),
                labelled(asks@.map_values(|a: Ask| a.exchange_id), labels@.len()),
                shown_asks@.len() == i,
                forall|j: int|
                    0 <= j < i ==> #[trigger] shown_asks@[j] == shown(
                        labels@[asks@[j].exchange_id as int],
                        asks@[j].price,
                        asks@[j].amount,
                    ),
            decreases asks.len() - i,
        {
            let ask = asks[i];
            proof {
                assert(asks@.map_values(|a: Ask| a.exchange_id)[i as int] == ask.exchange_id);
            }
            shown_asks.push(DisplayOrder { exchange: labels[ask.exchange_id], price: ask.price, amount: ask.amount });
            i += 1;
        }
        let mut shown_bids: Vec<DisplayOrder<'a>> = Vec::new();
        let mut i: usize = 0;
        while i < bids.len()
            invariant
                i <= bids@.len(),
                labelled(bids@.map_values(|b: Bid| b.exchange_id), labels@.len()),
                shown_bids@.len() == i,
                forall|j: int|
                    0 <= j < i ==> #[trigger] shown_bids@[j] == shown(
                        labels@[bids@[j].exchange_id as int],
                        bids@[j].price,
                        bids@[j].amount,
                    ),
            decreases bids.len() - i,
        {
            let bid = bids[i];
            proof {
                assert(bids@.map_values(|b: Bid| b.exchange_id)[i as int] == bid.exchange_id);
            }
            shown_bids.push(DisplayOrder { exchange: labels[bid.exchange_id], price: bid.price, amount: bid.amount });
            i += 1;
        }
        Some(DisplayBook { spread, asks: shown_asks, bids: shown_bids })
    }
}

} // verus!
