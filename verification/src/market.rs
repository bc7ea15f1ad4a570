pub mod data;
pub mod decimal;
pub mod exchanges;

use crate::market::data::OrderBookFormat;
use vstd::prelude::*;

verus! {

#[derive(Clone, Debug)]
pub struct ExchangeConfig {
    /// Label that will be given to data coming from this source.
    pub label: String,
    pub url: String,
    /// Initialization messages to send upon establishing a connection.
    /// Also sent when connection is automatically re-established after a disconnect.
    pub inits: Vec<String>,
    /// Format in which the exchange sends order books.
    pub order_book_format: OrderBookFormat,
}

/// The ids given to the successive messages of a stream: `0, 1, ..., u64::MAX - 1`,
/// then `0` again, so that numbering never overflows.
pub struct BookIds {
    next: u64,
}

impl BookIds {
    #[verifier::type_invariant]
    spec fn inv(self) -> bool {
        self.next < u64::MAX
    }

    /// The id of the next message.
    pub closed spec fn next(&self) -> nat {
        self.next as nat
    }

    pub fn new() -> (r: Self)
        ensures
            r.next() == 0,
    {
        BookIds { next: 0 }
    }

    /// The id of the next message; the ids cycle through `0..u64::MAX`.
    pub fn next_id(&mut self) -> (r: u64)
        ensures
            r == old(self).next(),
            r < u64::MAX,
            final(self).next() == (old(self).next() + 1) % (u64::MAX as nat),
    {
        proof {
            use_type_invariant(&*self);
        }
        let id = self.next;
        if self.next + 1 == u64::MAX {
            self.next = 0;
        } else {
            self.next = self.next + 1;
        }
        id
    }
}

} // verus!
