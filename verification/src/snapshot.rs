//! Structural snapshots of the whole book.
//!
//! A snapshot carries every observable part of the book as plain values:
//! the symbol text, both ladders with their FIFO queues, the id index, the
//! recent trades and the buffer bound. `snapshot` and `from_snapshot` are
//! proved to preserve the book's view exactly, so a rebuilt book answers
//! every query as the original did and matches further orders identically.
//! Turning a snapshot into bytes (and back) is an unverified concern that
//! stays outside this crate's core.

use vstd::prelude::*;

use crate::model::BookV;
use crate::order::Order;
use crate::order_book::{
    entries_view, levels_view, orders_view, trades_view, IndexEntry, Level, LimitOrderBook, Trade,
};
use crate::types::Symbol;

verus! {

/// The full state of a book, as plain values.
#[derive(Debug)]
pub struct BookSnapshot {
    pub symbol: String,
    pub bids: Vec<Level>,
    pub asks: Vec<Level>,
    pub orders: Vec<IndexEntry>,
    pub recent_trades: Vec<Trade>,
    pub max_recent_trades: usize,
}

impl View for BookSnapshot {
    type V = BookV;

    open spec fn view(&self) -> BookV {
        BookV {
            symbol: self.symbol@,
            bids: levels_view(self.bids@),
            asks: levels_view(self.asks@),
            index: entries_view(self.orders@),
            recent_trades: trades_view(self.recent_trades@),
            max_recent_trades: self.max_recent_trades as int,
        }
    }
}

/// Copies a FIFO queue of orders, keeping every order's view.
fn clone_orders(v: &Vec<Order>) -> (r: Vec<Order>)
    ensures
        orders_view(r@) == orders_view(v@),
{
    let mut r: Vec<Order> = Vec::new();
    let mut i: usize = 0;
    while i < v.len()
        invariant
            0 <= i as int <= v@.len(),
            r@.len() == i as int,
            forall|j: int| 0 <= j < i as int ==> (#[trigger] r@[j])@ == v@[j]@,
        decreases v@.len() - i as int,
    {
        r.push(v[i].clone());
        i = i + 1;
    }
    proof {
        assert(orders_view(r@) =~= orders_view(v@));
    }
    r
}

impl Clone for Level {
    /// Copies a price level, keeping its price and every order's view.
    fn clone(&self) -> (r: Self)
        ensures
            r@ == self@,
    {
        let r = Level { price: self.price, orders: clone_orders(&self.orders) };
        proof {
            assert(r@ =~= self@);
        }
        r
    }
}

/// Copies a ladder, keeping its view.
fn clone_levels(v: &Vec<Level>) -> (r: Vec<Level>)
    ensures
        levels_view(r@) == levels_view(v@),
{
    let mut r: Vec<Level> = Vec::new();
    let mut i: usize = 0;
    while i < v.len()
        invariant
            0 <= i as int <= v@.len(),
            r@.len() == i as int,
            forall|j: int| 0 <= j < i as int ==> (#[trigger] r@[j])@ == v@[j]@,
        decreases v@.len() - i as int,
    {
        r.push(v[i].clone());
        i = i + 1;
    }
    proof {
        assert(levels_view(r@) =~= levels_view(v@));
    }
    r
}

/// Copies the id index.
fn clone_entries(v: &Vec<IndexEntry>) -> (r: Vec<IndexEntry>)
    ensures
        entries_view(r@) == entries_view(v@),
{
    let mut r: Vec<IndexEntry> = Vec::new();
    let mut i: usize = 0;
    while i < v.len()
        invariant
            0 <= i as int <= v@.len(),
            r@.len() == i as int,
            forall|j: int| 0 <= j < i as int ==> (#[trigger] r@[j])@ == v@[j]@,
        decreases v@.len() - i as int,
    {
        r.push(v[i]);
        i = i + 1;
    }
    proof {
        assert(entries_view(r@) =~= entries_view(v@));
    }
    r
}

/// Copies a trade list.
fn clone_trades(v: &Vec<Trade>) -> (r: Vec<Trade>)
    ensures
        trades_view(r@) == trades_view(v@),
{
    let mut r: Vec<Trade> = Vec::new();
    let mut i: usize = 0;
    while i < v.len()
        invariant
            0 <= i as int <= v@.len(),
            r@.len() == i as int,
            forall|j: int| 0 <= j < i as int ==> (#[trigger] r@[j])@ == v@[j]@,
        decreases v@.len() - i as int,
    {
        r.push(v[i]);
        i = i + 1;
    }
    proof {
        assert(trades_view(r@) =~= trades_view(v@));
    }
    r
}

impl LimitOrderBook {
    /// Captures the book's full state; the snapshot's view is exactly the
    /// book's view.
    pub fn snapshot(&self) -> (r: BookSnapshot)
        ensures
            r@ == self@,
    {
        let r = BookSnapshot {
            symbol: self.symbol.0.clone(),
            bids: clone_levels(&self.bids),
            asks: clone_levels(&self.asks),
            orders: clone_entries(&self.orders),
            recent_trades: clone_trades(&self.recent_trades),
            max_recent_trades: self.max_recent_trades,
        };
        proof {
            assert(r@ =~= self@);
        }
        r
    }

    /// Rebuilds a book from a snapshot; the book's view is exactly the
    /// snapshot's view, so a snapshot of a well-formed book rebuilds a
    /// well-formed book that answers every query as the original did.
    pub fn from_snapshot(s: BookSnapshot) -> (r: LimitOrderBook)
        ensures
            r@ == s@,
    {
        let r = LimitOrderBook {
            symbol: Symbol(s.symbol),
            bids: s.bids,
            asks: s.asks,
            orders: s.orders,
            recent_trades: s.recent_trades,
            max_recent_trades: s.max_recent_trades,
        };
        proof {
            assert(r@ =~= s@);
        }
        r
    }
}

} // verus!
