//! The limit order book: dual sorted ladders of FIFO price levels, an id
//! index for cancellation routing, and a bounded recent-trade buffer.
//!
//! Both ladders are kept sorted by ascending price, so the best bid is the
//! last bid level and the best ask the first ask level. Every operation is
//! specified against the model in [`crate::model`] and proved to preserve
//! the book's well-formedness.

use vstd::prelude::*;

use crate::error::MatchingEngineError;
use crate::model::{
    bound_trades, idx_pos, idx_remove, ladder_wf, lemma_level_le_total, lemma_level_rem_pos,
    lemma_orders_rem_take, level_wf, lvl_pos, opp_measure1, opp_measure2, ord_pos, orders_rem,
    remove_order, spec_add, spec_cancel, spec_get, spec_insert, spec_locate, spec_match, stop_ok,
    update_order, BookV, EntryV, LevelV, MatchResult, TradeV,
};
use crate::order::{Order, OrderSide, OrderV};
use crate::price::Price;
use crate::quantity::Quantity;
use crate::types::{upper_of, OrderId, Symbol};

verus! {

/// One aggregated price level of the market-depth view.
#[derive(Debug, Clone, Copy, PartialEq)]
pub struct MarketLevel {
    pub price: Price,
    pub quantity: Quantity,
    pub order_count: usize,
}

/// Aggregated depth: the best bid levels (highest first), the best ask
/// levels (lowest first), and the spread in minor units.
#[derive(Debug, Clone, PartialEq)]
pub struct MarketDepth {
    pub bids: Vec<MarketLevel>,
    pub asks: Vec<MarketLevel>,
    pub spread: Option<i64>,
}

/// An immutable execution record.
#[derive(Debug, Clone, Copy, PartialEq)]
pub struct Trade {
    pub buy_order_id: OrderId,
    pub sell_order_id: OrderId,
    pub price: Price,
    pub quantity: Quantity,
    /// When the trade executed, in milliseconds since the Unix epoch.
    pub timestamp: i64,
}

impl View for Trade {
    type V = TradeV;

    open spec fn view(&self) -> TradeV {
        TradeV {
            buy_order_id: self.buy_order_id.0,
            sell_order_id: self.sell_order_id.0,
            price: self.price.cents as int,
            quantity: self.quantity.0 as int,
            timestamp: self.timestamp as int,
        }
    }
}

/// One price level: a price and the FIFO queue of resting orders at it.
#[derive(Debug)]
pub struct Level {
    pub price: Price,
    pub orders: Vec<Order>,
}

impl View for Level {
    type V = LevelV;

    open spec fn view(&self) -> LevelV {
        LevelV { price: self.price.cents as int, orders: self.orders@.map_values(|o: Order| o@) }
    }
}

/// One id-index entry: where the order with this id rests.
#[derive(Debug, Clone, Copy)]
pub struct IndexEntry {
    pub id: OrderId,
    pub side: OrderSide,
    pub price: Price,
}

impl View for IndexEntry {
    type V = EntryV;

    open spec fn view(&self) -> EntryV {
        EntryV { id: self.id.0, side: self.side, price: self.price.cents as int }
    }
}

/// The view of a ladder.
pub open spec fn levels_view(v: Seq<Level>) -> Seq<LevelV> {
    v.map_values(|l: Level| l@)
}

/// The view of a FIFO queue of orders.
pub open spec fn orders_view(v: Seq<Order>) -> Seq<OrderV> {
    v.map_values(|o: Order| o@)
}

/// The view of the id index.
pub open spec fn entries_view(v: Seq<IndexEntry>) -> Seq<EntryV> {
    v.map_values(|e: IndexEntry| e@)
}

/// The view of a trade list.
pub open spec fn trades_view(v: Seq<Trade>) -> Seq<TradeV> {
    v.map_values(|t: Trade| t@)
}

/// A limit order book for one trading symbol.
#[derive(Debug)]
pub struct LimitOrderBook {
    /// Trading symbol for this order book.
    pub symbol: Symbol,
    /// Buy levels, sorted by ascending price; the best bid is the last.
    pub bids: Vec<Level>,
    /// Sell levels, sorted by ascending price; the best ask is the first.
    pub asks: Vec<Level>,
    /// Routing entries for every resting order, keyed by order id.
    pub orders: Vec<IndexEntry>,
    /// The most recent trades, oldest first.
    pub recent_trades: Vec<Trade>,
    /// How many recent trades are kept.
    pub max_recent_trades: usize,
}

impl View for LimitOrderBook {
    type V = BookV;

    open spec fn view(&self) -> BookV {
        BookV {
            symbol: self.symbol@,
            bids: levels_view(self.bids@),
            asks: levels_view(self.asks@),
            index: self.orders@.map_values(|e: IndexEntry| e@),
            recent_trades: trades_view(self.recent_trades@),
            max_recent_trades: self.max_recent_trades as int,
        }
    }
}

impl LimitOrderBook {
    /// Creates a new empty order book for a symbol.
    pub fn new(symbol: String) -> (r: Result<LimitOrderBook, MatchingEngineError>)
        ensures
            symbol@.len() == 0 || symbol@.len() > 10 ==> (r matches Err(e) && e is InvalidPrice),
            1 <= symbol@.len() <= 10 ==> (r matches Ok(b) && b@ == (BookV {
                symbol: upper_of(symbol@),
                bids: Seq::empty(),
                asks: Seq::empty(),
                index: Seq::empty(),
                recent_trades: Seq::empty(),
                max_recent_trades: 1000,
            }) && b@.wf()),
    {
        let sym = match Symbol::new(symbol) {
            Ok(sym) => sym,
            Err(e) => {
                return Err(e);
            },
        };
        let book = LimitOrderBook {
            symbol: sym,
            bids: Vec::new(),
            asks: Vec::new(),
            orders: Vec::new(),
            recent_trades: Vec::new(),
            max_recent_trades: 1000,
        };
        proof {
            assert(book@.bids =~= Seq::<LevelV>::empty());
            assert(book@.asks =~= Seq::<LevelV>::empty());
            assert(book@.index =~= Seq::<EntryV>::empty());
            assert(book@.recent_trades =~= Seq::<TradeV>::empty());
            assert(book@.total_rem() == 0);
            assert(book@.wf());
        }
        Ok(book)
    }

    /// The trading symbol of this book.
    pub fn symbol(&self) -> (r: &Symbol)
        ensures
            r@ == self@.symbol,
    {
        &self.symbol
    }

    /// The best (highest) bid price, when a bid rests.
    pub fn best_bid(&self) -> (r: Option<Price>)
        ensures
            r is Some <==> self@.best_bid() is Some,
            r matches Some(p) ==> Some(p.cents as int) == self@.best_bid(),
    {
        if self.bids.len() == 0 {
            None
        } else {
            let p = self.bids[self.bids.len() - 1].price;
            proof {
                assert(self@.bids[self.bids@.len() - 1] == self.bids@[self.bids@.len() - 1]@);
            }
            Some(p)
        }
    }

    /// The best (lowest) ask price, when an ask rests.
    pub fn best_ask(&self) -> (r: Option<Price>)
        ensures
            r is Some <==> self@.best_ask() is Some,
            r matches Some(p) ==> Some(p.cents as int) == self@.best_ask(),
    {
        if self.asks.len() == 0 {
            None
        } else {
            let p = self.asks[0].price;
            proof {
                assert(self@.asks[0] == self.asks@[0]@);
            }
            Some(p)
        }
    }

    /// The bid-ask spread in minor units, when both sides rest. In a
    /// well-formed book it is never negative.
    pub fn spread(&self) -> (r: Option<i64>)
        requires
            self@.wf(),
        ensures
            r is Some <==> self@.spread() is Some,
            r matches Some(s) ==> Some(s as int) == self@.spread() && s >= 0,
    {
        if self.bids.len() == 0 || self.asks.len() == 0 {
            None
        } else {
            let bid = self.bids[self.bids.len() - 1].price.cents;
            let ask = self.asks[0].price.cents;
            proof {
                assert(self@.bids[self.bids@.len() - 1] == self.bids@[self.bids@.len() - 1]@);
                assert(self@.asks[0] == self.asks@[0]@);
                assert(level_wf(self@.bids[self.bids@.len() - 1], OrderSide::Buy));
                assert(level_wf(self@.asks[0], OrderSide::Sell));
            }
            Some(ask - bid)
        }
    }

    /// True when no order rests on either side.
    pub fn is_empty(&self) -> (r: bool)
        ensures
            r == (self@.bids.len() == 0 && self@.asks.len() == 0),
    {
        self.bids.len() == 0 && self.asks.len() == 0
    }

    /// How many orders rest in the book.
    pub fn order_count(&self) -> (r: usize)
        ensures
            r == self@.index.len(),
    {
        self.orders.len()
    }

    /// The recent trades, oldest first.
    pub fn recent_trades(&self) -> (r: &[Trade])
        ensures
            trades_view(r@) == self@.recent_trades,
    {
        self.recent_trades.as_slice()
    }

    /// The total quantity resting at the best bid, when a bid rests.
    pub fn best_bid_quantity(&self) -> (r: Option<Quantity>)
        requires
            self@.wf(),
        ensures
            r is Some <==> self@.bids.len() > 0,
            r matches Some(q) ==> q.0 as int == orders_rem(self@.bids.last().orders) && q.0 >= 1,
    {
        if self.bids.len() == 0 {
            None
        } else {
            let k = self.bids.len() - 1;
            proof {
                lemma_level_le_total(self@, OrderSide::Buy, k as int);
                lemma_level_rem_pos(self@.bids[k as int], OrderSide::Buy);
                assert(self@.bids[k as int] == self.bids@[k as int]@);
            }
            Some(Quantity::new_allow_zero(level_total(&self.bids[k])))
        }
    }

    /// The total quantity resting at the best ask, when an ask rests.
    pub fn best_ask_quantity(&self) -> (r: Option<Quantity>)
        requires
            self@.wf(),
        ensures
            r is Some <==> self@.asks.len() > 0,
            r matches Some(q) ==> q.0 as int == orders_rem(self@.asks[0].orders) && q.0 >= 1,
    {
        if self.asks.len() == 0 {
            None
        } else {
            proof {
                lemma_level_le_total(self@, OrderSide::Sell, 0);
                lemma_level_rem_pos(self@.asks[0], OrderSide::Sell);
                assert(self@.asks[0] == self.asks@[0]@);
            }
            Some(Quantity::new_allow_zero(level_total(&self.asks[0])))
        }
    }

    /// Aggregated market depth, up to `levels` price levels on each side:
    /// bids from the highest price down, asks from the lowest price up, each
    /// level carrying its total resting quantity and order count, with the
    /// spread attached. Bid prices are strictly decreasing and ask prices
    /// strictly increasing.
    pub fn market_depth(&self, levels: usize) -> (r: MarketDepth)
        requires
            self@.wf(),
        ensures
            r.bids@.len() == if levels as int <= self@.bids.len() {
                levels as int
            } else {
                self@.bids.len() as int
            },
            r.asks@.len() == if levels as int <= self@.asks.len() {
                levels as int
            } else {
                self@.asks.len() as int
            },
            forall|i: int|
                0 <= i < r.bids@.len() ==> {
                    let lvl = self@.bids[self@.bids.len() - 1 - i];
                    &&& (#[trigger] r.bids@[i]).price.cents as int == lvl.price
                    &&& r.bids@[i].quantity.0 as int == orders_rem(lvl.orders)
                    &&& r.bids@[i].quantity.0 >= 1
                    &&& r.bids@[i].order_count as int == lvl.orders.len()
                },
            forall|i: int|
                0 <= i < r.asks@.len() ==> {
                    let lvl = self@.asks[i];
                    &&& (#[trigger] r.asks@[i]).price.cents as int == lvl.price
                    &&& r.asks@[i].quantity.0 as int == orders_rem(lvl.orders)
                    &&& r.asks@[i].quantity.0 >= 1
                    &&& r.asks@[i].order_count as int == lvl.orders.len()
                },
            forall|i: int, j: int|
                #![trigger r.bids@[i].price, r.bids@[j].price]
                0 <= i < j < r.bids@.len() ==> r.bids@[i].price.cents > r.bids@[j].price.cents,
            forall|i: int, j: int|
                #![trigger r.asks@[i].price, r.asks@[j].price]
                0 <= i < j < r.asks@.len() ==> r.asks@[i].price.cents < r.asks@[j].price.cents,
            r.spread is Some <==> self@.spread() is Some,
            r.spread matches Some(s) ==> Some(s as int) == self@.spread(),
    {
        let nb: usize = if levels <= self.bids.len() {
            levels
        } else {
            self.bids.len()
        };
        let mut dbids: Vec<MarketLevel> = Vec::new();
        let mut i: usize = 0;
        while i < nb
            invariant
                self@.wf(),
                0 <= i <= nb,
                nb <= self.bids@.len(),
                dbids@.len() == i as int,
                forall|j: int|
                    0 <= j < i as int ==> {
                        let lvl = self@.bids[self@.bids.len() - 1 - j];
                        &&& (#[trigger] dbids@[j]).price.cents as int == lvl.price
                        &&& dbids@[j].quantity.0 as int == orders_rem(lvl.orders)
                        &&& dbids@[j].quantity.0 >= 1
                        &&& dbids@[j].order_count as int == lvl.orders.len()
                    },
            decreases nb - i,
        {
            let k = self.bids.len() - 1 - i;
            proof {
                lemma_level_le_total(self@, OrderSide::Buy, k as int);
                lemma_level_rem_pos(self@.bids[k as int], OrderSide::Buy);
                assert(self@.bids[k as int] == self.bids@[k as int]@);
            }
            let q = level_total(&self.bids[k]);
            dbids.push(
                MarketLevel {
                    price: self.bids[k].price,
                    quantity: Quantity::new_allow_zero(q),
                    order_count: self.bids[k].orders.len(),
                },
            );
            i = i + 1;
        }
        let na: usize = if levels <= self.asks.len() {
            levels
        } else {
            self.asks.len()
        };
        let mut dasks: Vec<MarketLevel> = Vec::new();
        let mut j: usize = 0;
        while j < na
            invariant
                self@.wf(),
                0 <= j <= na,
                na <= self.asks@.len(),
                dasks@.len() == j as int,
                forall|i2: int|
                    0 <= i2 < j as int ==> {
                        let lvl = self@.asks[i2];
                        &&& (#[trigger] dasks@[i2]).price.cents as int == lvl.price
                        &&& dasks@[i2].quantity.0 as int == orders_rem(lvl.orders)
                        &&& dasks@[i2].quantity.0 >= 1
                        &&& dasks@[i2].order_count as int == lvl.orders.len()
                    },
            decreases na - j,
        {
            proof {
                lemma_level_le_total(self@, OrderSide::Sell, j as int);
                lemma_level_rem_pos(self@.asks[j as int], OrderSide::Sell);
                assert(self@.asks[j as int] == self.asks@[j as int]@);
            }
            let q = level_total(&self.asks[j]);
            dasks.push(
                MarketLevel {
                    price: self.asks[j].price,
                    quantity: Quantity::new_allow_zero(q),
                    order_count: self.asks[j].orders.len(),
                },
            );
            j = j + 1;
        }
        let sp = self.spread();
        proof {
            assert forall|i1: int, j1: int|
                #![trigger dbids@[i1].price, dbids@[j1].price]
                0 <= i1 < j1 < dbids@.len() implies dbids@[i1].price.cents
                > dbids@[j1].price.cents by {
                let k1 = self@.bids.len() - 1 - j1;
                let k2 = self@.bids.len() - 1 - i1;
                assert(self@.bids[k1].price < self@.bids[k2].price);
            }
            assert forall|i1: int, j1: int|
                #![trigger dasks@[i1].price, dasks@[j1].price]
                0 <= i1 < j1 < dasks@.len() implies dasks@[i1].price.cents
                < dasks@[j1].price.cents by {
                assert(self@.asks[i1].price < self@.asks[j1].price);
            }
        }
        MarketDepth { bids: dbids, asks: dasks, spread: sp }
    }
}

/// Sums the remaining quantity of every order at one level.
fn level_total(l: &Level) -> (r: u64)
    requires
        0 <= orders_rem(l@.orders) <= u64::MAX,
    ensures
        r as int == orders_rem(l@.orders),
{
    proof {
        assert forall|j: int| 0 <= j < l@.orders.len() implies (#[trigger] l@.orders[j]).remaining
            >= 0 by {
            assert(l@.orders[j] == l.orders@[j]@);
        }
    }
    let mut sum: u64 = 0;
    let mut i: usize = 0;
    while i < l.orders.len()
        invariant
            0 <= i as int <= l@.orders.len(),
            l@.orders.len() == l.orders@.len(),
            sum as int == orders_rem(l@.orders.take(i as int)),
            orders_rem(l@.orders) <= u64::MAX,
            forall|j: int| 0 <= j < l@.orders.len() ==> (#[trigger] l@.orders[j]).remaining >= 0,
        decreases l.orders@.len() - i as int,
    {
        proof {
            lemma_orders_rem_take(l@.orders, i as int);
            lemma_orders_rem_take(l@.orders, i as int + 1);
            assert(l@.orders[i as int] == l.orders@[i as int]@);
        }
        sum = sum + l.orders[i].remaining_quantity.0;
        i = i + 1;
    }
    proof {
        assert(l@.orders.take(l@.orders.len() as int) =~= l@.orders);
    }
    sum
}


// ---------------------------------------------------------------------------
// Linear scans, proved to compute the model's position functions
// ---------------------------------------------------------------------------
/// The position of the first index entry carrying `id`.
fn find_entry(idx: &Vec<IndexEntry>, id: u128) -> (r: usize)
    ensures
        r as int == idx_pos(entries_view(idx@), id),
{
    let ghost iv = entries_view(idx@);
    let mut i: usize = 0;
    while i < idx.len() && idx[i].id.0 != id
        invariant
            0 <= i as int <= iv.len(),
            iv == entries_view(idx@),
            iv.len() == idx@.len(),
            forall|j: int| 0 <= j < i as int ==> (#[trigger] iv[j]).id != id,
        decreases idx@.len() - i as int,
    {
        proof {
            assert(iv[i as int] == idx@[i as int]@);
        }
        i = i + 1;
    }
    proof {
        crate::model::lemma_idx_pos(iv, id);
        let pos = idx_pos(iv, id);
        if (i as int) < iv.len() {
            assert(iv[i as int] == idx@[i as int]@);
            if pos < i as int {
                assert(iv[pos].id == id);
                assert(false);
            }
            if pos > i as int {
                assert(iv[i as int].id != id);
                assert(false);
            }
        } else {
            if pos < iv.len() {
                assert(iv[pos].id == id);
                assert(false);
            }
        }
    }
    i
}

/// The position of the first level at or above `price_cents`.
fn find_pos(ls: &Vec<Level>, price_cents: i64) -> (r: usize)
    ensures
        r as int == lvl_pos(levels_view(ls@), price_cents as int),
{
    let ghost lv = levels_view(ls@);
    let mut i: usize = 0;
    while i < ls.len() && ls[i].price.cents < price_cents
        invariant
            0 <= i as int <= lv.len(),
            lv == levels_view(ls@),
            lv.len() == ls@.len(),
            forall|j: int| 0 <= j < i as int ==> (#[trigger] lv[j]).price < price_cents as int,
        decreases ls@.len() - i as int,
    {
        proof {
            assert(lv[i as int] == ls@[i as int]@);
        }
        i = i + 1;
    }
    proof {
        crate::model::lemma_lvl_pos(lv, price_cents as int);
        let pos = lvl_pos(lv, price_cents as int);
        if (i as int) < lv.len() {
            assert(lv[i as int] == ls@[i as int]@);
            if pos < i as int {
                assert(lv[pos].price >= price_cents as int);
                assert(false);
            }
            if pos > i as int {
                assert(lv[i as int].price < price_cents as int);
                assert(false);
            }
        } else {
            if pos < lv.len() {
                assert(lv[pos].price >= price_cents as int);
                assert(false);
            }
        }
    }
    i
}

/// The position of the first order carrying `id` in a level's FIFO.
fn find_order(orders: &Vec<Order>, id: u128) -> (r: usize)
    ensures
        r as int == ord_pos(orders_view(orders@), id),
{
    let ghost ov = orders_view(orders@);
    let mut i: usize = 0;
    while i < orders.len() && orders[i].id.0 != id
        invariant
            0 <= i as int <= ov.len(),
            ov == orders_view(orders@),
            ov.len() == orders@.len(),
            forall|j: int| 0 <= j < i as int ==> (#[trigger] ov[j]).id != id,
        decreases orders@.len() - i as int,
    {
        proof {
            assert(ov[i as int] == orders@[i as int]@);
        }
        i = i + 1;
    }
    proof {
        crate::model::lemma_ord_pos(ov, id);
        let pos = ord_pos(ov, id);
        if (i as int) < ov.len() {
            assert(ov[i as int] == orders@[i as int]@);
            if pos < i as int {
                assert(ov[pos].id == id);
                assert(false);
            }
            if pos > i as int {
                assert(ov[i as int].id != id);
                assert(false);
            }
        } else {
            if pos < ov.len() {
                assert(ov[pos].id == id);
                assert(false);
            }
        }
    }
    i
}

/// Removes the entry carrying `id` from the index, when one is there.
fn index_remove_id(idx: &mut Vec<IndexEntry>, id: u128)
    ensures
        entries_view(final(idx)@) == idx_remove(entries_view(old(idx)@), id),
{
    let i = find_entry(idx, id);
    if i < idx.len() {
        idx.remove(i);
        proof {
            assert(entries_view(idx@) =~= entries_view(old(idx)@).remove(i as int));
        }
    }
}

/// Rests an order on its ladder: appended to its price level's FIFO, or in
/// a fresh level at the sorted position.
fn ladder_insert(ls: &mut Vec<Level>, order: Order)
    ensures
        levels_view(final(ls)@) == ({
            let lv = levels_view(old(ls)@);
            let k = lvl_pos(lv, order@.price);
            if k < lv.len() && lv[k].price == order@.price {
                lv.update(k, LevelV { price: order@.price, orders: lv[k].orders.push(order@) })
            } else {
                lv.insert(k, LevelV { price: order@.price, orders: seq![order@] })
            }
        }),
{
    let ghost lv = levels_view(ls@);
    let k = find_pos(ls, order.price.cents);
    proof {
        crate::model::lemma_lvl_pos(lv, order@.price);
    }
    if k < ls.len() && ls[k].price.cents == order.price.cents {
        let ghost target = lv.update(
            k as int,
            LevelV { price: order@.price, orders: lv[k as int].orders.push(order@) },
        );
        let mut lvl = ls.remove(k);
        proof {
            assert(lvl@ == lv[k as int]);
        }
        lvl.orders.push(order);
        proof {
            assert(lvl@.orders =~= lv[k as int].orders.push(order@));
        }
        ls.insert(k, lvl);
        proof {
            assert(lvl@ =~= target[k as int]);
            assert forall|j: int| 0 <= j < ls@.len() implies levels_view(ls@)[j] == target[j] by {
                if j < k as int {
                    assert(ls@[j] == old(ls)@[j]);
                } else if j > k as int {
                    assert(ls@[j] == old(ls)@[j]);
                }
            }
            assert(levels_view(ls@) =~= target);
        }
    } else {
        let price = order.price;
        let mut orders_vec: Vec<Order> = Vec::new();
        orders_vec.push(order);
        let lvl = Level { price, orders: orders_vec };
        proof {
            assert(lvl@.orders =~= seq![order@]);
            assert(lvl@ =~= (LevelV { price: order@.price, orders: seq![order@] }));
        }
        ls.insert(k, lvl);
        proof {
            let target = lv.insert(
                k as int,
                LevelV { price: order@.price, orders: seq![order@] },
            );
            assert forall|j: int| 0 <= j < ls@.len() implies levels_view(ls@)[j] == target[j] by {
                if j < k as int {
                    assert(ls@[j] == old(ls)@[j]);
                } else if j > k as int {
                    assert(ls@[j] == old(ls)@[j - 1]);
                }
            }
            assert(levels_view(ls@) =~= target);
        }
    }
}

impl LimitOrderBook {
    /// Rests a residual order in its side's ladder and records its routing
    /// entry.
    fn insert_order(&mut self, order: Order)
        ensures
            final(self)@ == spec_insert(old(self)@, order@),
    {
        self.orders.push(IndexEntry { id: order.id, side: order.side, price: order.price });
        proof {
            assert(entries_view(self.orders@) =~= entries_view(old(self).orders@).push(
                EntryV { id: order@.id, side: order@.side, price: order@.price },
            ));
        }
        match order.side {
            OrderSide::Buy => ladder_insert(&mut self.bids, order),
            OrderSide::Sell => ladder_insert(&mut self.asks, order),
        }
        proof {
            assert(self@ =~= spec_insert(old(self)@, order@));
        }
    }

    /// One run of the match loop: executes the incoming order against the
    /// best opposing levels until it is filled or no longer crosses,
    /// appending the trades, oldest first.
    #[verifier::rlimit(100)]
    #[verifier::spinoff_prover]
    fn match_rec(&mut self, incoming: &mut Order, now: i64, trades: &mut Vec<Trade>)
        requires
            old(self)@.wf(),
            old(incoming)@.wf(),
            old(incoming)@.is_active(),
        ensures
            ({
                let mr = spec_match(old(self)@, old(incoming)@, now as int);
                &&& final(self)@ == mr.book
                &&& final(incoming)@ == mr.incoming
                &&& final(incoming).user_id == old(incoming).user_id
                &&& trades_view(final(trades)@) == trades_view(old(trades)@) + mr.trades
            }),
        decreases opp_measure1(self@, incoming@.side), opp_measure2(self@, incoming@.side),
    {
        let ghost b0 = self@;
        let ghost o0 = incoming@;
        let ghost mr = spec_match(b0, o0, now as int);
        let ghost oppside = o0.side.opposite();
        let ghost opp = b0.levels_of(oppside);
        let side = incoming.side;
        let opp_len = match side {
            OrderSide::Buy => self.asks.len(),
            OrderSide::Sell => self.bids.len(),
        };
        if opp_len == 0 {
            proof {
                assert(mr.trades =~= Seq::<TradeV>::empty());
                assert(trades_view(trades@) =~= trades_view(trades@) + mr.trades);
            }
            return;
        }
        let k = match side {
            OrderSide::Buy => 0usize,
            OrderSide::Sell => opp_len - 1,
        };
        proof {
            if o0.side is Buy {
                assert(opp[k as int] == self.asks@[k as int]@);
                assert(ladder_wf(b0.asks, OrderSide::Sell));
            } else {
                assert(opp[k as int] == self.bids@[k as int]@);
                assert(ladder_wf(b0.bids, OrderSide::Buy));
            }
            assert(level_wf(opp[k as int], oppside));
        }
        let best_cents = match side {
            OrderSide::Buy => self.asks[k].price.cents,
            OrderSide::Sell => self.bids[k].price.cents,
        };
        let crossing = match side {
            OrderSide::Buy => incoming.price.cents >= best_cents,
            OrderSide::Sell => incoming.price.cents <= best_cents,
        };
        if !crossing {
            proof {
                assert(mr.trades =~= Seq::<TradeV>::empty());
                assert(trades_view(trades@) =~= trades_view(trades@) + mr.trades);
            }
            return;
        }
        proof {
            assert(opp[k as int].orders[0].wf());
            assert(opp[k as int].orders[0].is_active());
            assert(o0.remaining >= 1);
        }
        let mut lvl = match side {
            OrderSide::Buy => self.asks.remove(k),
            OrderSide::Sell => self.bids.remove(k),
        };
        proof {
            assert(lvl@ == opp[k as int]);
            assert(lvl.orders@.len() == lvl@.orders.len());
        }
        let ghost lvl0 = lvl@;
        let mut h = lvl.orders.remove(0);
        proof {
            assert(h@ == lvl0.orders[0]);
            assert(orders_view(lvl.orders@) =~= lvl0.orders.remove(0));
        }
        let x = if incoming.remaining_quantity.0 <= h.remaining_quantity.0 {
            incoming.remaining_quantity.0
        } else {
            h.remaining_quantity.0
        };
        let trade = Trade {
            buy_order_id: match side {
                OrderSide::Buy => incoming.id,
                OrderSide::Sell => h.id,
            },
            sell_order_id: match side {
                OrderSide::Buy => h.id,
                OrderSide::Sell => incoming.id,
            },
            price: h.price,
            quantity: Quantity::new_allow_zero(x),
            timestamp: now,
        };
        let ghost tspec = TradeV {
            buy_order_id: if o0.side is Buy {
                o0.id
            } else {
                lvl0.orders[0].id
            },
            sell_order_id: if o0.side is Buy {
                lvl0.orders[0].id
            } else {
                o0.id
            },
            price: lvl0.orders[0].price,
            quantity: x as int,
            timestamp: now as int,
        };
        proof {
            assert(trade@ == tspec);
        }
        incoming.fill_units(x, now);
        h.fill_units(x, now);
        trades.push(trade);
        proof {
            assert(trades_view(trades@) =~= trades_view(old(trades)@).push(tspec));
            assert(trades_view(old(trades)@).push(tspec) =~= trades_view(old(trades)@) + seq![
                tspec,
            ]);
        }
        let hid = h.id;
        if h.remaining_quantity.0 > 0 {
            // Partial fill of the head: it keeps its place and its priority.
            lvl.orders.insert(0, h);
            proof {
                assert(orders_view(lvl.orders@) =~= lvl0.orders.update(
                    0,
                    lvl0.orders[0].filled(x as int, now as int),
                ));
            }
            match side {
                OrderSide::Buy => self.asks.insert(k, lvl),
                OrderSide::Sell => self.bids.insert(k, lvl),
            }
            proof {
                let b2 = update_order(
                    b0,
                    oppside,
                    k as int,
                    0,
                    lvl0.orders[0].filled(x as int, now as int),
                );
                if o0.side is Buy {
                    assert(levels_view(self.asks@) =~= b2.asks);
                    assert(levels_view(self.bids@) =~= b2.bids);
                } else {
                    assert(levels_view(self.bids@) =~= b2.bids);
                    assert(levels_view(self.asks@) =~= b2.asks);
                }
                assert(self@ =~= b2);
                assert(mr == (MatchResult {
                    book: b2,
                    incoming: o0.filled(x as int, now as int),
                    trades: seq![tspec],
                }));
            }
            return;
        }
        index_remove_id(&mut self.orders, hid.0);
        if lvl.orders.len() > 0 {
            match side {
                OrderSide::Buy => self.asks.insert(k, lvl),
                OrderSide::Sell => self.bids.insert(k, lvl),
            }
        }
        proof {
            let b2 = remove_order(b0, oppside, k as int, 0);
            assert(idx_pos(b0.index, lvl0.orders[0].id) == idx_pos(
                entries_view(old(self).orders@),
                hid.0,
            ));
            if lvl0.orders.len() == 1 {
                assert(lvl0.orders.remove(0) =~= Seq::<OrderV>::empty());
                assert(lvl.orders@.len() == 0);
                if o0.side is Buy {
                    assert(levels_view(self.asks@) =~= opp.remove(k as int));
                } else {
                    assert(levels_view(self.bids@) =~= opp.remove(k as int));
                }
            } else {
                if o0.side is Buy {
                    assert(levels_view(self.asks@) =~= opp.update(
                        k as int,
                        LevelV { price: lvl0.price, orders: lvl0.orders.remove(0) },
                    ));
                } else {
                    assert(levels_view(self.bids@) =~= opp.update(
                        k as int,
                        LevelV { price: lvl0.price, orders: lvl0.orders.remove(0) },
                    ));
                }
            }
            assert(self@ =~= b2);
            crate::model::lemma_remove_order(b0, oppside, k as int, 0);
        }
        if incoming.remaining_quantity.0 == 0 {
            proof {
                assert(mr == (MatchResult {
                    book: remove_order(b0, oppside, k as int, 0),
                    incoming: o0.filled(x as int, now as int),
                    trades: seq![tspec],
                }));
            }
            return;
        }
        proof {
            assert(self@.wf());
            assert(incoming@ == o0.filled(x as int, now as int));
            assert(incoming@.wf());
            assert(incoming@.is_active());
            assert(incoming@.side == o0.side);
        }
        let ghost trades_mid = trades@;
        self.match_rec(incoming, now, trades);
        proof {
            let b2 = remove_order(b0, oppside, k as int, 0);
            let o2 = o0.filled(x as int, now as int);
            let mr2 = spec_match(b2, o2, now as int);
            assert(mr == (MatchResult {
                book: mr2.book,
                incoming: mr2.incoming,
                trades: seq![tspec] + mr2.trades,
            }));
            assert(trades_view(trades_mid) == trades_view(old(trades)@) + seq![tspec]);
            assert(trades_view(trades@) == trades_view(trades_mid) + mr2.trades);
            assert((trades_view(old(trades)@) + seq![tspec]) + mr2.trades =~= trades_view(
                old(trades)@,
            ) + (seq![tspec] + mr2.trades));
        }
    }

    /// Appends executed trades to the bounded recent-trade buffer, dropping
    /// the oldest entries once the bound is exceeded.
    fn push_recent(&mut self, ts: &Vec<Trade>)
        ensures
            final(self)@ == (BookV {
                recent_trades: bound_trades(
                    old(self)@.recent_trades,
                    trades_view(ts@),
                    old(self)@.max_recent_trades,
                ),
                ..old(self)@
            }),
    {
        let mut i: usize = 0;
        while i < ts.len()
            invariant
                0 <= i as int <= ts@.len(),
                self.recent_trades@ =~= old(self).recent_trades@ + ts@.take(i as int),
                self.symbol == old(self).symbol,
                self.bids == old(self).bids,
                self.asks == old(self).asks,
                self.orders == old(self).orders,
                self.max_recent_trades == old(self).max_recent_trades,
            decreases ts@.len() - i as int,
        {
            self.recent_trades.push(ts[i]);
            proof {
                assert(self.recent_trades@ =~= old(self).recent_trades@ + ts@.take(i as int + 1));
            }
            i = i + 1;
        }
        proof {
            assert(ts@.take(ts@.len() as int) =~= ts@);
            assert(self.recent_trades@ =~= old(self).recent_trades@ + ts@);
        }
        if self.recent_trades.len() > self.max_recent_trades {
            let excess = self.recent_trades.len() - self.max_recent_trades;
            let ghost all = old(self).recent_trades@ + ts@;
            let tail = self.recent_trades.split_off(excess);
            self.recent_trades = tail;
            proof {
                assert(self.recent_trades@ =~= all.subrange(
                    all.len() - self.max_recent_trades as int,
                    all.len() as int,
                ));
            }
        }
        proof {
            let all = trades_view(old(self).recent_trades@ + ts@);
            assert(all =~= old(self)@.recent_trades + trades_view(ts@));
            if all.len() > self.max_recent_trades as int {
                assert(trades_view(self.recent_trades@) =~= all.subrange(
                    all.len() - self.max_recent_trades as int,
                    all.len() as int,
                ));
            } else {
                assert(trades_view(self.recent_trades@) =~= all);
            }
            assert(self@ =~= (BookV {
                recent_trades: bound_trades(
                    old(self)@.recent_trades,
                    trades_view(ts@),
                    old(self)@.max_recent_trades,
                ),
                ..old(self)@
            }));
        }
    }

    /// Submits an order at time `now`: matches it against the opposing
    /// ladder, rests any active residual, records the trades, and returns
    /// them. An order that is not active for matching is rejected and the
    /// book is left unchanged.
    pub fn add_order_at(&mut self, order: Order, now: i64) -> (r: Result<
        Vec<Trade>,
        MatchingEngineError,
    >)
        requires
            old(self)@.wf(),
            order@.wf(),
            !old(self)@.has_id(order@.id),
            old(self)@.total_rem() + order@.remaining <= u64::MAX,
        ensures
            order@.is_active() ==> ({
                let mr = spec_add(old(self)@, order@, now as int);
                &&& r matches Ok(v) && trades_view(v@) == mr.trades
                &&& final(self)@ == mr.book
            }),
            !order@.is_active() ==> (r matches Err(e) && e is InvalidOrderSide
                && *final(self) == *old(self)),
            final(self)@.wf(),
    {
        if !order.is_active() {
            return Err(MatchingEngineError::InvalidOrderSide);
        }
        let ghost b0 = self@;
        let ghost o0 = order@;
        proof {
            crate::model::lemma_spec_match(b0, o0, now as int);
            crate::model::lemma_spec_add(b0, o0, now as int);
        }
        let mut incoming = order;
        let mut trades: Vec<Trade> = Vec::new();
        self.match_rec(&mut incoming, now, &mut trades);
        let ghost m = spec_match(b0, o0, now as int);
        proof {
            assert(trades_view(trades@) =~= Seq::<TradeV>::empty() + m.trades);
            assert(trades_view(trades@) =~= m.trades);
        }
        if incoming.remaining_quantity.0 > 0 {
            proof {
                assert(incoming@ == m.incoming);
                assert(m.incoming.is_active());
                assert(stop_ok(m.book, m.incoming));
                assert(!m.book.has_id(m.incoming.id)) by {
                    if m.book.has_id(o0.id) {
                        assert(b0.has_id(o0.id));
                    }
                }
                crate::model::lemma_spec_insert(m.book, m.incoming);
            }
            self.insert_order(incoming);
        }
        self.push_recent(&trades);
        proof {
            let mr = spec_add(b0, o0, now as int);
            assert(self@ =~= mr.book);
        }
        Ok(trades)
    }

    /// Submits an order stamped with the current wall-clock time.
    pub fn add_order(&mut self, order: Order) -> (r: Result<Vec<Trade>, MatchingEngineError>)
        requires
            old(self)@.wf(),
            order@.wf(),
            !old(self)@.has_id(order@.id),
            old(self)@.total_rem() + order@.remaining <= u64::MAX,
        ensures
            order@.is_active() ==> (exists|t: int|
                {
                    let mr = #[trigger] spec_add(old(self)@, order@, t);
                    &&& r matches Ok(v) && trades_view(v@) == mr.trades
                    &&& final(self)@ == mr.book
                }),
            !order@.is_active() ==> (r matches Err(e) && e is InvalidOrderSide
                && *final(self) == *old(self)),
            final(self)@.wf(),
    {
        let now = crate::clock::now_millis();
        let ghost active = order@.is_active();
        let r = self.add_order_at(order, now);
        proof {
            if active {
                assert(spec_add(old(self)@, order@, now as int) == spec_add(
                    old(self)@,
                    order@,
                    now as int,
                ));
            }
        }
        r
    }

    /// Cancels the resting order with the given id at time `now`, removing
    /// it from its ladder and the index and returning it cancelled; fails
    /// with `OrderNotFound` when no such order rests, leaving the book
    /// unchanged.
    #[verifier::rlimit(100)]
    #[verifier::spinoff_prover]
    pub fn cancel_order_at(&mut self, order_id: OrderId, now: i64) -> (r: Result<
        Order,
        MatchingEngineError,
    >)
        requires
            old(self)@.wf(),
        ensures
            old(self)@.has_id(order_id.0) ==> ({
                let res = spec_cancel(old(self)@, order_id.0, now as int);
                &&& res is Some
                &&& r matches Ok(o) && o@ == res->Some_0.1
                &&& final(self)@ == res->Some_0.0
            }),
            !old(self)@.has_id(order_id.0) ==> (r matches Err(e) && e is OrderNotFound
                && *final(self) == *old(self)),
            final(self)@.wf(),
    {
        let ghost b0 = self@;
        let ghost id = order_id.0;
        proof {
            crate::model::lemma_locate(b0, id);
            crate::model::lemma_spec_cancel(b0, id, now as int);
        }
        let i = find_entry(&self.orders, order_id.0);
        if i == self.orders.len() {
            proof {
                crate::model::lemma_idx_pos(b0.index, id);
                assert(!b0.has_id(id));
            }
            return Err(MatchingEngineError::OrderNotFound(order_id.0));
        }
        proof {
            crate::model::lemma_idx_pos(b0.index, id);
            assert(b0.index[i as int].id == id);
            assert(b0.has_id(id));
        }
        let entry = self.orders[i];
        let ghost loc = spec_locate(b0, id)->Some_0;
        proof {
            assert(entry@ == b0.index[i as int]);
            assert(loc.0 == entry@.side);
        }
        self.orders.remove(i);
        proof {
            assert(entries_view(self.orders@) =~= b0.index.remove(i as int));
            assert(idx_remove(b0.index, id) == b0.index.remove(i as int));
        }
        let k = match entry.side {
            OrderSide::Buy => find_pos(&self.bids, entry.price.cents),
            OrderSide::Sell => find_pos(&self.asks, entry.price.cents),
        };
        proof {
            assert(k as int == loc.1);
            if entry.side is Buy {
                assert((k as int) < self.bids@.len());
            } else {
                assert((k as int) < self.asks@.len());
            }
        }
        let mut lvl = match entry.side {
            OrderSide::Buy => self.bids.remove(k),
            OrderSide::Sell => self.asks.remove(k),
        };
        proof {
            assert(lvl@ == b0.levels_of(loc.0)[loc.1]);
        }
        let ghost lvl0 = lvl@;
        let p = find_order(&lvl.orders, order_id.0);
        proof {
            assert(p as int == loc.2);
            assert((p as int) < lvl.orders@.len());
        }
        let mut removed = lvl.orders.remove(p);
        proof {
            assert(removed@ == lvl0.orders[loc.2]);
            assert(level_wf(lvl0, loc.0));
            assert(removed@.is_active());
            assert(orders_view(lvl.orders@) =~= lvl0.orders.remove(loc.2));
        }
        removed.cancel_at(now);
        if lvl.orders.len() > 0 {
            match entry.side {
                OrderSide::Buy => self.bids.insert(k, lvl),
                OrderSide::Sell => self.asks.insert(k, lvl),
            }
            proof {
                if loc.0 is Buy {
                    assert(levels_view(self.bids@) =~= b0.bids.update(
                        loc.1,
                        LevelV { price: lvl0.price, orders: lvl0.orders.remove(loc.2) },
                    ));
                } else {
                    assert(levels_view(self.asks@) =~= b0.asks.update(
                        loc.1,
                        LevelV { price: lvl0.price, orders: lvl0.orders.remove(loc.2) },
                    ));
                }
            }
        } else {
            proof {
                if loc.0 is Buy {
                    assert(levels_view(self.bids@) =~= b0.bids.remove(loc.1));
                } else {
                    assert(levels_view(self.asks@) =~= b0.asks.remove(loc.1));
                }
            }
        }
        proof {
            crate::model::lemma_remove_order(b0, loc.0, loc.1, loc.2);
            assert(self@ =~= remove_order(b0, loc.0, loc.1, loc.2));
            assert(self@ == spec_cancel(b0, id, now as int)->Some_0.0);
        }
        Ok(removed)
    }

    /// Cancels the resting order with the given id, stamped with the
    /// current wall-clock time.
    pub fn cancel_order(&mut self, order_id: OrderId) -> (r: Result<Order, MatchingEngineError>)
        requires
            old(self)@.wf(),
        ensures
            old(self)@.has_id(order_id.0) ==> (exists|t: int|
                {
                    let res = #[trigger] spec_cancel(old(self)@, order_id.0, t);
                    &&& res is Some
                    &&& r matches Ok(o) && o@ == res->Some_0.1
                    &&& final(self)@ == res->Some_0.0
                }),
            !old(self)@.has_id(order_id.0) ==> (r matches Err(e) && e is OrderNotFound
                && *final(self) == *old(self)),
            final(self)@.wf(),
    {
        let now = crate::clock::now_millis();
        let r = self.cancel_order_at(order_id, now);
        proof {
            if old(self)@.has_id(order_id.0) {
                assert(spec_cancel(old(self)@, order_id.0, now as int) == spec_cancel(
                    old(self)@,
                    order_id.0,
                    now as int,
                ));
            }
        }
        r
    }

    /// Looks a resting order up by id.
    pub fn get_order(&self, order_id: OrderId) -> (r: Option<&Order>)
        requires
            self@.wf(),
        ensures
            r is Some <==> self@.has_id(order_id.0),
            r matches Some(o) ==> Some(o@) == spec_get(self@, order_id.0),
    {
        let ghost b0 = self@;
        let ghost id = order_id.0;
        proof {
            crate::model::lemma_locate(b0, id);
        }
        let i = find_entry(&self.orders, order_id.0);
        if i == self.orders.len() {
            proof {
                crate::model::lemma_idx_pos(b0.index, id);
                assert(!b0.has_id(id));
            }
            return None;
        }
        proof {
            crate::model::lemma_idx_pos(b0.index, id);
            assert(b0.index[i as int].id == id);
            assert(b0.has_id(id));
        }
        let entry = self.orders[i];
        let ghost loc = spec_locate(b0, id)->Some_0;
        proof {
            assert(entry@ == b0.index[i as int]);
        }
        let k = match entry.side {
            OrderSide::Buy => find_pos(&self.bids, entry.price.cents),
            OrderSide::Sell => find_pos(&self.asks, entry.price.cents),
        };
        proof {
            assert(k as int == loc.1);
        }
        match entry.side {
            OrderSide::Buy => {
                let p = find_order(&self.bids[k].orders, order_id.0);
                proof {
                    assert(self.bids@[k as int]@ == b0.bids[loc.1]);
                    assert(p as int == loc.2);
                    assert(self.bids@[k as int].orders@[p as int]@
                        == b0.bids[loc.1].orders[loc.2]);
                }
                Some(&self.bids[k].orders[p])
            },
            OrderSide::Sell => {
                let p = find_order(&self.asks[k].orders, order_id.0);
                proof {
                    assert(self.asks@[k as int]@ == b0.asks[loc.1]);
                    assert(p as int == loc.2);
                    assert(self.asks@[k as int].orders@[p as int]@
                        == b0.asks[loc.1].orders[loc.2]);
                }
                Some(&self.asks[k].orders[p])
            },
        }
    }
}

} // verus!
