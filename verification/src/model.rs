//! The mathematical model of the order book.
//!
//! Every contract on the book speaks over these values: ladders are
//! sequences of price levels, each level a FIFO sequence of order views,
//! the id index a sequence of routing entries. The matching loop itself is
//! a recursive specification (`spec_match`); the executable engine is
//! proved to compute exactly what it describes.

use vstd::prelude::*;

use crate::order::{OrderSide, OrderV};

verus! {

/// The mathematical view of a trade.
pub struct TradeV {
    pub buy_order_id: u128,
    pub sell_order_id: u128,
    pub price: int,
    pub quantity: int,
    pub timestamp: int,
}

/// The mathematical view of one price level: a price and the FIFO queue of
/// resting orders at that price.
#[verifier::ext_equal]
pub struct LevelV {
    pub price: int,
    pub orders: Seq<OrderV>,
}

/// The mathematical view of one id-index entry: where the order with this
/// id rests.
pub struct EntryV {
    pub id: u128,
    pub side: OrderSide,
    pub price: int,
}

/// The mathematical view of the whole book. Both ladders are kept sorted by
/// ascending price: the best bid is the last bid level, the best ask the
/// first ask level.
#[verifier::ext_equal]
pub struct BookV {
    pub symbol: Seq<char>,
    pub bids: Seq<LevelV>,
    pub asks: Seq<LevelV>,
    pub index: Seq<EntryV>,
    pub recent_trades: Seq<TradeV>,
    pub max_recent_trades: int,
}

/// What the match loop leaves behind: the book, the incoming order, and the
/// trades executed, oldest first.
#[verifier::ext_equal]
pub struct MatchResult {
    pub book: BookV,
    pub incoming: OrderV,
    pub trades: Seq<TradeV>,
}

// ---------------------------------------------------------------------------
// Sums
// ---------------------------------------------------------------------------
/// Total remaining quantity of a queue of orders.
pub open spec fn orders_rem(s: Seq<OrderV>) -> int
    decreases s.len(),
{
    if s.len() == 0 {
        0
    } else {
        s[0].remaining + orders_rem(s.drop_first())
    }
}

/// Total remaining quantity of a ladder.
pub open spec fn ladder_rem(ls: Seq<LevelV>) -> int
    decreases ls.len(),
{
    if ls.len() == 0 {
        0
    } else {
        orders_rem(ls[0].orders) + ladder_rem(ls.drop_first())
    }
}

/// Total quantity of a list of trades.
pub open spec fn trades_qty(ts: Seq<TradeV>) -> int
    decreases ts.len(),
{
    if ts.len() == 0 {
        0
    } else {
        ts[0].quantity + trades_qty(ts.drop_first())
    }
}

pub proof fn lemma_orders_rem_push(s: Seq<OrderV>, o: OrderV)
    ensures
        orders_rem(s.push(o)) == orders_rem(s) + o.remaining,
    decreases s.len(),
{
    reveal_with_fuel(orders_rem, 2);
    if s.len() == 0 {
        assert(s.push(o).drop_first() =~= Seq::<OrderV>::empty());
    } else {
        lemma_orders_rem_push(s.drop_first(), o);
        assert(s.push(o).drop_first() =~= s.drop_first().push(o));
    }
}

pub proof fn lemma_orders_rem_remove(s: Seq<OrderV>, p: int)
    requires
        0 <= p < s.len(),
    ensures
        orders_rem(s.remove(p)) == orders_rem(s) - s[p].remaining,
    decreases s.len(),
{
    if p == 0 {
        assert(s.remove(0) =~= s.drop_first());
    } else {
        lemma_orders_rem_remove(s.drop_first(), p - 1);
        assert(s.remove(p).drop_first() =~= s.drop_first().remove(p - 1));
    }
}

pub proof fn lemma_orders_rem_update(s: Seq<OrderV>, p: int, o: OrderV)
    requires
        0 <= p < s.len(),
    ensures
        orders_rem(s.update(p, o)) == orders_rem(s) - s[p].remaining + o.remaining,
    decreases s.len(),
{
    if p == 0 {
        assert(s.update(0, o).drop_first() =~= s.drop_first());
    } else {
        lemma_orders_rem_update(s.drop_first(), p - 1, o);
        assert(s.update(p, o).drop_first() =~= s.drop_first().update(p - 1, o));
    }
}

pub proof fn lemma_orders_rem_nonneg(s: Seq<OrderV>)
    requires
        forall|i: int| 0 <= i < s.len() ==> (#[trigger] s[i]).remaining >= 0,
    ensures
        orders_rem(s) >= 0,
    decreases s.len(),
{
    if s.len() > 0 {
        lemma_orders_rem_nonneg(s.drop_first());
    }
}

/// The prefix of a queue never holds more than the whole queue, when no
/// order has negative residual.
pub proof fn lemma_orders_rem_take(s: Seq<OrderV>, n: int)
    requires
        0 <= n <= s.len(),
        forall|i: int| 0 <= i < s.len() ==> (#[trigger] s[i]).remaining >= 0,
    ensures
        orders_rem(s.take(n)) <= orders_rem(s),
        n < s.len() ==> orders_rem(s.take(n + 1)) == orders_rem(s.take(n)) + s[n].remaining,
    decreases s.len() - n,
{
    if n < s.len() {
        assert(s.take(n + 1) =~= s.take(n).push(s[n]));
        lemma_orders_rem_push(s.take(n), s[n]);
        lemma_orders_rem_take(s, n + 1);
    } else {
        assert(s.take(n) =~= s);
    }
}

pub proof fn lemma_ladder_rem_remove(ls: Seq<LevelV>, k: int)
    requires
        0 <= k < ls.len(),
    ensures
        ladder_rem(ls.remove(k)) == ladder_rem(ls) - orders_rem(ls[k].orders),
    decreases ls.len(),
{
    if k == 0 {
        assert(ls.remove(0) =~= ls.drop_first());
    } else {
        lemma_ladder_rem_remove(ls.drop_first(), k - 1);
        assert(ls.remove(k).drop_first() =~= ls.drop_first().remove(k - 1));
    }
}

pub proof fn lemma_ladder_rem_update(ls: Seq<LevelV>, k: int, l: LevelV)
    requires
        0 <= k < ls.len(),
    ensures
        ladder_rem(ls.update(k, l)) == ladder_rem(ls) - orders_rem(ls[k].orders) + orders_rem(
            l.orders,
        ),
    decreases ls.len(),
{
    if k == 0 {
        assert(ls.update(0, l).drop_first() =~= ls.drop_first());
    } else {
        lemma_ladder_rem_update(ls.drop_first(), k - 1, l);
        assert(ls.update(k, l).drop_first() =~= ls.drop_first().update(k - 1, l));
    }
}

pub proof fn lemma_ladder_rem_insert(ls: Seq<LevelV>, k: int, l: LevelV)
    requires
        0 <= k <= ls.len(),
    ensures
        ladder_rem(ls.insert(k, l)) == ladder_rem(ls) + orders_rem(l.orders),
    decreases ls.len(),
{
    if k == 0 {
        assert(ls.insert(0, l).drop_first() =~= ls);
    } else {
        lemma_ladder_rem_insert(ls.drop_first(), k - 1, l);
        assert(ls.insert(k, l).drop_first() =~= ls.drop_first().insert(k - 1, l));
        assert(ls.insert(k, l)[0] == ls[0]);
    }
}

pub proof fn lemma_ladder_rem_nonneg(ls: Seq<LevelV>)
    requires
        forall|k: int, i: int|
            #![trigger ls[k].orders[i]]
            0 <= k < ls.len() && 0 <= i < ls[k].orders.len() ==> ls[k].orders[i].remaining >= 0,
    ensures
        ladder_rem(ls) >= 0,
    decreases ls.len(),
{
    if ls.len() > 0 {
        lemma_orders_rem_nonneg(ls[0].orders);
        lemma_ladder_rem_nonneg(ls.drop_first());
    }
}

/// One level never holds more than its whole ladder, when no order has
/// negative residual.
pub proof fn lemma_ladder_rem_level(ls: Seq<LevelV>, k: int)
    requires
        0 <= k < ls.len(),
        forall|k2: int, i: int|
            #![trigger ls[k2].orders[i]]
            0 <= k2 < ls.len() && 0 <= i < ls[k2].orders.len() ==> ls[k2].orders[i].remaining >= 0,
    ensures
        orders_rem(ls[k].orders) <= ladder_rem(ls),
    decreases ls.len(),
{
    lemma_ladder_rem_remove(ls, k);
    lemma_ladder_rem_nonneg(ls.remove(k));
}

pub proof fn lemma_trades_qty_push(ts: Seq<TradeV>, t: TradeV)
    ensures
        trades_qty(ts.push(t)) == trades_qty(ts) + t.quantity,
    decreases ts.len(),
{
    reveal_with_fuel(trades_qty, 2);
    if ts.len() == 0 {
        assert(ts.push(t).drop_first() =~= Seq::<TradeV>::empty());
    } else {
        lemma_trades_qty_push(ts.drop_first(), t);
        assert(ts.push(t).drop_first() =~= ts.drop_first().push(t));
    }
}

pub proof fn lemma_trades_qty_add(a: Seq<TradeV>, b: Seq<TradeV>)
    ensures
        trades_qty(a + b) == trades_qty(a) + trades_qty(b),
    decreases a.len(),
{
    if a.len() == 0 {
        assert(a + b =~= b);
    } else {
        lemma_trades_qty_add(a.drop_first(), b);
        assert((a + b).drop_first() =~= a.drop_first() + b);
        assert((a + b)[0] == a[0]);
    }
}

/// In a well-formed ladder no order has negative residual.
pub proof fn lemma_ladder_wf_nonneg(ls: Seq<LevelV>, side: OrderSide)
    requires
        ladder_wf(ls, side),
    ensures
        forall|k: int, i: int|
            #![trigger ls[k].orders[i]]
            0 <= k < ls.len() && 0 <= i < ls[k].orders.len() ==> ls[k].orders[i].remaining >= 0,
{
    assert forall|k: int, i: int|
        #![trigger ls[k].orders[i]]
        0 <= k < ls.len() && 0 <= i < ls[k].orders.len() implies ls[k].orders[i].remaining
        >= 0 by {
        assert(level_wf(ls[k], side));
        assert(ls[k].orders[i].wf());
    }
}

/// A well-formed level holds at least one unit.
pub proof fn lemma_level_rem_pos(l: LevelV, side: OrderSide)
    requires
        level_wf(l, side),
    ensures
        orders_rem(l.orders) >= 1,
{
    assert(l.orders[0].wf() && l.orders[0].is_active());
    assert forall|i: int| 0 <= i < l.orders.drop_first().len() implies (#[trigger] l.orders
        .drop_first()[i]).remaining >= 0 by {
        assert(l.orders.drop_first()[i] == l.orders[i + 1]);
        assert(l.orders[i + 1].wf());
    }
    lemma_orders_rem_nonneg(l.orders.drop_first());
}

/// In a well-formed book, one level's units never exceed the book's total,
/// which fits the machine bound.
pub proof fn lemma_level_le_total(b: BookV, side: OrderSide, k: int)
    requires
        b.wf(),
        0 <= k < b.levels_of(side).len(),
    ensures
        0 <= orders_rem(b.levels_of(side)[k].orders) <= b.total_rem(),
{
    lemma_ladder_wf_nonneg(b.bids, OrderSide::Buy);
    lemma_ladder_wf_nonneg(b.asks, OrderSide::Sell);
    lemma_ladder_rem_nonneg(b.bids);
    lemma_ladder_rem_nonneg(b.asks);
    if side is Buy {
        lemma_ladder_rem_level(b.bids, k);
    } else {
        lemma_ladder_rem_level(b.asks, k);
    }
    lemma_orders_rem_nonneg(b.levels_of(side)[k].orders);
}

// ---------------------------------------------------------------------------
// Positions
// ---------------------------------------------------------------------------
/// The position of the first index entry carrying `id`, or the length when
/// there is none.
pub open spec fn idx_pos(idx: Seq<EntryV>, id: u128) -> int
    decreases idx.len(),
{
    if idx.len() == 0 {
        0
    } else if idx[0].id == id {
        0
    } else {
        1 + idx_pos(idx.drop_first(), id)
    }
}

pub proof fn lemma_idx_pos(idx: Seq<EntryV>, id: u128)
    ensures
        0 <= idx_pos(idx, id) <= idx.len(),
        idx_pos(idx, id) < idx.len() ==> idx[idx_pos(idx, id)].id == id,
        forall|i: int| 0 <= i < idx_pos(idx, id) ==> (#[trigger] idx[i]).id != id,
        idx_pos(idx, id) == idx.len() ==> forall|i: int|
            0 <= i < idx.len() ==> (#[trigger] idx[i]).id != id,
    decreases idx.len(),
{
    if idx.len() > 0 && idx[0].id != id {
        lemma_idx_pos(idx.drop_first(), id);
        assert forall|i: int| 0 <= i < idx_pos(idx, id) implies (#[trigger] idx[i]).id != id by {
            if i > 0 {
                assert(idx[i] == idx.drop_first()[i - 1]);
            }
        }
        if idx_pos(idx, id) == idx.len() {
            assert forall|i: int| 0 <= i < idx.len() implies (#[trigger] idx[i]).id != id by {
                if i > 0 {
                    assert(idx[i] == idx.drop_first()[i - 1]);
                }
            }
        }
    }
}

/// The position of the first order carrying `id`, or the length when there
/// is none.
pub open spec fn ord_pos(s: Seq<OrderV>, id: u128) -> int
    decreases s.len(),
{
    if s.len() == 0 {
        0
    } else if s[0].id == id {
        0
    } else {
        1 + ord_pos(s.drop_first(), id)
    }
}

pub proof fn lemma_ord_pos(s: Seq<OrderV>, id: u128)
    ensures
        0 <= ord_pos(s, id) <= s.len(),
        ord_pos(s, id) < s.len() ==> s[ord_pos(s, id)].id == id,
        forall|i: int| 0 <= i < ord_pos(s, id) ==> (#[trigger] s[i]).id != id,
        ord_pos(s, id) == s.len() ==> forall|i: int|
            0 <= i < s.len() ==> (#[trigger] s[i]).id != id,
    decreases s.len(),
{
    if s.len() > 0 && s[0].id != id {
        lemma_ord_pos(s.drop_first(), id);
        assert forall|i: int| 0 <= i < ord_pos(s, id) implies (#[trigger] s[i]).id != id by {
            if i > 0 {
                assert(s[i] == s.drop_first()[i - 1]);
            }
        }
        if ord_pos(s, id) == s.len() {
            assert forall|i: int| 0 <= i < s.len() implies (#[trigger] s[i]).id != id by {
                if i > 0 {
                    assert(s[i] == s.drop_first()[i - 1]);
                }
            }
        }
    }
}

/// The position of the first level at or above `price`, or the length when
/// every level sits below it.
pub open spec fn lvl_pos(ls: Seq<LevelV>, price: int) -> int
    decreases ls.len(),
{
    if ls.len() == 0 {
        0
    } else if ls[0].price >= price {
        0
    } else {
        1 + lvl_pos(ls.drop_first(), price)
    }
}

pub proof fn lemma_lvl_pos(ls: Seq<LevelV>, price: int)
    ensures
        0 <= lvl_pos(ls, price) <= ls.len(),
        lvl_pos(ls, price) < ls.len() ==> ls[lvl_pos(ls, price)].price >= price,
        forall|k: int| 0 <= k < lvl_pos(ls, price) ==> (#[trigger] ls[k]).price < price,
        lvl_pos(ls, price) == ls.len() ==> forall|k: int|
            0 <= k < ls.len() ==> (#[trigger] ls[k]).price < price,
    decreases ls.len(),
{
    if ls.len() > 0 && ls[0].price < price {
        lemma_lvl_pos(ls.drop_first(), price);
        assert forall|k: int| 0 <= k < lvl_pos(ls, price) implies (#[trigger] ls[k]).price
            < price by {
            if k > 0 {
                assert(ls[k] == ls.drop_first()[k - 1]);
            }
        }
        if lvl_pos(ls, price) == ls.len() {
            assert forall|k: int| 0 <= k < ls.len() implies (#[trigger] ls[k]).price < price by {
                if k > 0 {
                    assert(ls[k] == ls.drop_first()[k - 1]);
                }
            }
        }
    }
}

/// Removal of the first entry carrying `id` from the index; the index is
/// unchanged when no entry carries it.
pub open spec fn idx_remove(idx: Seq<EntryV>, id: u128) -> Seq<EntryV> {
    if idx_pos(idx, id) < idx.len() {
        idx.remove(idx_pos(idx, id))
    } else {
        idx
    }
}

// ---------------------------------------------------------------------------
// Membership
// ---------------------------------------------------------------------------
/// Some order in the level carries `id`.
pub open spec fn level_has_id(l: LevelV, id: u128) -> bool {
    exists|p: int| 0 <= p < l.orders.len() && (#[trigger] l.orders[p]).id == id
}

/// Some level of the ladder sits at `price` and holds an order carrying
/// `id`.
pub open spec fn ladder_has_at(ls: Seq<LevelV>, price: int, id: u128) -> bool {
    exists|k: int|
        0 <= k < ls.len() && (#[trigger] ls[k]).price == price && level_has_id(ls[k], id)
}

/// Some index entry routes `id` to (`side`, `price`).
pub open spec fn idx_has(idx: Seq<EntryV>, id: u128, side: OrderSide, price: int) -> bool {
    exists|i: int| 0 <= i < idx.len() && (#[trigger] idx[i]) == (EntryV { id, side, price })
}

// ---------------------------------------------------------------------------
// Well-formedness
// ---------------------------------------------------------------------------
/// A level is well formed for its side: non-empty, positive price, every
/// order active with positive residual at this level's price and side, and
/// ids distinct within the level.
pub open spec fn level_wf(l: LevelV, side: OrderSide) -> bool {
    &&& l.orders.len() >= 1
    &&& l.price >= 1
    &&& forall|i: int|
        0 <= i < l.orders.len() ==> {
            let o = #[trigger] l.orders[i];
            o.wf() && o.is_active() && o.side == side && o.price == l.price
        }
    &&& forall|i: int, j: int|
        #![trigger l.orders[i].id, l.orders[j].id]
        0 <= i < j < l.orders.len() ==> l.orders[i].id != l.orders[j].id
}

/// A ladder is well formed for its side: every level well formed and prices
/// strictly ascending.
pub open spec fn ladder_wf(ls: Seq<LevelV>, side: OrderSide) -> bool {
    &&& forall|k: int| 0 <= k < ls.len() ==> level_wf(#[trigger] ls[k], side)
    &&& forall|k1: int, k2: int|
        #![trigger ls[k1].price, ls[k2].price]
        0 <= k1 < k2 < ls.len() ==> ls[k1].price < ls[k2].price
}

impl BookV {
    /// The ladder holding orders of the given side.
    pub open spec fn levels_of(self, side: OrderSide) -> Seq<LevelV> {
        if side is Buy {
            self.bids
        } else {
            self.asks
        }
    }

    /// The book with the given side's ladder replaced.
    pub open spec fn with_levels(self, side: OrderSide, ls: Seq<LevelV>) -> BookV {
        if side is Buy {
            BookV { bids: ls, ..self }
        } else {
            BookV { asks: ls, ..self }
        }
    }

    /// The book with the id index replaced.
    pub open spec fn with_index(self, idx: Seq<EntryV>) -> BookV {
        BookV { index: idx, ..self }
    }

    /// Total remaining quantity resting in the book.
    pub open spec fn total_rem(self) -> int {
        ladder_rem(self.bids) + ladder_rem(self.asks)
    }

    /// The highest bid price, when a bid rests.
    pub open spec fn best_bid(self) -> Option<int> {
        if self.bids.len() == 0 {
            None
        } else {
            Some(self.bids.last().price)
        }
    }

    /// The lowest ask price, when an ask rests.
    pub open spec fn best_ask(self) -> Option<int> {
        if self.asks.len() == 0 {
            None
        } else {
            Some(self.asks[0].price)
        }
    }

    /// Best ask minus best bid, when both exist.
    pub open spec fn spread(self) -> Option<int> {
        if self.bids.len() > 0 && self.asks.len() > 0 {
            Some(self.asks[0].price - self.bids.last().price)
        } else {
            None
        }
    }

    /// Some index entry carries `id`.
    pub open spec fn has_id(self, id: u128) -> bool {
        exists|i: int| 0 <= i < self.index.len() && (#[trigger] self.index[i]).id == id
    }

    /// The id index and the ladders agree: entry ids are distinct, every
    /// entry routes to a level that holds its order, and every resting order
    /// is routed by an entry.
    pub open spec fn index_wf(self) -> bool {
        &&& forall|i: int, j: int|
            #![trigger self.index[i].id, self.index[j].id]
            0 <= i < j < self.index.len() ==> self.index[i].id != self.index[j].id
        &&& forall|i: int|
            0 <= i < self.index.len() ==> {
                let e = #[trigger] self.index[i];
                ladder_has_at(self.levels_of(e.side), e.price, e.id)
            }
        &&& forall|k: int, p: int|
            #![trigger self.bids[k].orders[p]]
            0 <= k < self.bids.len() && 0 <= p < self.bids[k].orders.len() ==> idx_has(
                self.index,
                self.bids[k].orders[p].id,
                OrderSide::Buy,
                self.bids[k].price,
            )
        &&& forall|k: int, p: int|
            #![trigger self.asks[k].orders[p]]
            0 <= k < self.asks.len() && 0 <= p < self.asks[k].orders.len() ==> idx_has(
                self.index,
                self.asks[k].orders[p].id,
                OrderSide::Sell,
                self.asks[k].price,
            )
    }

    /// The market is not crossed: when both ladders are populated, every bid
    /// sits strictly below every ask.
    pub open spec fn not_crossed(self) -> bool {
        self.bids.len() > 0 && self.asks.len() > 0 ==> self.bids.last().price < self.asks[0].price
    }

    /// Well-formedness of the whole book.
    pub open spec fn wf(self) -> bool {
        &&& ladder_wf(self.bids, OrderSide::Buy)
        &&& ladder_wf(self.asks, OrderSide::Sell)
        &&& self.index_wf()
        &&& self.not_crossed()
        &&& self.total_rem() <= u64::MAX
        &&& 0 <= self.max_recent_trades
        &&& self.recent_trades.len() <= self.max_recent_trades
    }
}

// ---------------------------------------------------------------------------
// The operations, as specifications
// ---------------------------------------------------------------------------
/// The book after removing the order at position `p` of level `k` on the
/// given side, together with its index entry; an emptied level is pruned.
pub open spec fn remove_order(b: BookV, side: OrderSide, k: int, p: int) -> BookV {
    let ls = b.levels_of(side);
    let lvl = ls[k];
    let id = lvl.orders[p].id;
    let lvl2 = LevelV { price: lvl.price, orders: lvl.orders.remove(p) };
    let ls2 = if lvl2.orders.len() == 0 {
        ls.remove(k)
    } else {
        ls.update(k, lvl2)
    };
    b.with_levels(side, ls2).with_index(idx_remove(b.index, id))
}

/// The book with the order at position `p` of level `k` on the given side
/// replaced by `o`.
pub open spec fn update_order(b: BookV, side: OrderSide, k: int, p: int, o: OrderV) -> BookV {
    let ls = b.levels_of(side);
    let lvl = ls[k];
    b.with_levels(side, ls.update(k, LevelV { price: lvl.price, orders: lvl.orders.update(p, o) }))
}

/// The number of levels on the ladder opposing `side`.
pub open spec fn opp_measure1(b: BookV, side: OrderSide) -> int {
    b.levels_of(side.opposite()).len() as int
}

/// The length of the best opposing level's queue.
pub open spec fn opp_measure2(b: BookV, side: OrderSide) -> int {
    let opp = b.levels_of(side.opposite());
    if opp.len() == 0 {
        0
    } else if side is Buy {
        opp[0].orders.len() as int
    } else {
        opp[opp.len() - 1].orders.len() as int
    }
}

/// The match loop: while the incoming order still crosses the best opposing
/// level, it executes against the head of that level's FIFO for the smaller
/// of the two residuals, at the resting order's price. A filled resting
/// order leaves its level and the index; an emptied level is pruned. The
/// loop stops when the incoming order is filled, nothing is left opposite,
/// the prices no longer cross, or (never in a well-formed book) the head is
/// not active.
pub open spec fn spec_match(b: BookV, o: OrderV, now: int) -> MatchResult
    decreases opp_measure1(b, o.side), opp_measure2(b, o.side),
{
    let opp = b.levels_of(o.side.opposite());
    if opp.len() == 0 {
        MatchResult { book: b, incoming: o, trades: Seq::empty() }
    } else {
        let k: int = if o.side is Buy {
            0
        } else {
            opp.len() - 1
        };
        let lvl = opp[k];
        let crossing = if o.side is Buy {
            o.price >= lvl.price
        } else {
            o.price <= lvl.price
        };
        if !crossing || lvl.orders.len() == 0 || o.remaining <= 0 || !lvl.orders[0].is_active() {
            MatchResult { book: b, incoming: o, trades: Seq::empty() }
        } else {
            let h = lvl.orders[0];
            let x = if o.remaining <= h.remaining {
                o.remaining
            } else {
                h.remaining
            };
            let t = TradeV {
                buy_order_id: if o.side is Buy {
                    o.id
                } else {
                    h.id
                },
                sell_order_id: if o.side is Buy {
                    h.id
                } else {
                    o.id
                },
                price: h.price,
                quantity: x,
                timestamp: now,
            };
            let o2 = o.filled(x, now);
            if h.remaining - x == 0 {
                let b2 = remove_order(b, o.side.opposite(), k, 0);
                if o2.remaining == 0 {
                    MatchResult { book: b2, incoming: o2, trades: seq![t] }
                } else {
                    let mr = spec_match(b2, o2, now);
                    MatchResult { book: mr.book, incoming: mr.incoming, trades: seq![t] + mr.trades }
                }
            } else {
                let h2 = h.filled(x, now);
                MatchResult {
                    book: update_order(b, o.side.opposite(), k, 0, h2),
                    incoming: o2,
                    trades: seq![t],
                }
            }
        }
    }
}

/// Insertion of a residual order into its own side's ladder, at its price
/// level (appended to the FIFO) or at a fresh level at the sorted position,
/// with a new index entry.
pub open spec fn spec_insert(b: BookV, o: OrderV) -> BookV {
    let ls = b.levels_of(o.side);
    let k = lvl_pos(ls, o.price);
    let ls2 = if k < ls.len() && ls[k].price == o.price {
        ls.update(k, LevelV { price: o.price, orders: ls[k].orders.push(o) })
    } else {
        ls.insert(k, LevelV { price: o.price, orders: seq![o] })
    };
    b.with_levels(o.side, ls2).with_index(
        b.index.push(EntryV { id: o.id, side: o.side, price: o.price }),
    )
}

/// The recent-trade buffer after appending `ts`: the newest `max` entries
/// survive, oldest dropped first.
pub open spec fn bound_trades(recent: Seq<TradeV>, ts: Seq<TradeV>, max: int) -> Seq<TradeV> {
    let all = recent + ts;
    if all.len() <= max {
        all
    } else {
        all.subrange(all.len() - max, all.len() as int)
    }
}

/// Submission of an order: match, rest any active residual, and record the
/// trades in the bounded recent-trade buffer.
pub open spec fn spec_add(b: BookV, o: OrderV, now: int) -> MatchResult {
    let mr = spec_match(b, o, now);
    let b2 = if mr.incoming.remaining > 0 && mr.incoming.is_active() {
        spec_insert(mr.book, mr.incoming)
    } else {
        mr.book
    };
    let b3 = BookV {
        recent_trades: bound_trades(b2.recent_trades, mr.trades, b2.max_recent_trades),
        ..b2
    };
    MatchResult { book: b3, incoming: mr.incoming, trades: mr.trades }
}

/// Where the order with `id` rests: its ladder coordinates, when its index
/// entry resolves.
pub open spec fn spec_locate(b: BookV, id: u128) -> Option<(OrderSide, int, int)> {
    if b.has_id(id) {
        let e = b.index[idx_pos(b.index, id)];
        let ls = b.levels_of(e.side);
        let k = lvl_pos(ls, e.price);
        if k < ls.len() && ls[k].price == e.price {
            let p = ord_pos(ls[k].orders, id);
            if p < ls[k].orders.len() {
                Some((e.side, k, p))
            } else {
                None
            }
        } else {
            None
        }
    } else {
        None
    }
}

/// The resting order with `id`, when there is one.
pub open spec fn spec_get(b: BookV, id: u128) -> Option<OrderV> {
    match spec_locate(b, id) {
        Some((side, k, p)) => Some(b.levels_of(side)[k].orders[p]),
        None => None,
    }
}

/// Cancellation: the order leaves its level and the index, an emptied level
/// is pruned, and the order is returned cancelled.
pub open spec fn spec_cancel(b: BookV, id: u128, now: int) -> Option<(BookV, OrderV)> {
    match spec_locate(b, id) {
        Some((side, k, p)) => {
            let o = b.levels_of(side)[k].orders[p];
            Some((remove_order(b, side, k, p), o.cancelled(now)))
        },
        None => None,
    }
}


// ---------------------------------------------------------------------------
// Preservation lemmas
// ---------------------------------------------------------------------------
/// In a well-formed book an order id appears at one set of coordinates only.
pub proof fn lemma_id_unique(
    b: BookV,
    side1: OrderSide,
    k1: int,
    p1: int,
    side2: OrderSide,
    k2: int,
    p2: int,
)
    requires
        b.wf(),
        0 <= k1 < b.levels_of(side1).len(),
        0 <= p1 < b.levels_of(side1)[k1].orders.len(),
        0 <= k2 < b.levels_of(side2).len(),
        0 <= p2 < b.levels_of(side2)[k2].orders.len(),
        b.levels_of(side1)[k1].orders[p1].id == b.levels_of(side2)[k2].orders[p2].id,
    ensures
        side1 == side2,
        k1 == k2,
        p1 == p2,
{
    let id = b.levels_of(side1)[k1].orders[p1].id;
    let e1 = EntryV { id, side: side1, price: b.levels_of(side1)[k1].price };
    let e2 = EntryV { id, side: side2, price: b.levels_of(side2)[k2].price };
    assert(idx_has(b.index, id, side1, b.levels_of(side1)[k1].price));
    assert(idx_has(b.index, id, side2, b.levels_of(side2)[k2].price));
    let i1 = choose|i: int| 0 <= i < b.index.len() && b.index[i] == e1;
    let i2 = choose|i: int| 0 <= i < b.index.len() && b.index[i] == e2;
    assert(b.index[i1].id == b.index[i2].id);
    if i1 != i2 {
        assert(b.index[i1].id != b.index[i2].id);
    }
    assert(e1 == e2);
    if k1 != k2 {
        assert(b.levels_of(side1)[k1].price != b.levels_of(side1)[k2].price);
    }
    if p1 != p2 {
        assert(level_wf(b.levels_of(side1)[k1], side1));
        assert(b.levels_of(side1)[k1].orders[p1].id != b.levels_of(side1)[k1].orders[p2].id);
    }
}

/// In a well-formed book, `spec_locate` finds an id exactly when the index
/// holds it, and what it finds carries that id at the entry's coordinates.
pub proof fn lemma_locate(b: BookV, id: u128)
    requires
        b.wf(),
    ensures
        b.has_id(id) <==> spec_locate(b, id) is Some,
        spec_locate(b, id) matches Some((side, k, p)) ==> {
            let ls = b.levels_of(side);
            &&& 0 <= k < ls.len()
            &&& 0 <= p < ls[k].orders.len()
            &&& ls[k].orders[p].id == id
            &&& ls[k].price == b.index[idx_pos(b.index, id)].price
            &&& side == b.index[idx_pos(b.index, id)].side
        },
{
    lemma_idx_pos(b.index, id);
    if b.has_id(id) {
        let w = choose|i: int| 0 <= i < b.index.len() && b.index[i].id == id;
        assert(idx_pos(b.index, id) < b.index.len());
        let e = b.index[idx_pos(b.index, id)];
        assert(ladder_has_at(b.levels_of(e.side), e.price, e.id));
        let ls = b.levels_of(e.side);
        let kw = choose|k: int|
            0 <= k < ls.len() && (#[trigger] ls[k]).price == e.price && level_has_id(ls[k], id);
        lemma_lvl_pos(ls, e.price);
        let kp = lvl_pos(ls, e.price);
        if kp < kw {
            assert(ls[kp].price < ls[kw].price);
            assert(false);
        }
        if kp > kw {
            assert(ls[kw].price < e.price);
            assert(false);
        }
        assert(kp == kw);
        lemma_ord_pos(ls[kw].orders, id);
        let pw = choose|p: int| 0 <= p < ls[kw].orders.len() && (#[trigger] ls[kw].orders[p]).id
            == id;
        assert(ord_pos(ls[kw].orders, id) < ls[kw].orders.len());
    }
}

/// Removing one resting order (and its index entry) keeps the book well
/// formed, reduces the total by its residual, and removes exactly its id.
#[verifier::rlimit(100)]
#[verifier::spinoff_prover]
pub proof fn lemma_remove_order(b: BookV, side: OrderSide, k: int, p: int)
    requires
        b.wf(),
        0 <= k < b.levels_of(side).len(),
        0 <= p < b.levels_of(side)[k].orders.len(),
    ensures
        ({
            let removed = b.levels_of(side)[k].orders[p];
            let b2 = remove_order(b, side, k, p);
            &&& b2.wf()
            &&& b2.symbol == b.symbol
            &&& b2.recent_trades == b.recent_trades
            &&& b2.max_recent_trades == b.max_recent_trades
            &&& b2.levels_of(side.opposite()) == b.levels_of(side.opposite())
            &&& b2.total_rem() == b.total_rem() - removed.remaining
            &&& removed.remaining >= 1
            &&& (forall|id2: u128| b2.has_id(id2) <==> (b.has_id(id2) && id2 != removed.id))
            &&& (b2.bids.len() > 0 ==> b.bids.len() > 0 && b2.bids.last().price
                <= b.bids.last().price)
            &&& (b2.asks.len() > 0 ==> b.asks.len() > 0 && b2.asks[0].price >= b.asks[0].price)
        }),
{
    let ls = b.levels_of(side);
    let lvl = ls[k];
    let removed = lvl.orders[p];
    let id0 = removed.id;
    let lvl2 = LevelV { price: lvl.price, orders: lvl.orders.remove(p) };
    let pruned = lvl2.orders.len() == 0;
    let ls2 = if pruned { ls.remove(k) } else { ls.update(k, lvl2) };
    let b2 = remove_order(b, side, k, p);
    assert(level_wf(lvl, side));
    assert(removed.wf() && removed.is_active());

    // The removed order is indexed, so its entry exists and sits at idx_pos.
    assert(idx_has(b.index, id0, side, lvl.price));
    let wi = choose|i: int| 0 <= i < b.index.len() && (#[trigger] b.index[i]) == (EntryV {
        id: id0,
        side,
        price: lvl.price,
    });
    lemma_idx_pos(b.index, id0);
    let q = idx_pos(b.index, id0);
    if q != wi {
        assert(b.index[q].id != b.index[wi].id);
    }
    assert(q < b.index.len() && b.index[q] == (EntryV { id: id0, side, price: lvl.price }));
    let idx2 = idx_remove(b.index, id0);
    assert(idx2 == b.index.remove(q));
    assert(b2.index == idx2);
    assert(b2.levels_of(side) == ls2);

    // Sums.
    lemma_orders_rem_remove(lvl.orders, p);
    if pruned {
        lemma_ladder_rem_remove(ls, k);
        assert(lvl.orders.remove(p) =~= Seq::<OrderV>::empty());
        assert(orders_rem(lvl2.orders) == 0);
        assert(ladder_rem(ls2) == ladder_rem(ls) - removed.remaining);
    } else {
        lemma_ladder_rem_update(ls, k, lvl2);
        assert(ladder_rem(ls2) == ladder_rem(ls) - removed.remaining);
    }

    // Ladder well-formedness on the touched side.
    assert forall|k2: int| 0 <= k2 < ls2.len() implies level_wf(#[trigger] ls2[k2], side) by {
        if pruned {
            if k2 < k {
                assert(ls2[k2] == ls[k2]);
            } else {
                assert(ls2[k2] == ls[k2 + 1]);
            }
        } else {
            if k2 != k {
                assert(ls2[k2] == ls[k2]);
            } else {
                assert(ls2[k] == lvl2);
                assert forall|i: int| 0 <= i < lvl2.orders.len() implies {
                    let o = #[trigger] lvl2.orders[i];
                    o.wf() && o.is_active() && o.side == side && o.price == lvl2.price
                } by {
                    if i < p {
                        assert(lvl2.orders[i] == lvl.orders[i]);
                    } else {
                        assert(lvl2.orders[i] == lvl.orders[i + 1]);
                    }
                }
                assert forall|i: int, j: int|
                    #![trigger lvl2.orders[i].id, lvl2.orders[j].id]
                    0 <= i < j < lvl2.orders.len() implies lvl2.orders[i].id
                    != lvl2.orders[j].id by {
                    let i1 = if i < p { i } else { i + 1 };
                    let j1 = if j < p { j } else { j + 1 };
                    assert(lvl2.orders[i] == lvl.orders[i1]);
                    assert(lvl2.orders[j] == lvl.orders[j1]);
                }
            }
        }
    }
    assert forall|ka: int, kb: int|
        #![trigger ls2[ka].price, ls2[kb].price]
        0 <= ka < kb < ls2.len() implies ls2[ka].price < ls2[kb].price by {
        if pruned {
            let ka1 = if ka < k { ka } else { ka + 1 };
            let kb1 = if kb < k { kb } else { kb + 1 };
            assert(ls2[ka] == ls[ka1] && ls2[kb] == ls[kb1]);
            assert(ls[ka1].price < ls[kb1].price);
        } else {
            assert(ls2[ka].price == ls[ka].price && ls2[kb].price == ls[kb].price);
            assert(ls[ka].price < ls[kb].price);
        }
    }

    // Index distinctness survives removal.
    assert forall|i: int, j: int|
        #![trigger idx2[i].id, idx2[j].id]
        0 <= i < j < idx2.len() implies idx2[i].id != idx2[j].id by {
        let i1 = if i < q { i } else { i + 1 };
        let j1 = if j < q { j } else { j + 1 };
        assert(idx2[i] == b.index[i1] && idx2[j] == b.index[j1]);
        assert(b.index[i1].id != b.index[j1].id);
    }

    // Every surviving entry still resolves.
    assert forall|i: int| 0 <= i < idx2.len() implies {
        let e = #[trigger] idx2[i];
        ladder_has_at(b2.levels_of(e.side), e.price, e.id)
    } by {
        let i1 = if i < q { i } else { i + 1 };
        let e = idx2[i];
        assert(e == b.index[i1]);
        assert(e.id != id0);
        assert(ladder_has_at(b.levels_of(e.side), e.price, e.id));
        let lse = b.levels_of(e.side);
        let kw = choose|k2: int|
            0 <= k2 < lse.len() && (#[trigger] lse[k2]).price == e.price && level_has_id(
                lse[k2],
                e.id,
            );
        let pw = choose|p2: int| 0 <= p2 < lse[kw].orders.len() && (#[trigger] lse[kw].orders[p2]).id
            == e.id;
        if e.side != side {
            assert(b2.levels_of(e.side) == lse);
            assert(ladder_has_at(b2.levels_of(e.side), e.price, e.id));
        } else {
            if kw != k {
                if pruned {
                    let kn = if kw < k { kw } else { kw - 1 };
                    assert(ls2[kn] == ls[kw]);
                    assert(ladder_has_at(ls2, e.price, e.id));
                } else {
                    assert(ls2[kw] == ls[kw]);
                    assert(ladder_has_at(ls2, e.price, e.id));
                }
            } else {
                // The entry's order sits in the touched level at pw != p.
                assert(lse[kw].orders[pw].id == e.id);
                assert(pw != p);
                if lvl.orders.len() == 1 {
                    assert(pw == p);
                    assert(false);
                }
                assert(!pruned);
                let pn = if pw < p { pw } else { pw - 1 };
                assert(lvl2.orders[pn] == lvl.orders[pw]);
                assert(level_has_id(lvl2, e.id));
                assert(ls2[k] == lvl2);
                assert(ladder_has_at(ls2, e.price, e.id));
            }
        }
    }

    // Every surviving order is still indexed.
    assert forall|k2: int, p2: int|
        #![trigger b2.bids[k2].orders[p2]]
        0 <= k2 < b2.bids.len() && 0 <= p2 < b2.bids[k2].orders.len() implies idx_has(
        b2.index,
        b2.bids[k2].orders[p2].id,
        OrderSide::Buy,
        b2.bids[k2].price,
    ) by {
        lemma_remove_order_reindex(b, side, k, p, q, OrderSide::Buy, k2, p2);
    }
    assert forall|k2: int, p2: int|
        #![trigger b2.asks[k2].orders[p2]]
        0 <= k2 < b2.asks.len() && 0 <= p2 < b2.asks[k2].orders.len() implies idx_has(
        b2.index,
        b2.asks[k2].orders[p2].id,
        OrderSide::Sell,
        b2.asks[k2].price,
    ) by {
        lemma_remove_order_reindex(b, side, k, p, q, OrderSide::Sell, k2, p2);
    }

    // has_id is exactly the old one minus the removed id.
    assert forall|id2: u128| b2.has_id(id2) <==> (b.has_id(id2) && id2 != id0) by {
        if b2.has_id(id2) {
            let i = choose|i: int| 0 <= i < idx2.len() && (#[trigger] idx2[i]).id == id2;
            let i1 = if i < q { i } else { i + 1 };
            assert(idx2[i] == b.index[i1]);
            assert(b.has_id(id2));
            if i1 != q {
                assert(b.index[i1].id != b.index[q].id);
            }
        }
        if b.has_id(id2) && id2 != id0 {
            let i = choose|i: int| 0 <= i < b.index.len() && (#[trigger] b.index[i]).id == id2;
            assert(i != q);
            let i2 = if i < q { i } else { i - 1 };
            assert(idx2[i2] == b.index[i]);
            assert(b2.has_id(id2));
        }
    }

    // Best prices only tighten; the market stays uncrossed.
    if b2.bids.len() > 0 {
        if side is Buy {
            if pruned {
                if k == ls.len() - 1 {
                    assert(b2.bids.last() == b.bids[b.bids.len() - 2]);
                    assert(b.bids[b.bids.len() - 2].price < b.bids.last().price);
                } else {
                    assert(b2.bids.last() == b.bids.last());
                }
            } else {
                assert(b2.bids.last().price == b.bids.last().price);
            }
        } else {
            assert(b2.bids == b.bids);
        }
    }
    if b2.asks.len() > 0 {
        if side is Sell {
            if pruned {
                if k == 0 {
                    assert(b2.asks[0] == b.asks[1]);
                    assert(b.asks[0].price < b.asks[1].price);
                } else {
                    assert(b2.asks[0] == b.asks[0]);
                }
            } else {
                assert(b2.asks[0].price == b.asks[0].price);
            }
        } else {
            assert(b2.asks == b.asks);
        }
    }
    lemma_ladder_wf_nonneg(b.bids, OrderSide::Buy);
    lemma_ladder_wf_nonneg(b.asks, OrderSide::Sell);
    lemma_ladder_rem_nonneg(b.bids);
    lemma_ladder_rem_nonneg(b.asks);
    if side is Buy {
        lemma_ladder_rem_nonneg(b.asks);
        assert(b2.total_rem() == b.total_rem() - removed.remaining);
    } else {
        assert(b2.total_rem() == b.total_rem() - removed.remaining);
    }
    lemma_ladder_rem_nonneg(ls2);
    assert(b2.total_rem() <= u64::MAX);
}

/// Helper for `lemma_remove_order`: a surviving order of either ladder is
/// still indexed after the removal.
proof fn lemma_remove_order_reindex(
    b: BookV,
    side: OrderSide,
    k: int,
    p: int,
    q: int,
    qside: OrderSide,
    k2: int,
    p2: int,
)
    requires
        b.wf(),
        0 <= k < b.levels_of(side).len(),
        0 <= p < b.levels_of(side)[k].orders.len(),
        q == idx_pos(b.index, b.levels_of(side)[k].orders[p].id),
        0 <= q < b.index.len(),
        b.index[q] == (EntryV {
            id: b.levels_of(side)[k].orders[p].id,
            side,
            price: b.levels_of(side)[k].price,
        }),
        0 <= k2 < remove_order(b, side, k, p).levels_of(qside).len(),
        0 <= p2 < remove_order(b, side, k, p).levels_of(qside)[k2].orders.len(),
    ensures
        idx_has(
            remove_order(b, side, k, p).index,
            remove_order(b, side, k, p).levels_of(qside)[k2].orders[p2].id,
            qside,
            remove_order(b, side, k, p).levels_of(qside)[k2].price,
        ),
{
    let ls = b.levels_of(side);
    let lvl = ls[k];
    let id0 = lvl.orders[p].id;
    let lvl2 = LevelV { price: lvl.price, orders: lvl.orders.remove(p) };
    let pruned = lvl2.orders.len() == 0;
    let b2 = remove_order(b, side, k, p);
    let idx2 = b2.index;
    assert(idx2 == b.index.remove(q));
    // Map the surviving order's coordinates back into b.
    let lsq2 = b2.levels_of(qside);
    let lsq = b.levels_of(qside);
    let ko: int = if qside != side {
        k2
    } else if pruned && k2 >= k {
        k2 + 1
    } else {
        k2
    };
    let po: int = if qside == side && ko == k && p2 >= p {
        p2 + 1
    } else {
        p2
    };
    if qside != side {
        assert(lsq2[k2] == lsq[ko]);
    } else {
        if pruned {
            if k2 < k {
                assert(lsq2[k2] == lsq[ko]);
            } else {
                assert(lsq2[k2] == lsq[ko]);
            }
        } else {
            if k2 != k {
                assert(lsq2[k2] == lsq[ko]);
            } else {
                assert(lsq2[k2] == lvl2);
                if p2 < p {
                    assert(lvl2.orders[p2] == lvl.orders[po]);
                } else {
                    assert(lvl2.orders[p2] == lvl.orders[po]);
                }
            }
        }
    }
    let oid = lsq2[k2].orders[p2].id;
    assert(0 <= ko < lsq.len());
    assert(0 <= po < lsq[ko].orders.len());
    assert(lsq2[k2].orders[p2] == lsq[ko].orders[po]);
    assert(lsq2[k2].price == lsq[ko].price);
    assert(idx_has(b.index, oid, qside, lsq[ko].price));
    let i = choose|i: int| 0 <= i < b.index.len() && (#[trigger] b.index[i]) == (EntryV {
        id: oid,
        side: qside,
        price: lsq[ko].price,
    });
    // The surviving order is not the removed one.
    if oid == id0 {
        lemma_id_unique(b, qside, ko, po, side, k, p);
        assert(qside == side && ko == k && po == p);
        assert(false);
    }
    assert(oid != id0);
    assert(i != q);
    let i2 = if i < q { i } else { i - 1 };
    assert(idx2[i2] == b.index[i]);
    assert(idx_has(idx2, oid, qside, lsq[ko].price));
}

/// Replacing one resting order in place by a view with the same id, side
/// and price (an in-place partial fill of the level head) keeps the book
/// well formed and shifts the total by the difference of residuals.
#[verifier::rlimit(30)]
pub proof fn lemma_update_order(b: BookV, side: OrderSide, k: int, p: int, o2: OrderV)
    requires
        b.wf(),
        0 <= k < b.levels_of(side).len(),
        0 <= p < b.levels_of(side)[k].orders.len(),
        o2.wf(),
        o2.is_active(),
        o2.remaining >= 1,
        o2.id == b.levels_of(side)[k].orders[p].id,
        o2.side == b.levels_of(side)[k].orders[p].side,
        o2.price == b.levels_of(side)[k].orders[p].price,
        o2.remaining <= b.levels_of(side)[k].orders[p].remaining,
    ensures
        ({
            let prev = b.levels_of(side)[k].orders[p];
            let b2 = update_order(b, side, k, p, o2);
            &&& b2.wf()
            &&& b2.symbol == b.symbol
            &&& b2.recent_trades == b.recent_trades
            &&& b2.max_recent_trades == b.max_recent_trades
            &&& b2.index == b.index
            &&& b2.levels_of(side.opposite()) == b.levels_of(side.opposite())
            &&& b2.total_rem() == b.total_rem() - prev.remaining + o2.remaining
            &&& (forall|id2: u128| b2.has_id(id2) <==> b.has_id(id2))
            &&& (b2.bids.len() == b.bids.len() && b2.asks.len() == b.asks.len())
            &&& (b2.bids.len() > 0 ==> b2.bids.last().price == b.bids.last().price)
            &&& (b2.asks.len() > 0 ==> b2.asks[0].price == b.asks[0].price)
        }),
{
    let ls = b.levels_of(side);
    let lvl = ls[k];
    let prev = lvl.orders[p];
    let lvl2 = LevelV { price: lvl.price, orders: lvl.orders.update(p, o2) };
    let ls2 = ls.update(k, lvl2);
    let b2 = update_order(b, side, k, p, o2);
    assert(level_wf(lvl, side));
    assert(b2.levels_of(side) == ls2);

    lemma_orders_rem_update(lvl.orders, p, o2);
    lemma_ladder_rem_update(ls, k, lvl2);

    assert forall|k2: int| 0 <= k2 < ls2.len() implies level_wf(#[trigger] ls2[k2], side) by {
        if k2 != k {
            assert(ls2[k2] == ls[k2]);
        } else {
            assert forall|i: int| 0 <= i < lvl2.orders.len() implies {
                let o = #[trigger] lvl2.orders[i];
                o.wf() && o.is_active() && o.side == side && o.price == lvl2.price
            } by {
                if i != p {
                    assert(lvl2.orders[i] == lvl.orders[i]);
                }
            }
            assert forall|i: int, j: int|
                #![trigger lvl2.orders[i].id, lvl2.orders[j].id]
                0 <= i < j < lvl2.orders.len() implies lvl2.orders[i].id != lvl2.orders[j].id by {
                assert(lvl2.orders[i].id == lvl.orders[i].id);
                assert(lvl2.orders[j].id == lvl.orders[j].id);
            }
        }
    }
    assert forall|ka: int, kb: int|
        #![trigger ls2[ka].price, ls2[kb].price]
        0 <= ka < kb < ls2.len() implies ls2[ka].price < ls2[kb].price by {
        assert(ls2[ka].price == ls[ka].price && ls2[kb].price == ls[kb].price);
        assert(ls[ka].price < ls[kb].price);
    }

    assert forall|i: int| 0 <= i < b2.index.len() implies {
        let e = #[trigger] b2.index[i];
        ladder_has_at(b2.levels_of(e.side), e.price, e.id)
    } by {
        let e = b.index[i];
        assert(ladder_has_at(b.levels_of(e.side), e.price, e.id));
        if e.side == side {
            let kw = choose|k2: int|
                0 <= k2 < ls.len() && (#[trigger] ls[k2]).price == e.price && level_has_id(
                    ls[k2],
                    e.id,
                );
            let pw = choose|p2: int|
                0 <= p2 < ls[kw].orders.len() && (#[trigger] ls[kw].orders[p2]).id == e.id;
            assert(ls2[kw].price == e.price);
            assert(ls2[kw].orders[pw].id == e.id);
            assert(level_has_id(ls2[kw], e.id));
            assert(ladder_has_at(ls2, e.price, e.id));
        }
    }

    assert forall|k2: int, p2: int|
        #![trigger b2.bids[k2].orders[p2]]
        0 <= k2 < b2.bids.len() && 0 <= p2 < b2.bids[k2].orders.len() implies idx_has(
        b2.index,
        b2.bids[k2].orders[p2].id,
        OrderSide::Buy,
        b2.bids[k2].price,
    ) by {
        assert(b2.bids[k2].orders[p2].id == b.bids[k2].orders[p2].id);
        assert(b2.bids[k2].price == b.bids[k2].price);
    }
    assert forall|k2: int, p2: int|
        #![trigger b2.asks[k2].orders[p2]]
        0 <= k2 < b2.asks.len() && 0 <= p2 < b2.asks[k2].orders.len() implies idx_has(
        b2.index,
        b2.asks[k2].orders[p2].id,
        OrderSide::Sell,
        b2.asks[k2].price,
    ) by {
        assert(b2.asks[k2].orders[p2].id == b.asks[k2].orders[p2].id);
        assert(b2.asks[k2].price == b.asks[k2].price);
    }

    if b2.bids.len() > 0 {
        if side is Buy {
            assert(b2.bids.last().price == b.bids.last().price);
        } else {
            assert(b2.bids == b.bids);
        }
    }
    if b2.asks.len() > 0 {
        if side is Sell {
            assert(b2.asks[0].price == b.asks[0].price);
        } else {
            assert(b2.asks == b.asks);
        }
    }
}

/// Resting a residual order that does not cross the opposing ladder keeps
/// the book well formed, grows the total by its residual, and adds exactly
/// its id.
#[verifier::rlimit(100)]
#[verifier::spinoff_prover]
pub proof fn lemma_spec_insert(b: BookV, o: OrderV)
    requires
        b.wf(),
        o.wf(),
        o.is_active(),
        o.remaining >= 1,
        !b.has_id(o.id),
        o.side is Buy ==> (b.asks.len() == 0 || o.price < b.asks[0].price),
        o.side is Sell ==> (b.bids.len() == 0 || o.price > b.bids.last().price),
        b.total_rem() + o.remaining <= u64::MAX,
    ensures
        ({
            let b2 = spec_insert(b, o);
            &&& b2.wf()
            &&& b2.symbol == b.symbol
            &&& b2.recent_trades == b.recent_trades
            &&& b2.max_recent_trades == b.max_recent_trades
            &&& b2.levels_of(o.side.opposite()) == b.levels_of(o.side.opposite())
            &&& b2.total_rem() == b.total_rem() + o.remaining
            &&& (forall|id2: u128| b2.has_id(id2) <==> (b.has_id(id2) || id2 == o.id))
        }),
{
    let ls = b.levels_of(o.side);
    let side = o.side;
    lemma_lvl_pos(ls, o.price);
    let k = lvl_pos(ls, o.price);
    let grows = k < ls.len() && ls[k].price == o.price;
    let ls2 = if grows {
        ls.update(k, LevelV { price: o.price, orders: ls[k].orders.push(o) })
    } else {
        ls.insert(k, LevelV { price: o.price, orders: seq![o] })
    };
    let idx2 = b.index.push(EntryV { id: o.id, side, price: o.price });
    let b2 = spec_insert(b, o);
    assert(b2.levels_of(side) == ls2);
    assert(b2.index == idx2);

    // No entry carries o's id yet.
    assert forall|i: int| 0 <= i < b.index.len() implies (#[trigger] b.index[i]).id != o.id by {}

    // Sums.
    if grows {
        lemma_orders_rem_push(ls[k].orders, o);
        lemma_ladder_rem_update(
            ls,
            k,
            LevelV { price: o.price, orders: ls[k].orders.push(o) },
        );
    } else {
        lemma_ladder_rem_insert(ls, k, LevelV { price: o.price, orders: seq![o] });
        reveal_with_fuel(orders_rem, 2);
        assert(seq![o].drop_first() =~= Seq::<OrderV>::empty());
        assert(orders_rem(seq![o]) == o.remaining);
    }

    // Level well-formedness.
    assert forall|k2: int| 0 <= k2 < ls2.len() implies level_wf(#[trigger] ls2[k2], side) by {
        if grows {
            if k2 != k {
                assert(ls2[k2] == ls[k2]);
            } else {
                let lvl = ls[k];
                let lvl2 = ls2[k];
                assert(level_wf(lvl, side));
                assert(lvl2.orders == lvl.orders.push(o));
                assert forall|i: int| 0 <= i < lvl2.orders.len() implies {
                    let oo = #[trigger] lvl2.orders[i];
                    oo.wf() && oo.is_active() && oo.side == side && oo.price == lvl2.price
                } by {
                    if i < lvl.orders.len() {
                        assert(lvl2.orders[i] == lvl.orders[i]);
                    } else {
                        assert(lvl2.orders[i] == o);
                    }
                }
                assert forall|i: int, j: int|
                    #![trigger lvl2.orders[i].id, lvl2.orders[j].id]
                    0 <= i < j < lvl2.orders.len() implies lvl2.orders[i].id
                    != lvl2.orders[j].id by {
                    if j < lvl.orders.len() {
                        assert(lvl2.orders[i] == lvl.orders[i]);
                        assert(lvl2.orders[j] == lvl.orders[j]);
                    } else {
                        // The new order's id is fresh: the old order at i is
                        // indexed, so its id is in the index, and o.id is not.
                        assert(lvl2.orders[j] == o);
                        assert(lvl2.orders[i] == lvl.orders[i]);
                        if side is Buy {
                            assert(idx_has(b.index, b.bids[k].orders[i].id, OrderSide::Buy, b.bids[k].price));
                            let w = choose|w: int|
                                0 <= w < b.index.len() && (#[trigger] b.index[w]) == (EntryV {
                                    id: b.bids[k].orders[i].id,
                                    side: OrderSide::Buy,
                                    price: b.bids[k].price,
                                });
                            assert(b.index[w].id != o.id);
                        } else {
                            assert(idx_has(b.index, b.asks[k].orders[i].id, OrderSide::Sell, b.asks[k].price));
                            let w = choose|w: int|
                                0 <= w < b.index.len() && (#[trigger] b.index[w]) == (EntryV {
                                    id: b.asks[k].orders[i].id,
                                    side: OrderSide::Sell,
                                    price: b.asks[k].price,
                                });
                            assert(b.index[w].id != o.id);
                        }
                    }
                }
            }
        } else {
            if k2 < k {
                assert(ls2[k2] == ls[k2]);
            } else if k2 == k {
                assert(ls2[k] == (LevelV { price: o.price, orders: seq![o] }));
                assert(seq![o].len() == 1 && seq![o][0] == o);
            } else {
                assert(ls2[k2] == ls[k2 - 1]);
            }
        }
    }

    // Sortedness.
    assert forall|ka: int, kb: int|
        #![trigger ls2[ka].price, ls2[kb].price]
        0 <= ka < kb < ls2.len() implies ls2[ka].price < ls2[kb].price by {
        if grows {
            assert(ls2[ka].price == ls[ka].price && ls2[kb].price == ls[kb].price);
        } else {
            if kb < k {
                assert(ls2[ka] == ls[ka] && ls2[kb] == ls[kb]);
            } else if kb == k {
                assert(ls2[ka] == ls[ka]);
                assert(ls[ka].price < o.price);
            } else if ka == k {
                assert(ls2[kb] == ls[kb - 1]);
                assert(ls[kb - 1].price >= o.price);
                assert(!(k < ls.len() && ls[k].price == o.price));
                if kb - 1 == k {
                    assert(ls[k].price > o.price);
                } else {
                    assert(ls[k].price < ls[kb - 1].price);
                    assert(ls[k].price >= o.price);
                }
            } else if ka < k {
                assert(ls2[ka] == ls[ka] && ls2[kb] == ls[kb - 1]);
                if ka < kb - 1 {
                    assert(ls[ka].price < ls[kb - 1].price);
                } else {
                    assert(ls[ka].price < o.price);
                    assert(ls[ka].price < ls[kb - 1].price || ka == kb - 1);
                    if ka == kb - 1 {
                        assert(ls[ka].price < o.price);
                        assert(ls[ka].price <= ls[kb - 1].price);
                        assert(o.price <= ls[kb - 1].price || true);
                    }
                    assert(ls2[ka].price < ls2[kb].price) by {
                        if ka == kb - 1 {
                            assert(ls[ka].price < o.price);
                            assert(lvl_pos(ls, o.price) == k);
                            assert(ka < k);
                            assert(false);
                        }
                    }
                }
            } else {
                assert(ls2[ka] == ls[ka - 1] && ls2[kb] == ls[kb - 1]);
                assert(ls[ka - 1].price < ls[kb - 1].price);
            }
        }
    }

    // Index distinctness.
    assert forall|i: int, j: int|
        #![trigger idx2[i].id, idx2[j].id]
        0 <= i < j < idx2.len() implies idx2[i].id != idx2[j].id by {
        if j < b.index.len() {
            assert(idx2[i] == b.index[i] && idx2[j] == b.index[j]);
        } else {
            assert(idx2[j] == (EntryV { id: o.id, side, price: o.price }));
            assert(idx2[i] == b.index[i]);
        }
    }

    // Every entry resolves.
    assert forall|i: int| 0 <= i < idx2.len() implies {
        let e = #[trigger] idx2[i];
        ladder_has_at(b2.levels_of(e.side), e.price, e.id)
    } by {
        if i < b.index.len() {
            let e = b.index[i];
            assert(ladder_has_at(b.levels_of(e.side), e.price, e.id));
            if e.side == side {
                let lse = b.levels_of(e.side);
                let kw = choose|k2: int|
                    0 <= k2 < lse.len() && (#[trigger] lse[k2]).price == e.price && level_has_id(
                        lse[k2],
                        e.id,
                    );
                let pw = choose|p2: int|
                    0 <= p2 < lse[kw].orders.len() && (#[trigger] lse[kw].orders[p2]).id == e.id;
                if grows {
                    if kw != k {
                        assert(ls2[kw] == ls[kw]);
                        assert(ladder_has_at(ls2, e.price, e.id));
                    } else {
                        assert(ls2[k].orders[pw] == ls[k].orders[pw]);
                        assert(level_has_id(ls2[k], e.id));
                        assert(ladder_has_at(ls2, e.price, e.id));
                    }
                } else {
                    let kn = if kw < k { kw } else { kw + 1 };
                    assert(ls2[kn] == ls[kw]);
                    assert(ladder_has_at(ls2, e.price, e.id));
                }
            }
        } else {
            let e = idx2[i];
            assert(e == (EntryV { id: o.id, side, price: o.price }));
            if grows {
                assert(ls2[k].price == o.price);
                assert(ls2[k].orders[ls[k].orders.len() as int] == o);
                assert(level_has_id(ls2[k], o.id));
                assert(ladder_has_at(ls2, o.price, o.id));
            } else {
                assert(ls2[k].price == o.price);
                assert(ls2[k].orders[0] == o);
                assert(level_has_id(ls2[k], o.id));
                assert(ladder_has_at(ls2, o.price, o.id));
            }
        }
    }

    // Every resting order is indexed.
    assert forall|k2: int, p2: int|
        #![trigger b2.bids[k2].orders[p2]]
        0 <= k2 < b2.bids.len() && 0 <= p2 < b2.bids[k2].orders.len() implies idx_has(
        b2.index,
        b2.bids[k2].orders[p2].id,
        OrderSide::Buy,
        b2.bids[k2].price,
    ) by {
        lemma_spec_insert_reindex(b, o, OrderSide::Buy, k2, p2);
    }
    assert forall|k2: int, p2: int|
        #![trigger b2.asks[k2].orders[p2]]
        0 <= k2 < b2.asks.len() && 0 <= p2 < b2.asks[k2].orders.len() implies idx_has(
        b2.index,
        b2.asks[k2].orders[p2].id,
        OrderSide::Sell,
        b2.asks[k2].price,
    ) by {
        lemma_spec_insert_reindex(b, o, OrderSide::Sell, k2, p2);
    }

    // has_id grows by exactly o.id.
    assert forall|id2: u128| b2.has_id(id2) <==> (b.has_id(id2) || id2 == o.id) by {
        if b2.has_id(id2) {
            let i = choose|i: int| 0 <= i < idx2.len() && (#[trigger] idx2[i]).id == id2;
            if i < b.index.len() {
                assert(b.has_id(id2));
            } else {
                assert(id2 == o.id);
            }
        }
        if b.has_id(id2) {
            let i = choose|i: int| 0 <= i < b.index.len() && (#[trigger] b.index[i]).id == id2;
            assert(idx2[i] == b.index[i]);
            assert(b2.has_id(id2));
        }
        if id2 == o.id {
            assert(idx2[b.index.len() as int].id == o.id);
            assert(b2.has_id(id2));
        }
    }

    // The market stays uncrossed.
    if b2.bids.len() > 0 && b2.asks.len() > 0 {
        if side is Buy {
            assert(b2.asks == b.asks);
            if grows {
                assert(ls2.last().price == ls.last().price);
                assert(b2.not_crossed());
            } else {
                if k == ls.len() {
                    assert(ls2.last() == (LevelV { price: o.price, orders: seq![o] }));
                    assert(b2.not_crossed());
                } else {
                    assert(ls2.last() == ls.last());
                    assert(b.bids.len() > 0);
                    assert(b2.not_crossed());
                }
            }
        } else {
            assert(b2.bids == b.bids);
            if grows {
                assert(ls2[0].price == ls[0].price);
                assert(b2.not_crossed());
            } else {
                if k == 0 {
                    assert(ls2[0] == (LevelV { price: o.price, orders: seq![o] }));
                    assert(b2.not_crossed());
                } else {
                    assert(ls2[0] == ls[0]);
                    assert(b.asks.len() > 0);
                    assert(b2.not_crossed());
                }
            }
        }
    }
    lemma_ladder_rem_nonneg_book(b);
}

/// Helper for `lemma_spec_insert`: every order resting after the insertion
/// is indexed.
proof fn lemma_spec_insert_reindex(b: BookV, o: OrderV, qside: OrderSide, k2: int, p2: int)
    requires
        b.wf(),
        o.wf(),
        !b.has_id(o.id),
        0 <= k2 < spec_insert(b, o).levels_of(qside).len(),
        0 <= p2 < spec_insert(b, o).levels_of(qside)[k2].orders.len(),
    ensures
        idx_has(
            spec_insert(b, o).index,
            spec_insert(b, o).levels_of(qside)[k2].orders[p2].id,
            qside,
            spec_insert(b, o).levels_of(qside)[k2].price,
        ),
{
    let side = o.side;
    let ls = b.levels_of(side);
    lemma_lvl_pos(ls, o.price);
    let k = lvl_pos(ls, o.price);
    let grows = k < ls.len() && ls[k].price == o.price;
    let b2 = spec_insert(b, o);
    let idx2 = b2.index;
    let lsq2 = b2.levels_of(qside);
    let lsq = b.levels_of(qside);
    let new_entry = EntryV { id: o.id, side, price: o.price };
    assert(idx2[b.index.len() as int] == new_entry);
    if qside != side {
        assert(lsq2[k2] == lsq[k2]);
        assert(idx_has(b.index, lsq[k2].orders[p2].id, qside, lsq[k2].price));
        let i = choose|i: int| 0 <= i < b.index.len() && (#[trigger] b.index[i]) == (EntryV {
            id: lsq[k2].orders[p2].id,
            side: qside,
            price: lsq[k2].price,
        });
        assert(idx2[i] == b.index[i]);
        assert(idx_has(idx2, lsq2[k2].orders[p2].id, qside, lsq2[k2].price));
    } else {
        if grows {
            if k2 != k {
                assert(lsq2[k2] == lsq[k2]);
                let i = choose|i: int|
                    0 <= i < b.index.len() && (#[trigger] b.index[i]) == (EntryV {
                        id: lsq[k2].orders[p2].id,
                        side: qside,
                        price: lsq[k2].price,
                    });
                assert(idx2[i] == b.index[i]);
                assert(idx_has(idx2, lsq2[k2].orders[p2].id, qside, lsq2[k2].price));
            } else {
                if p2 < lsq[k].orders.len() {
                    assert(lsq2[k].orders[p2] == lsq[k].orders[p2]);
                    let i = choose|i: int|
                        0 <= i < b.index.len() && (#[trigger] b.index[i]) == (EntryV {
                            id: lsq[k].orders[p2].id,
                            side: qside,
                            price: lsq[k].price,
                        });
                    assert(idx2[i] == b.index[i]);
                    assert(idx_has(idx2, lsq2[k2].orders[p2].id, qside, lsq2[k2].price));
                } else {
                    assert(lsq2[k].orders[p2] == o);
                    assert(lsq2[k].price == o.price);
                    assert(idx_has(idx2, o.id, side, o.price));
                }
            }
        } else {
            if k2 < k {
                assert(lsq2[k2] == lsq[k2]);
                let i = choose|i: int|
                    0 <= i < b.index.len() && (#[trigger] b.index[i]) == (EntryV {
                        id: lsq[k2].orders[p2].id,
                        side: qside,
                        price: lsq[k2].price,
                    });
                assert(idx2[i] == b.index[i]);
                assert(idx_has(idx2, lsq2[k2].orders[p2].id, qside, lsq2[k2].price));
            } else if k2 == k {
                assert(lsq2[k].orders[p2] == o);
                assert(lsq2[k].price == o.price);
                assert(idx_has(idx2, o.id, side, o.price));
            } else {
                assert(lsq2[k2] == lsq[k2 - 1]);
                let i = choose|i: int|
                    0 <= i < b.index.len() && (#[trigger] b.index[i]) == (EntryV {
                        id: lsq[k2 - 1].orders[p2].id,
                        side: qside,
                        price: lsq[k2 - 1].price,
                    });
                assert(idx2[i] == b.index[i]);
                assert(idx_has(idx2, lsq2[k2].orders[p2].id, qside, lsq2[k2].price));
            }
        }
    }
}

/// Both ladders of a well-formed book carry non-negative totals.
pub proof fn lemma_ladder_rem_nonneg_book(b: BookV)
    requires
        ladder_wf(b.bids, OrderSide::Buy),
        ladder_wf(b.asks, OrderSide::Sell),
    ensures
        ladder_rem(b.bids) >= 0,
        ladder_rem(b.asks) >= 0,
{
    lemma_ladder_wf_nonneg(b.bids, OrderSide::Buy);
    lemma_ladder_wf_nonneg(b.asks, OrderSide::Sell);
    lemma_ladder_rem_nonneg(b.bids);
    lemma_ladder_rem_nonneg(b.asks);
}

/// After the match loop stops with residual quantity, the incoming order no
/// longer crosses the best opposing level.
pub open spec fn stop_ok(b: BookV, o: OrderV) -> bool {
    let opp = b.levels_of(o.side.opposite());
    opp.len() == 0 || (if o.side is Buy {
        o.price < opp[0].price
    } else {
        o.price > opp[opp.len() - 1].price
    })
}

/// The match loop preserves well-formedness, conserves quantity (each trade
/// takes its quantity from the incoming order and from the book), touches
/// only the opposing ladder, never invents an id, stamps every trade with
/// `now` and the incoming order's id on its own side, and stops only when
/// the incoming order is filled or no longer crosses.
#[verifier::rlimit(100)]
#[verifier::spinoff_prover]
pub proof fn lemma_spec_match(b: BookV, o: OrderV, now: int)
    requires
        b.wf(),
        o.wf(),
        o.is_active(),
    ensures
        ({
            let mr = spec_match(b, o, now);
            &&& mr.book.wf()
            &&& mr.book.symbol == b.symbol
            &&& mr.book.recent_trades == b.recent_trades
            &&& mr.book.max_recent_trades == b.max_recent_trades
            &&& mr.book.levels_of(o.side) == b.levels_of(o.side)
            &&& mr.incoming.id == o.id
            &&& mr.incoming.user_id == o.user_id
            &&& mr.incoming.side == o.side
            &&& mr.incoming.price == o.price
            &&& mr.incoming.original == o.original
            &&& mr.incoming.created_at == o.created_at
            &&& mr.incoming.wf()
            &&& 0 <= mr.incoming.remaining <= o.remaining
            &&& (mr.incoming.remaining > 0 ==> mr.incoming.is_active())
            &&& (mr.trades.len() == 0 ==> mr.book == b && mr.incoming == o)
            &&& trades_qty(mr.trades) == o.remaining - mr.incoming.remaining
            &&& mr.book.total_rem() == b.total_rem() - trades_qty(mr.trades)
            &&& (forall|id2: u128| #[trigger] mr.book.has_id(id2) ==> b.has_id(id2))
            &&& (forall|i: int|
                0 <= i < mr.trades.len() ==> {
                    let t = #[trigger] mr.trades[i];
                    &&& t.quantity >= 1
                    &&& t.timestamp == now
                    &&& (if o.side is Buy {
                        t.buy_order_id == o.id
                    } else {
                        t.sell_order_id == o.id
                    })
                })
            &&& (mr.incoming.remaining > 0 ==> stop_ok(mr.book, mr.incoming))
        }),
    decreases opp_measure1(b, o.side), opp_measure2(b, o.side),
{
    reveal_with_fuel(trades_qty, 3);
    let oppside = o.side.opposite();
    let opp = b.levels_of(oppside);
    let mr = spec_match(b, o, now);
    if opp.len() == 0 {
        assert(mr.trades =~= Seq::<TradeV>::empty());
    } else {
        let k: int = if o.side is Buy {
            0
        } else {
            opp.len() - 1
        };
        let lvl = opp[k];
        assert(level_wf(lvl, oppside));
        let crossing = if o.side is Buy {
            o.price >= lvl.price
        } else {
            o.price <= lvl.price
        };
        let h = lvl.orders[0];
        assert(h.wf() && h.is_active() && h.price == lvl.price && h.side == oppside);
        if !crossing || lvl.orders.len() == 0 || o.remaining <= 0 || !lvl.orders[0].is_active() {
            assert(!crossing);
            assert(mr.trades =~= Seq::<TradeV>::empty());
        } else {
            let x = if o.remaining <= h.remaining {
                o.remaining
            } else {
                h.remaining
            };
            let t = TradeV {
                buy_order_id: if o.side is Buy {
                    o.id
                } else {
                    h.id
                },
                sell_order_id: if o.side is Buy {
                    h.id
                } else {
                    o.id
                },
                price: h.price,
                quantity: x,
                timestamp: now,
            };
            let o2 = o.filled(x, now);
            assert(x >= 1);
            assert(o2.wf());
            assert(seq![t].drop_first() =~= Seq::<TradeV>::empty());
            assert(trades_qty(seq![t]) == x);
            if h.remaining - x == 0 {
                lemma_remove_order(b, oppside, k, 0);
                let b2 = remove_order(b, oppside, k, 0);
                assert(b2.levels_of(oppside.opposite()) == b.levels_of(oppside.opposite()));
                assert(oppside.opposite() == o.side);
                if o2.remaining == 0 {
                    assert(mr == (MatchResult { book: b2, incoming: o2, trades: seq![t] }));
                    assert(mr.book.total_rem() == b.total_rem() - x);
                } else {
                    assert(o2.is_active());
                    lemma_spec_match(b2, o2, now);
                    let mr2 = spec_match(b2, o2, now);
                    assert(mr == (MatchResult {
                        book: mr2.book,
                        incoming: mr2.incoming,
                        trades: seq![t] + mr2.trades,
                    }));
                    lemma_trades_qty_add(seq![t], mr2.trades);
                    assert(trades_qty(mr.trades) == x + trades_qty(mr2.trades));
                    assert forall|i: int| 0 <= i < mr.trades.len() implies {
                        let tr = #[trigger] mr.trades[i];
                        &&& tr.quantity >= 1
                        &&& tr.timestamp == now
                        &&& (if o.side is Buy {
                            tr.buy_order_id == o.id
                        } else {
                            tr.sell_order_id == o.id
                        })
                    } by {
                        if i == 0 {
                            assert(mr.trades[0] == t);
                        } else {
                            assert(mr.trades[i] == mr2.trades[i - 1]);
                        }
                    }
                }
            } else {
                let h2 = h.filled(x, now);
                assert(h2.wf());
                assert(h2.is_active());
                assert(h2.remaining >= 1);
                lemma_update_order(b, oppside, k, 0, h2);
                let b2 = update_order(b, oppside, k, 0, h2);
                assert(oppside.opposite() == o.side);
                assert(mr == (MatchResult { book: b2, incoming: o2, trades: seq![t] }));
                assert(o2.remaining == 0);
                assert(mr.book.total_rem() == b.total_rem() - x);
            }
        }
    }
}

/// Submitting an order preserves well-formedness and conserves quantity:
/// what the book and the incoming order lose, the trades carry twice (once
/// from each side). The id index gains the order's id exactly when a
/// residual rests, and the trades land in the bounded recent buffer.
pub proof fn lemma_spec_add(b: BookV, o: OrderV, now: int)
    requires
        b.wf(),
        o.wf(),
        o.is_active(),
        !b.has_id(o.id),
        b.total_rem() + o.remaining <= u64::MAX,
    ensures
        ({
            let mr = spec_add(b, o, now);
            &&& mr.book.wf()
            &&& mr.book.symbol == b.symbol
            &&& mr.book.max_recent_trades == b.max_recent_trades
            &&& trades_qty(mr.trades) >= 0
            &&& mr.book.total_rem() + 2 * trades_qty(mr.trades) == b.total_rem() + o.remaining
            &&& mr.book.recent_trades == bound_trades(
                b.recent_trades,
                mr.trades,
                b.max_recent_trades,
            )
            &&& (mr.book.has_id(o.id) <==> mr.incoming.remaining > 0)
            &&& (forall|id2: u128|
                id2 != o.id ==> (#[trigger] mr.book.has_id(id2) ==> b.has_id(id2)))
            &&& (forall|i: int|
                0 <= i < mr.trades.len() ==> {
                    let t = #[trigger] mr.trades[i];
                    &&& t.quantity >= 1
                    &&& t.timestamp == now
                    &&& (if o.side is Buy {
                        t.buy_order_id == o.id
                    } else {
                        t.sell_order_id == o.id
                    })
                })
        }),
{
    lemma_spec_match(b, o, now);
    let m = spec_match(b, o, now);
    let mr = spec_add(b, o, now);
    assert(trades_qty(m.trades) == o.remaining - m.incoming.remaining);
    if m.incoming.remaining > 0 {
        assert(m.incoming.is_active());
        assert(stop_ok(m.book, m.incoming));
        lemma_spec_insert(m.book, m.incoming);
        let b2 = spec_insert(m.book, m.incoming);
        assert(b2.has_id(o.id));
    } else {
        assert(!m.book.has_id(o.id)) by {
            if m.book.has_id(o.id) {
                assert(b.has_id(o.id));
            }
        }
    }
    assert forall|id2: u128| id2 != o.id && #[trigger] mr.book.has_id(id2) implies b.has_id(
        id2,
    ) by {
        if m.incoming.remaining > 0 {
            assert(spec_insert(m.book, m.incoming).has_id(id2));
            assert(m.book.has_id(id2));
        } else {
            assert(m.book.has_id(id2));
        }
    }
}

/// Cancellation succeeds exactly when the id is indexed; it removes the
/// order and its entry, prunes an emptied level, keeps the book well
/// formed, reduces the total by the order's residual, and hands the order
/// back cancelled.
pub proof fn lemma_spec_cancel(b: BookV, id: u128, now: int)
    requires
        b.wf(),
    ensures
        b.has_id(id) <==> spec_cancel(b, id, now) is Some,
        spec_cancel(b, id, now) matches Some(res) ==> {
            let (b2, co) = res;
            &&& b2.wf()
            &&& b2.symbol == b.symbol
            &&& b2.recent_trades == b.recent_trades
            &&& b2.max_recent_trades == b.max_recent_trades
            &&& co.id == id
            &&& co.status is Cancelled
            &&& co.remaining >= 1
            &&& co.original >= co.remaining
            &&& b2.total_rem() == b.total_rem() - co.remaining
            &&& (forall|id2: u128| #[trigger] b2.has_id(id2) <==> (b.has_id(id2) && id2 != id))
            &&& (spec_get(b, id) matches Some(orig) && co == orig.cancelled(now))
        },
{
    lemma_locate(b, id);
    if b.has_id(id) {
        let (side, k, p) = spec_locate(b, id)->Some_0;
        lemma_remove_order(b, side, k, p);
        let orig = b.levels_of(side)[k].orders[p];
        assert(level_wf(b.levels_of(side)[k], side));
        assert(orig.wf() && orig.is_active());
    }
}

} // verus!
