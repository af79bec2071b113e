//! The book's laws, stated and proved over the model.
//!
//! Each proof function here is a property of every well-formed book; the
//! executable engine's contracts pin its results to the model functions
//! these laws speak about (`spec_add`, `spec_cancel`, `spec_get`), so the
//! laws carry over to the running code.

use vstd::prelude::*;

use crate::model::{
    lemma_locate, lemma_spec_add, lemma_spec_cancel, level_wf, spec_add, spec_cancel, spec_get,
    spec_match, trades_qty, BookV, LevelV, TradeV,
};
use crate::order::{OrderSide, OrderV};

verus! {

/// No crossed market: whenever both a best bid and a best ask exist, the
/// best bid is at most the best ask.
pub proof fn lemma_no_crossed_market(b: BookV)
    requires
        b.wf(),
    ensures
        b.best_bid() is Some && b.best_ask() is Some ==> b.best_bid()->Some_0
            <= b.best_ask()->Some_0,
{
    if b.bids.len() > 0 && b.asks.len() > 0 {
        assert(b.bids.last().price < b.asks[0].price);
    }
}

/// Non-negative spread: whenever the spread is defined, it is at least
/// zero.
pub proof fn lemma_non_negative_spread(b: BookV)
    requires
        b.wf(),
    ensures
        b.spread() matches Some(s) ==> s >= 0,
{
}

/// Index bijection: entry ids are distinct, every entry routes to a level
/// at its price holding its order, and every resting order has an entry
/// with its side and price.
pub proof fn lemma_index_bijection(b: BookV)
    requires
        b.wf(),
    ensures
        forall|i: int, j: int|
            #![trigger b.index[i].id, b.index[j].id]
            0 <= i < j < b.index.len() ==> b.index[i].id != b.index[j].id,
        forall|i: int|
            0 <= i < b.index.len() ==> {
                let e = #[trigger] b.index[i];
                crate::model::ladder_has_at(b.levels_of(e.side), e.price, e.id)
            },
        forall|k: int, p: int|
            #![trigger b.bids[k].orders[p]]
            0 <= k < b.bids.len() && 0 <= p < b.bids[k].orders.len() ==> crate::model::idx_has(
                b.index,
                b.bids[k].orders[p].id,
                OrderSide::Buy,
                b.bids[k].price,
            ),
        forall|k: int, p: int|
            #![trigger b.asks[k].orders[p]]
            0 <= k < b.asks.len() && 0 <= p < b.asks[k].orders.len() ==> crate::model::idx_has(
                b.index,
                b.asks[k].orders[p].id,
                OrderSide::Sell,
                b.asks[k].price,
            ),
{
}

/// No empty levels: every price level on either ladder holds at least one
/// order.
pub proof fn lemma_no_empty_levels(b: BookV)
    requires
        b.wf(),
    ensures
        forall|k: int| 0 <= k < b.bids.len() ==> (#[trigger] b.bids[k]).orders.len() >= 1,
        forall|k: int| 0 <= k < b.asks.len() ==> (#[trigger] b.asks[k]).orders.len() >= 1,
{
    assert forall|k: int| 0 <= k < b.bids.len() implies (#[trigger] b.bids[k]).orders.len()
        >= 1 by {
        assert(level_wf(b.bids[k], OrderSide::Buy));
    }
    assert forall|k: int| 0 <= k < b.asks.len() implies (#[trigger] b.asks[k]).orders.len()
        >= 1 by {
        assert(level_wf(b.asks[k], OrderSide::Sell));
    }
}

/// Resting orders active: every order resting on either ladder can still
/// match and has residual quantity.
pub proof fn lemma_resting_orders_active(b: BookV)
    requires
        b.wf(),
    ensures
        forall|k: int, p: int|
            #![trigger b.bids[k].orders[p]]
            0 <= k < b.bids.len() && 0 <= p < b.bids[k].orders.len() ==> (b.bids[k].orders[
                p
            ].is_active() && b.bids[k].orders[p].remaining >= 1),
        forall|k: int, p: int|
            #![trigger b.asks[k].orders[p]]
            0 <= k < b.asks.len() && 0 <= p < b.asks[k].orders.len() ==> (b.asks[k].orders[
                p
            ].is_active() && b.asks[k].orders[p].remaining >= 1),
{
    assert forall|k: int, p: int|
        #![trigger b.bids[k].orders[p]]
        0 <= k < b.bids.len() && 0 <= p < b.bids[k].orders.len() implies (b.bids[k].orders[
        p
    ].is_active() && b.bids[k].orders[p].remaining >= 1) by {
        assert(level_wf(b.bids[k], OrderSide::Buy));
        assert(b.bids[k].orders[p].wf());
    }
    assert forall|k: int, p: int|
        #![trigger b.asks[k].orders[p]]
        0 <= k < b.asks.len() && 0 <= p < b.asks[k].orders.len() implies (b.asks[k].orders[
        p
    ].is_active() && b.asks[k].orders[p].remaining >= 1) by {
        assert(level_wf(b.asks[k], OrderSide::Sell));
        assert(b.asks[k].orders[p].wf());
    }
}

/// The id of the resting order a trade executed against.
pub open spec fn resting_id(t: TradeV, incoming_side: OrderSide) -> u128 {
    if incoming_side is Buy {
        t.sell_order_id
    } else {
        t.buy_order_id
    }
}

/// FIFO time priority: when matching trades at all, its first trade
/// executes against the order at the front of the best opposing level's
/// FIFO, and a partially filled front order keeps its place; deeper orders
/// are reached only after every order ahead of them is filled away.
pub proof fn lemma_fifo_head_priority(b: BookV, o: OrderV, now: int)
    requires
        b.wf(),
        o.wf(),
        o.is_active(),
    ensures
        ({
            let mr = spec_match(b, o, now);
            mr.trades.len() > 0 ==> {
                let opp = b.levels_of(o.side.opposite());
                let k: int = if o.side is Buy {
                    0
                } else {
                    opp.len() - 1
                };
                resting_id(mr.trades[0], o.side) == opp[k].orders[0].id
            }
        }),
{
    let mr = spec_match(b, o, now);
    let opp = b.levels_of(o.side.opposite());
    if mr.trades.len() > 0 {
        let k: int = if o.side is Buy {
            0
        } else {
            opp.len() - 1
        };
        assert(level_wf(opp[k], o.side.opposite()));
    }
}

/// True when some trade in the list executed against the resting order
/// carrying `id`.
pub open spec fn trades_has(ts: Seq<TradeV>, incoming_side: OrderSide, id: u128) -> bool {
    exists|i: int| 0 <= i < ts.len() && resting_id(#[trigger] ts[i], incoming_side) == id
}

/// The position of the first trade against the resting order carrying
/// `id`, or the length when there is none.
pub open spec fn trades_pos(ts: Seq<TradeV>, incoming_side: OrderSide, id: u128) -> int
    decreases ts.len(),
{
    if ts.len() == 0 {
        0
    } else if resting_id(ts[0], incoming_side) == id {
        0
    } else {
        1 + trades_pos(ts.drop_first(), incoming_side, id)
    }
}

proof fn lemma_trades_pos(ts: Seq<TradeV>, incoming_side: OrderSide, id: u128)
    ensures
        0 <= trades_pos(ts, incoming_side, id) <= ts.len(),
        trades_pos(ts, incoming_side, id) < ts.len() ==> resting_id(
            ts[trades_pos(ts, incoming_side, id)],
            incoming_side,
        ) == id,
        trades_has(ts, incoming_side, id) <==> trades_pos(ts, incoming_side, id) < ts.len(),
    decreases ts.len(),
{
    if ts.len() > 0 && resting_id(ts[0], incoming_side) != id {
        lemma_trades_pos(ts.drop_first(), incoming_side, id);
        if trades_has(ts, incoming_side, id) {
            let i = choose|i: int|
                0 <= i < ts.len() && resting_id(#[trigger] ts[i], incoming_side) == id;
            assert(i > 0);
            assert(ts.drop_first()[i - 1] == ts[i]);
            assert(trades_has(ts.drop_first(), incoming_side, id));
        }
        if trades_has(ts.drop_first(), incoming_side, id) {
            let i = choose|i: int|
                0 <= i < ts.drop_first().len() && resting_id(
                    #[trigger] ts.drop_first()[i],
                    incoming_side,
                ) == id;
            assert(ts[i + 1] == ts.drop_first()[i]);
            assert(trades_has(ts, incoming_side, id));
        }
    }
}

/// FIFO time priority, in full: for two orders resting at any one level of
/// the opposing ladder with `p` ahead of `q` in the FIFO, whenever the
/// match loop trades against `q`'s order at all, it has already traded
/// against `p`'s order at a strictly earlier position in the trade list.
#[verifier::rlimit(100)]
#[verifier::spinoff_prover]
pub proof fn lemma_fifo_time_priority(b: BookV, o: OrderV, now: int, level: int, p: int, q: int)
    requires
        b.wf(),
        o.wf(),
        o.is_active(),
        0 <= level < b.levels_of(o.side.opposite()).len(),
        0 <= p < q < b.levels_of(o.side.opposite())[level].orders.len(),
    ensures
        ({
            let opp = b.levels_of(o.side.opposite());
            let mr = spec_match(b, o, now);
            trades_has(mr.trades, o.side, opp[level].orders[q].id) ==> {
                &&& trades_has(mr.trades, o.side, opp[level].orders[p].id)
                &&& trades_pos(mr.trades, o.side, opp[level].orders[p].id) < trades_pos(
                    mr.trades,
                    o.side,
                    opp[level].orders[q].id,
                )
            }
        }),
    decreases crate::model::opp_measure1(b, o.side), crate::model::opp_measure2(b, o.side),
{
    let oppside = o.side.opposite();
    let opp = b.levels_of(oppside);
    let k: int = if o.side is Buy {
        0
    } else {
        opp.len() - 1
    };
    let lvl = opp[k];
    let mr = spec_match(b, o, now);
    assert(level_wf(lvl, oppside));
    assert(level_wf(opp[level], oppside));
    let h = lvl.orders[0];
    let idp = opp[level].orders[p].id;
    let idq = opp[level].orders[q].id;
    assert(idp != idq);
    // Neither order deeper in a queue is the head of the best level: the
    // head either is p's own order (level == k, p == 0), or carries another
    // id, within its level by the level's distinctness and across levels by
    // the book-wide uniqueness of ids.
    if level != k {
        if idq == h.id {
            crate::model::lemma_id_unique(b, oppside, level, q, oppside, k, 0);
            assert(false);
        }
        if idp == h.id {
            crate::model::lemma_id_unique(b, oppside, level, p, oppside, k, 0);
            assert(false);
        }
    } else {
        assert(idq != h.id);
    }
    let crossing = if o.side is Buy {
        o.price >= lvl.price
    } else {
        o.price <= lvl.price
    };
    if !crossing || o.remaining <= 0 {
        assert(mr.trades.len() == 0);
        if trades_has(mr.trades, o.side, idq) {
            let i = choose|i: int|
                0 <= i < mr.trades.len() && resting_id(#[trigger] mr.trades[i], o.side) == idq;
            assert(false);
        }
    } else {
        let x = if o.remaining <= h.remaining {
            o.remaining
        } else {
            h.remaining
        };
        let o2 = o.filled(x, now);
        if h.remaining - x == 0 && o2.remaining > 0 {
            // The head was consumed and matching went on.
            let b2 = crate::model::remove_order(b, oppside, k, 0);
            crate::model::lemma_remove_order(b, oppside, k, 0);
            let mr2 = spec_match(b2, o2, now);
            let t0 = TradeV {
                buy_order_id: if o.side is Buy {
                    o.id
                } else {
                    h.id
                },
                sell_order_id: if o.side is Buy {
                    h.id
                } else {
                    o.id
                },
                price: h.price,
                quantity: x,
                timestamp: now,
            };
            assert(mr.trades == seq![t0] + mr2.trades);
            assert(mr.trades[0] == t0);
            assert(resting_id(t0, o.side) == h.id);
            assert(mr.trades.drop_first() =~= mr2.trades);
            let opp2 = b2.levels_of(oppside);
            let pruned = lvl.orders.len() == 1;
            assert(o2.side == o.side && o2.wf() && o2.is_active());
            if level == k {
                // The touched level itself: with q behind p it holds at
                // least two orders, so it was not pruned.
                assert(!pruned);
                let lvl2 = LevelV { price: lvl.price, orders: lvl.orders.remove(0) };
                assert(opp2 == opp.update(k, lvl2));
                let k2: int = if o.side is Buy {
                    0
                } else {
                    opp2.len() - 1
                };
                assert(k2 == k);
                assert(opp2[k2] == lvl2);
                if p == 0 {
                    // The head is p's own order: its trade stands first.
                    if trades_has(mr.trades, o.side, idq) {
                        assert(resting_id(mr.trades[0], o.side) == idp);
                        assert(trades_has(mr.trades, o.side, idp));
                        lemma_trades_pos(mr.trades, o.side, idp);
                        lemma_trades_pos(mr.trades, o.side, idq);
                        assert(trades_pos(mr.trades, o.side, idp) == 0);
                        assert(trades_pos(mr.trades, o.side, idq) > 0);
                    }
                } else {
                    assert(lvl2.orders[p - 1] == lvl.orders[p]);
                    assert(lvl2.orders[q - 1] == lvl.orders[q]);
                    assert(idp != h.id);
                    lemma_fifo_time_priority(b2, o2, now, k2, p - 1, q - 1);
                    lemma_fifo_lift(mr.trades, mr2.trades, t0, o.side, h.id, idp, idq);
                }
            } else {
                // An untouched level: it survives unchanged, at the same
                // index or shifted by the pruned best level.
                let level2: int = if pruned && o.side is Buy {
                    level - 1
                } else {
                    level
                };
                if pruned {
                    assert(opp2 == opp.remove(k));
                    if o.side is Buy {
                        assert(opp2[level2] == opp[level]);
                    } else {
                        assert(level < k);
                        assert(opp2[level2] == opp[level]);
                    }
                } else {
                    let lvl2 = LevelV { price: lvl.price, orders: lvl.orders.remove(0) };
                    assert(opp2 == opp.update(k, lvl2));
                    assert(opp2[level2] == opp[level]);
                }
                lemma_fifo_time_priority(b2, o2, now, level2, p, q);
                lemma_fifo_lift(mr.trades, mr2.trades, t0, o.side, h.id, idp, idq);
            }
        } else {
            // At most the single head trade happened; q's order was never
            // touched.
            assert(mr.trades.len() <= 1);
            if trades_has(mr.trades, o.side, idq) {
                let i = choose|i: int|
                    0 <= i < mr.trades.len() && resting_id(#[trigger] mr.trades[i], o.side) == idq;
                assert(i == 0);
                assert(resting_id(mr.trades[0], o.side) == h.id);
                assert(false);
            }
        }
    }
}

/// Lifts the FIFO conclusion over one leading trade against the head: when
/// neither id is the head's, membership and relative order in the tail
/// carry to the whole list, one position later.
proof fn lemma_fifo_lift(
    whole: Seq<TradeV>,
    tail: Seq<TradeV>,
    t0: TradeV,
    incoming_side: OrderSide,
    head_id: u128,
    idp: u128,
    idq: u128,
)
    requires
        whole == seq![t0] + tail,
        resting_id(t0, incoming_side) == head_id,
        idp != head_id,
        idq != head_id,
        trades_has(tail, incoming_side, idq) ==> (trades_has(tail, incoming_side, idp)
            && trades_pos(tail, incoming_side, idp) < trades_pos(tail, incoming_side, idq)),
    ensures
        trades_has(whole, incoming_side, idq) ==> (trades_has(whole, incoming_side, idp)
            && trades_pos(whole, incoming_side, idp) < trades_pos(whole, incoming_side, idq)),
{
    assert(whole[0] == t0);
    assert(whole.drop_first() =~= tail);
    if trades_has(whole, incoming_side, idq) {
        let i = choose|i: int|
            0 <= i < whole.len() && resting_id(#[trigger] whole[i], incoming_side) == idq;
        assert(i > 0);
        assert(tail[i - 1] == whole[i]);
        assert(trades_has(tail, incoming_side, idq));
        let j = choose|j: int|
            0 <= j < tail.len() && resting_id(#[trigger] tail[j], incoming_side) == idp;
        assert(whole[j + 1] == tail[j]);
        assert(trades_has(whole, incoming_side, idp));
        assert(trades_pos(whole, incoming_side, idp) == 1 + trades_pos(
            tail,
            incoming_side,
            idp,
        ));
        assert(trades_pos(whole, incoming_side, idq) == 1 + trades_pos(
            tail,
            incoming_side,
            idq,
        ));
    }
}

/// One operation on the book: a submission or a cancellation.
pub enum BookOp {
    Submit(OrderV),
    Cancel(u128),
}

/// A sequence of operations folded over the book. Beside the final book it
/// accumulates the total traded quantity and the total residual quantity
/// returned by cancellations.
pub open spec fn spec_run(b: BookV, ops: Seq<BookOp>, now: int) -> (BookV, int, int)
    decreases ops.len(),
{
    if ops.len() == 0 {
        (b, 0, 0)
    } else {
        match ops[0] {
            BookOp::Submit(o) => {
                let mr = spec_add(b, o, now);
                let rest = spec_run(mr.book, ops.drop_first(), now);
                (rest.0, trades_qty(mr.trades) + rest.1, rest.2)
            },
            BookOp::Cancel(id) => match spec_cancel(b, id, now) {
                Some(res) => {
                    let rest = spec_run(res.0, ops.drop_first(), now);
                    (rest.0, rest.1, res.1.remaining + rest.2)
                },
                None => spec_run(b, ops.drop_first(), now),
            },
        }
    }
}

/// The total residual quantity the submissions of an operation sequence
/// bring in.
pub open spec fn ops_sum(ops: Seq<BookOp>) -> int
    decreases ops.len(),
{
    if ops.len() == 0 {
        0
    } else {
        (match ops[0] {
            BookOp::Submit(o) => o.remaining,
            BookOp::Cancel(_) => 0,
        }) + ops_sum(ops.drop_first())
    }
}

/// A sequence of operations a book accepts: every submitted order well
/// formed, active, fresh, its id neither in the book nor equal to any other
/// submitted id.
pub open spec fn ops_submittable(b: BookV, ops: Seq<BookOp>) -> bool {
    &&& forall|i: int|
        0 <= i < ops.len() ==> ((#[trigger] ops[i]) is Submit ==> {
            let o = ops[i]->Submit_0;
            o.wf() && o.is_active() && o.remaining == o.original && !b.has_id(o.id)
        })
    &&& forall|i: int, j: int|
        #![trigger ops[i], ops[j]]
        0 <= i < j < ops.len() ==> ((ops[i] is Submit && ops[j] is Submit)
            ==> ops[i]->Submit_0.id != ops[j]->Submit_0.id)
}

/// Quantity conservation over any mix of submissions and cancellations:
/// the quantity brought in equals the quantity still resting, plus twice
/// the quantity traded, plus the residual quantity handed back by
/// cancellations. The book stays well formed throughout.
pub proof fn lemma_conservation_with_cancels(b: BookV, ops: Seq<BookOp>, now: int)
    requires
        b.wf(),
        ops_submittable(b, ops),
        b.total_rem() + ops_sum(ops) <= u64::MAX,
    ensures
        ({
            let (b2, traded, returned) = spec_run(b, ops, now);
            &&& b2.wf()
            &&& traded >= 0
            &&& returned >= 0
            &&& b2.total_rem() + 2 * traded + returned == b.total_rem() + ops_sum(ops)
        }),
    decreases ops.len(),
{
    if ops.len() > 0 {
        assert forall|i: int| 0 <= i < ops.drop_first().len() implies ((#[trigger] ops.drop_first()[
            i
        ]) is Submit ==> ops.drop_first()[i]->Submit_0.remaining >= 0) by {
            assert(ops.drop_first()[i] == ops[i + 1]);
        }
        lemma_ops_sum_nonneg(ops.drop_first());
        match ops[0] {
            BookOp::Submit(o) => {
                assert(o.wf() && o.is_active() && !b.has_id(o.id));
                assert(ops_sum(ops) == o.remaining + ops_sum(ops.drop_first()));
                lemma_spec_add(b, o, now);
                let mr = spec_add(b, o, now);
                assert(ops_submittable(mr.book, ops.drop_first())) by {
                    lemma_ops_tail_submittable(b, mr.book, o.id, ops);
                }
                lemma_conservation_with_cancels(mr.book, ops.drop_first(), now);
            },
            BookOp::Cancel(id) => {
                lemma_spec_cancel(b, id, now);
                match spec_cancel(b, id, now) {
                    Some(res) => {
                        assert(ops_submittable(res.0, ops.drop_first())) by {
                            lemma_ops_tail_submittable(b, res.0, id, ops);
                        }
                        lemma_conservation_with_cancels(res.0, ops.drop_first(), now);
                    },
                    None => {
                        assert(ops_submittable(b, ops.drop_first())) by {
                            lemma_ops_tail_submittable(b, b, id, ops);
                        }
                        lemma_conservation_with_cancels(b, ops.drop_first(), now);
                    },
                }
            },
        }
    }
}

/// The submissions of an accepted sequence stay accepted after one step
/// whose book never gains an id other than (possibly) `stepped_id`.
proof fn lemma_ops_tail_submittable(b: BookV, b2: BookV, stepped_id: u128, ops: Seq<BookOp>)
    requires
        ops.len() > 0,
        ops_submittable(b, ops),
        forall|id2: u128| id2 != stepped_id ==> (#[trigger] b2.has_id(id2) ==> b.has_id(id2)),
        ops[0] is Submit ==> ops[0]->Submit_0.id == stepped_id,
        ops[0] is Cancel ==> (forall|id2: u128| #[trigger] b2.has_id(id2) ==> b.has_id(id2)),
    ensures
        ops_submittable(b2, ops.drop_first()),
{
    let tail = ops.drop_first();
    assert forall|i: int| 0 <= i < tail.len() implies ((#[trigger] tail[i]) is Submit ==> {
        let o = tail[i]->Submit_0;
        o.wf() && o.is_active() && o.remaining == o.original && !b2.has_id(o.id)
    }) by {
        assert(tail[i] == ops[i + 1]);
        if tail[i] is Submit {
            let o = tail[i]->Submit_0;
            assert(!b.has_id(o.id));
            if b2.has_id(o.id) {
                if o.id != stepped_id {
                    assert(b.has_id(o.id));
                    assert(false);
                } else if ops[0] is Submit {
                    // The stepped id is the first submission's, which this
                    // order cannot share.
                    assert(ops[0]->Submit_0.id != o.id);
                    assert(false);
                } else {
                    // A cancellation never adds an id.
                    assert(b.has_id(o.id));
                    assert(false);
                }
            }
        }
    }
    assert forall|i: int, j: int|
        #![trigger tail[i], tail[j]]
        0 <= i < j < tail.len() implies ((tail[i] is Submit && tail[j] is Submit)
        ==> tail[i]->Submit_0.id != tail[j]->Submit_0.id) by {
        assert(tail[i] == ops[i + 1]);
        assert(tail[j] == ops[j + 1]);
    }
}

proof fn lemma_ops_sum_nonneg(ops: Seq<BookOp>)
    requires
        forall|i: int|
            0 <= i < ops.len() ==> ((#[trigger] ops[i]) is Submit ==> ops[i]->Submit_0.remaining
                >= 0),
    ensures
        ops_sum(ops) >= 0,
    decreases ops.len(),
{
    if ops.len() > 0 {
        assert forall|i: int| 0 <= i < ops.drop_first().len() implies ((#[trigger] ops.drop_first()[
            i
        ]) is Submit ==> ops.drop_first()[i]->Submit_0.remaining >= 0) by {
            assert(ops.drop_first()[i] == ops[i + 1]);
        }
        lemma_ops_sum_nonneg(ops.drop_first());
    }
}

/// Cancellation is total on resting ids: when `spec_get` finds an order,
/// cancellation succeeds and hands that order back cancelled; afterwards
/// both a second cancellation and a lookup of the same id fail.
pub proof fn lemma_cancellation_total(b: BookV, id: u128, now: int, later: int)
    requires
        b.wf(),
    ensures
        spec_get(b, id) is Some <==> b.has_id(id),
        b.has_id(id) ==> ({
            let res = spec_cancel(b, id, now);
            &&& res is Some
            &&& res->Some_0.1 == spec_get(b, id)->Some_0.cancelled(now)
            &&& res->Some_0.1.status is Cancelled
            &&& !res->Some_0.0.has_id(id)
            &&& spec_cancel(res->Some_0.0, id, later) is None
            &&& spec_get(res->Some_0.0, id) is None
        }),
        !b.has_id(id) ==> spec_cancel(b, id, now) is None,
{
    lemma_locate(b, id);
    lemma_spec_cancel(b, id, now);
    if b.has_id(id) {
        let b2 = spec_cancel(b, id, now)->Some_0.0;
        lemma_locate(b2, id);
        lemma_spec_cancel(b2, id, later);
    }
}

/// Snapshot round-trip: every observable of the book, and the outcome of
/// any further submission, is a function of the book's view alone; a
/// rebuilt book with the same view (which `from_snapshot` of a `snapshot`
/// yields, by their contracts) answers every query and matches every
/// further order exactly as the original.
pub proof fn lemma_snapshot_round_trip(b1: BookV, b2: BookV, o: OrderV, id: u128, now: int)
    requires
        b1.wf(),
        b2 == b1,
    ensures
        b2.wf(),
        b2.best_bid() == b1.best_bid(),
        b2.best_ask() == b1.best_ask(),
        b2.spread() == b1.spread(),
        b2.index.len() == b1.index.len(),
        spec_get(b2, id) == spec_get(b1, id),
        spec_add(b2, o, now) == spec_add(b1, o, now),
        spec_cancel(b2, id, now) == spec_cancel(b1, id, now),
{
}

/// Determinism: running the same sequence of submissions and cancellations
/// with the same injected clock against two books in the same state yields
/// the same trades and the same final state. The executable entry points
/// are pinned to `spec_add` and `spec_cancel`, so two runs of the engine
/// agree as well.
pub proof fn lemma_determinism(b1: BookV, b2: BookV, ops: Seq<BookOp>, now: int)
    requires
        b2 == b1,
    ensures
        spec_run(b2, ops, now) == spec_run(b1, ops, now),
{
}

} // verus!
