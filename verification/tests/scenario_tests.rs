//! End-to-end scenarios on the book, with deterministic ids and clocks.

use matching_engine::{
    LimitOrderBook, Order, OrderId, OrderSide, OrderStatus, Price, Quantity, UserId,
};

fn order_at(id: u128, side: OrderSide, price_cents: i64, quantity: u64, now: i64) -> Order {
    Order::new_at(
        OrderId(id),
        UserId::new("trader".to_string()),
        side,
        Price::from_cents(price_cents).unwrap(),
        Quantity::new(quantity).unwrap(),
        now,
    )
}

#[test]
fn s1_best_price_tracking() {
    let mut book = LimitOrderBook::new("AAPL".to_string()).unwrap();
    let mut all_trades: usize = 0;
    all_trades += book.add_order_at(order_at(1, OrderSide::Buy, 15000, 100, 10), 10).unwrap().len();
    all_trades += book.add_order_at(order_at(2, OrderSide::Buy, 14950, 200, 20), 20).unwrap().len();
    all_trades += book.add_order_at(order_at(3, OrderSide::Sell, 15050, 100, 30), 30).unwrap().len();
    all_trades += book.add_order_at(order_at(4, OrderSide::Sell, 15100, 150, 40), 40).unwrap().len();

    assert_eq!(book.best_bid().unwrap().as_cents(), 15000);
    assert_eq!(book.best_ask().unwrap().as_cents(), 15050);
    assert_eq!(book.spread().unwrap(), 50);
    assert_eq!(all_trades, 0);
}

#[test]
fn s2_cross_and_partial_fill() {
    let mut book = LimitOrderBook::new("AAPL".to_string()).unwrap();
    book.add_order_at(order_at(1, OrderSide::Buy, 15000, 100, 10), 10).unwrap();
    book.add_order_at(order_at(2, OrderSide::Buy, 14950, 200, 20), 20).unwrap();
    book.add_order_at(order_at(3, OrderSide::Sell, 15050, 100, 30), 30).unwrap();
    book.add_order_at(order_at(4, OrderSide::Sell, 15100, 150, 40), 40).unwrap();

    // An incoming buy at 150.60 crosses the best ask (150.50) only.
    let trades = book.add_order_at(order_at(5, OrderSide::Buy, 15060, 350, 50), 50).unwrap();
    assert_eq!(trades.len(), 1);
    assert_eq!(trades[0].price.as_cents(), 15050);
    assert_eq!(trades[0].quantity.value(), 100);

    // The residual 250 does not cross 151.00 and rests as the new best bid.
    assert_eq!(book.best_bid().unwrap().as_cents(), 15060);
    assert_eq!(book.best_ask().unwrap().as_cents(), 15100);
    assert_eq!(book.best_bid_quantity().unwrap().value(), 250);
}

#[test]
fn s3_sweep_multiple_levels() {
    let mut book = LimitOrderBook::new("MSFT".to_string()).unwrap();
    book.add_order_at(order_at(1, OrderSide::Sell, 30000, 100, 10), 10).unwrap();
    book.add_order_at(order_at(2, OrderSide::Sell, 30000, 150, 20), 20).unwrap();
    book.add_order_at(order_at(3, OrderSide::Sell, 30005, 200, 30), 30).unwrap();

    let trades = book.add_order_at(order_at(4, OrderSide::Buy, 30010, 300, 40), 40).unwrap();
    assert_eq!(trades.len(), 3);
    assert_eq!(trades[0].price.as_cents(), 30000);
    assert_eq!(trades[0].quantity.value(), 100);
    assert_eq!(trades[1].price.as_cents(), 30000);
    assert_eq!(trades[1].quantity.value(), 150);
    assert_eq!(trades[2].price.as_cents(), 30005);
    assert_eq!(trades[2].quantity.value(), 50);

    assert_eq!(book.best_ask().unwrap().as_cents(), 30005);
    assert_eq!(book.best_ask_quantity().unwrap().value(), 150);
    assert!(book.best_bid().is_none());
}

#[test]
fn s4_price_time_priority() {
    let mut book = LimitOrderBook::new("GOOGL".to_string()).unwrap();
    // Three bids at the same price, at strictly increasing timestamps.
    book.add_order_at(order_at(1, OrderSide::Buy, 250000, 100, 10), 10).unwrap();
    book.add_order_at(order_at(2, OrderSide::Buy, 250000, 200, 20), 20).unwrap();
    book.add_order_at(order_at(3, OrderSide::Buy, 250000, 150, 30), 30).unwrap();

    let trades = book.add_order_at(order_at(4, OrderSide::Sell, 250000, 100, 40), 40).unwrap();
    assert_eq!(trades.len(), 1);
    assert_eq!(trades[0].buy_order_id, OrderId(1)); // the earliest bid
    assert_eq!(trades[0].quantity.value(), 100);

    let depth = book.market_depth(1);
    assert_eq!(depth.bids[0].quantity.value(), 350);
    assert_eq!(depth.bids[0].price.as_cents(), 250000);
    assert_eq!(book.order_count(), 2);
}

#[test]
fn s5_cancellation() {
    let mut book = LimitOrderBook::new("TSLA".to_string()).unwrap();
    book.add_order_at(order_at(7, OrderSide::Buy, 80000, 100, 10), 10).unwrap();
    book.add_order_at(order_at(8, OrderSide::Buy, 79500, 200, 20), 20).unwrap();
    book.add_order_at(order_at(9, OrderSide::Sell, 80500, 150, 30), 30).unwrap();
    assert_eq!(book.order_count(), 3);

    let cancelled = book.cancel_order_at(OrderId(7), 40).unwrap();
    assert_eq!(cancelled.status, OrderStatus::Cancelled);
    assert_eq!(cancelled.remaining_quantity.value(), 100);
    assert_eq!(book.order_count(), 2);
    assert_eq!(book.best_bid().unwrap().as_cents(), 79500);

    assert_eq!(
        book.cancel_order_at(OrderId(7), 50).unwrap_err(),
        matching_engine::MatchingEngineError::OrderNotFound(7)
    );

    book.cancel_order_at(OrderId(9), 60).unwrap();
    assert!(book.best_ask().is_none());
}

#[test]
fn s6_snapshot_durability() {
    let mut book = LimitOrderBook::new("COMPLEX".to_string()).unwrap();
    // 100 orders forming both ladders.
    let mut i: i64 = 0;
    while i < 50 {
        let bid = order_at((2 * i) as u128 + 1, OrderSide::Buy, 50000 - i * 10, 100, i);
        let ask = order_at((2 * i) as u128 + 2, OrderSide::Sell, 50100 + i * 10, 100, i);
        book.add_order_at(bid, i).unwrap();
        book.add_order_at(ask, i).unwrap();
        i += 1;
    }
    // A crossing order that executes at least one trade.
    let trades = book
        .add_order_at(order_at(1000, OrderSide::Buy, 50150, 500, 60), 60)
        .unwrap();
    assert!(trades.len() >= 1);

    let rebuilt = LimitOrderBook::from_snapshot(book.snapshot());
    assert_eq!(book.best_bid(), rebuilt.best_bid());
    assert_eq!(book.best_ask(), rebuilt.best_ask());
    assert_eq!(book.spread(), rebuilt.spread());
    assert_eq!(book.order_count(), rebuilt.order_count());
    assert_eq!(book.market_depth(10), rebuilt.market_depth(10));

    // An identical follow-up submission yields identical trades and state.
    let mut rebuilt = rebuilt;
    let follow1 = order_at(2000, OrderSide::Sell, 49900, 120, 70);
    let follow2 = order_at(2000, OrderSide::Sell, 49900, 120, 70);
    let t1 = book.add_order_at(follow1, 70).unwrap();
    let t2 = rebuilt.add_order_at(follow2, 70).unwrap();
    assert_eq!(t1, t2);
    assert_eq!(book.best_bid(), rebuilt.best_bid());
    assert_eq!(book.best_ask(), rebuilt.best_ask());
    assert_eq!(book.order_count(), rebuilt.order_count());
    assert_eq!(book.market_depth(100), rebuilt.market_depth(100));
}

#[test]
fn identical_submissions_are_deterministic() {
    let mut book1 = LimitOrderBook::new("TEST".to_string()).unwrap();
    let mut book2 = LimitOrderBook::new("TEST".to_string()).unwrap();
    let script: [(u128, bool, i64, u64); 6] = [
        (1, true, 10000, 50),
        (2, false, 10010, 70),
        (3, true, 10020, 90),
        (4, false, 9990, 40),
        (5, true, 9980, 30),
        (6, false, 9980, 200),
    ];
    let mut trades1 = Vec::new();
    let mut trades2 = Vec::new();
    let mut t: i64 = 0;
    for (id, is_buy, price, qty) in script {
        let side = if is_buy { OrderSide::Buy } else { OrderSide::Sell };
        trades1.extend(book1.add_order_at(order_at(id, side, price, qty, t), t).unwrap());
        trades2.extend(book2.add_order_at(order_at(id, side, price, qty, t), t).unwrap());
        t += 1;
    }
    assert_eq!(trades1, trades2);
    assert_eq!(book1.best_bid(), book2.best_bid());
    assert_eq!(book1.best_ask(), book2.best_ask());
    assert_eq!(book1.order_count(), book2.order_count());
    assert_eq!(book1.market_depth(100), book2.market_depth(100));
}

#[test]
fn quantity_is_conserved_across_matching() {
    let mut book = LimitOrderBook::new("TEST".to_string()).unwrap();
    let script: [(u128, bool, i64, u64); 7] = [
        (1, true, 10000, 500),
        (2, false, 10005, 300),
        (3, true, 10005, 450),
        (4, false, 9995, 600),
        (5, true, 9990, 100),
        (6, false, 9990, 800),
        (7, true, 10010, 250),
    ];
    let mut submitted: u64 = 0;
    let mut traded: u64 = 0;
    let mut t: i64 = 0;
    for (id, is_buy, price, qty) in script {
        let side = if is_buy { OrderSide::Buy } else { OrderSide::Sell };
        submitted += qty;
        for trade in book.add_order_at(order_at(id, side, price, qty, t), t).unwrap() {
            traded += trade.quantity.value();
        }
        t += 1;
    }
    let depth = book.market_depth(1000);
    let resting: u64 = depth.bids.iter().map(|l| l.quantity.value()).sum::<u64>()
        + depth.asks.iter().map(|l| l.quantity.value()).sum::<u64>();
    // Each trade consumes one unit from each side.
    assert_eq!(submitted, resting + 2 * traded);

    // No crossed market and non-negative spread at the quiescent point.
    if let (Some(bid), Some(ask)) = (book.best_bid(), book.best_ask()) {
        assert!(bid <= ask);
    }
    if let Some(spread) = book.spread() {
        assert!(spread >= 0);
    }

    // Depth sort: bids strictly decreasing, asks strictly increasing.
    for w in depth.bids.windows(2) {
        assert!(w[0].price > w[1].price);
    }
    for w in depth.asks.windows(2) {
        assert!(w[0].price < w[1].price);
    }
}

#[test]
fn recent_trades_buffer_is_bounded() {
    let mut book = LimitOrderBook::new("TEST".to_string()).unwrap();
    let mut t: i64 = 0;
    let mut id: u128 = 1;
    // 1100 one-unit crossings produce 1100 trades; only 1000 are kept.
    while t < 1100 {
        book.add_order_at(order_at(id, OrderSide::Buy, 10000, 1, t), t).unwrap();
        let trades = book.add_order_at(order_at(id + 1, OrderSide::Sell, 10000, 1, t), t).unwrap();
        assert_eq!(trades.len(), 1);
        id += 2;
        t += 1;
    }
    assert_eq!(book.recent_trades().len(), 1000);
    // The oldest trades were dropped: the first kept one is from round 100.
    assert_eq!(book.recent_trades()[0].timestamp, 100);
    assert_eq!(book.recent_trades()[999].timestamp, 1099);
}

#[test]
fn symbols_are_normalized_to_upper_case() {
    let book = LimitOrderBook::new("aapl".to_string()).unwrap();
    assert_eq!(book.symbol().as_str(), "AAPL");
}
