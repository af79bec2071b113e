use matching_engine::{
    LimitOrderBook, Order, OrderId, OrderSide, OrderStatus, Price, Quantity, UserId,
};

fn create_test_order(side: OrderSide, price_cents: i64, quantity: u64) -> Order {
    Order::new(
        OrderId::new(),
        UserId::new("test_user".to_string()),
        side,
        Price::from_cents(price_cents).unwrap(),
        Quantity::new(quantity).unwrap(),
    )
}

#[test]
fn test_order_book_creation() {
    let book = LimitOrderBook::new("AAPL".to_string()).unwrap();
    assert_eq!(book.symbol().as_str(), "AAPL");
    assert!(book.is_empty());
    assert_eq!(book.order_count(), 0);
}

#[test]
fn test_best_bid_ask() {
    let mut book = LimitOrderBook::new("AAPL".to_string()).unwrap();

    // Initially empty
    assert_eq!(book.best_bid(), None);
    assert_eq!(book.best_ask(), None);
    assert_eq!(book.spread(), None);

    // Add some orders
    let buy1 = create_test_order(OrderSide::Buy, 15000, 100); // $150.00
    let buy2 = create_test_order(OrderSide::Buy, 14950, 200); // $149.50
    let sell1 = create_test_order(OrderSide::Sell, 15050, 100); // $150.50
    let sell2 = create_test_order(OrderSide::Sell, 15100, 150); // $151.00

    book.add_order(buy1).unwrap();
    book.add_order(buy2).unwrap();
    book.add_order(sell1).unwrap();
    book.add_order(sell2).unwrap();

    // Check best prices
    assert_eq!(book.best_bid().unwrap().as_cents(), 15000); // Highest buy
    assert_eq!(book.best_ask().unwrap().as_cents(), 15050); // Lowest sell

    // Check spread
    let spread = book.spread().unwrap();
    assert_eq!(spread, 50); // $0.50 spread, in cents
}

#[test]
fn test_market_depth() {
    let mut book = LimitOrderBook::new("AAPL".to_string()).unwrap();

    // Add multiple orders at different levels
    book.add_order(create_test_order(OrderSide::Buy, 15000, 100)).unwrap();
    book.add_order(create_test_order(OrderSide::Buy, 15000, 200)).unwrap(); // Same price
    book.add_order(create_test_order(OrderSide::Buy, 14950, 150)).unwrap();

    book.add_order(create_test_order(OrderSide::Sell, 15050, 80)).unwrap();
    book.add_order(create_test_order(OrderSide::Sell, 15100, 120)).unwrap();

    let depth = book.market_depth(3);

    // Check bid levels (should be sorted highest to lowest)
    assert_eq!(depth.bids.len(), 2);
    assert_eq!(depth.bids[0].price.as_cents(), 15000);
    assert_eq!(depth.bids[0].quantity.value(), 300); // 100 + 200
    assert_eq!(depth.bids[0].order_count, 2);

    assert_eq!(depth.bids[1].price.as_cents(), 14950);
    assert_eq!(depth.bids[1].quantity.value(), 150);
    assert_eq!(depth.bids[1].order_count, 1);

    // Check ask levels (should be sorted lowest to highest)
    assert_eq!(depth.asks.len(), 2);
    assert_eq!(depth.asks[0].price.as_cents(), 15050);
    assert_eq!(depth.asks[0].quantity.value(), 80);

    assert_eq!(depth.asks[1].price.as_cents(), 15100);
    assert_eq!(depth.asks[1].quantity.value(), 120);
}

#[test]
fn order_book_test_order_matching() {
    let mut book = LimitOrderBook::new("AAPL".to_string()).unwrap();

    // Add a sell order first
    let sell_order = create_test_order(OrderSide::Sell, 15000, 100);
    book.add_order(sell_order).unwrap();

    // Add a matching buy order
    let buy_order = create_test_order(OrderSide::Buy, 15000, 80);
    let trades = book.add_order(buy_order).unwrap();

    // Should have executed one trade
    assert_eq!(trades.len(), 1);
    assert_eq!(trades[0].price.as_cents(), 15000);
    assert_eq!(trades[0].quantity.value(), 80);

    // Sell order should have remaining quantity
    assert_eq!(book.best_ask_quantity().unwrap().value(), 20);
}

#[test]
fn test_order_cancellation() {
    let mut book = LimitOrderBook::new("AAPL".to_string()).unwrap();

    let order = create_test_order(OrderSide::Buy, 15000, 100);
    let order_id = order.id;

    book.add_order(order).unwrap();
    assert_eq!(book.order_count(), 1);

    let cancelled_order = book.cancel_order(order_id).unwrap();
    assert_eq!(cancelled_order.status, OrderStatus::Cancelled);
    assert_eq!(book.order_count(), 0);
    assert!(book.is_empty());
}

#[test]
fn get_order_finds_resting_orders_only() {
    let mut book = LimitOrderBook::new("AAPL".to_string()).unwrap();
    let order = create_test_order(OrderSide::Sell, 15000, 40);
    let id = order.id;
    book.add_order(order).unwrap();

    let found = book.get_order(id).unwrap();
    assert_eq!(found.remaining_quantity.value(), 40);
    assert_eq!(found.status, OrderStatus::Active);

    assert!(book.get_order(OrderId(123456789)).is_none());

    book.cancel_order(id).unwrap();
    assert!(book.get_order(id).is_none());
}

#[test]
fn rejects_inactive_incoming_orders() {
    let mut book = LimitOrderBook::new("AAPL".to_string()).unwrap();
    let mut order = create_test_order(OrderSide::Buy, 15000, 100);
    order.cancel();
    let err = book.add_order(order).unwrap_err();
    assert!(matches!(err, matching_engine::MatchingEngineError::InvalidOrderSide));
    assert!(book.is_empty());
}

#[test]
fn invalid_symbols_are_rejected() {
    assert!(LimitOrderBook::new("".to_string()).is_err());
    assert!(LimitOrderBook::new("TOOLONGSYMBOL".to_string()).is_err());
    let book = LimitOrderBook::new("msft".to_string()).unwrap();
    assert_eq!(book.symbol().as_str(), "MSFT");
}

#[test]
fn recent_trades_are_recorded_in_order() {
    let mut book = LimitOrderBook::new("AAPL".to_string()).unwrap();
    book.add_order(create_test_order(OrderSide::Sell, 15000, 10)).unwrap();
    book.add_order(create_test_order(OrderSide::Sell, 15010, 10)).unwrap();
    book.add_order(create_test_order(OrderSide::Buy, 15010, 20)).unwrap();
    let recent = book.recent_trades();
    assert_eq!(recent.len(), 2);
    assert_eq!(recent[0].price.as_cents(), 15000);
    assert_eq!(recent[1].price.as_cents(), 15010);
    assert!(recent[0].timestamp <= recent[1].timestamp);
}
