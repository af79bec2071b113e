use matching_engine::{Order, OrderId, OrderSide, OrderStatus, Price, Quantity, UserId};

fn create_test_order(side: OrderSide, price_cents: i64, quantity: u64) -> Order {
    Order::new(
        OrderId::new(),
        UserId::new("test_user".to_string()),
        side,
        Price::from_cents(price_cents).unwrap(),
        Quantity::new(quantity).unwrap(),
    )
}

#[test]
fn test_order_creation() {
    let order = create_test_order(OrderSide::Buy, 15000, 100);

    assert_eq!(order.side, OrderSide::Buy);
    assert_eq!(order.price.as_cents(), 15000);
    assert_eq!(order.original_quantity.value(), 100);
    assert_eq!(order.remaining_quantity.value(), 100);
    assert_eq!(order.status, OrderStatus::Active);
}

#[test]
fn order_test_order_matching() {
    let buy_order = create_test_order(OrderSide::Buy, 15000, 100);
    let sell_order = create_test_order(OrderSide::Sell, 15000, 50);
    let higher_sell = create_test_order(OrderSide::Sell, 15100, 50);

    assert!(buy_order.can_match(&sell_order));
    assert!(!buy_order.can_match(&higher_sell)); // Buy at 150, sell at 151 - no match
    assert!(!buy_order.can_match(&buy_order)); // Same side - no match
}

#[test]
fn test_order_filling() {
    let mut order = create_test_order(OrderSide::Buy, 15000, 100);

    // Partial fill
    assert!(order.fill(Quantity::new(30).unwrap()).is_ok());
    assert_eq!(order.remaining_quantity.value(), 70);
    assert_eq!(order.status, OrderStatus::PartiallyFilled);

    // Complete the fill
    assert!(order.fill(Quantity::new(70).unwrap()).is_ok());
    assert_eq!(order.remaining_quantity.value(), 0);
    assert_eq!(order.status, OrderStatus::Filled);

    // Try to overfill
    assert!(order.fill(Quantity::new(1).unwrap()).is_err());
}

#[test]
fn test_order_priority() {
    let order1 = create_test_order(OrderSide::Buy, 15000, 100); // $150.00
    let order2 = create_test_order(OrderSide::Buy, 15100, 100); // $151.00 (higher)
    let order3 = create_test_order(OrderSide::Sell, 14900, 100); // $149.00
    let order4 = create_test_order(OrderSide::Sell, 15000, 100); // $150.00 (higher)

    // For buy orders, higher prices should come first
    assert!(order2 < order1); // $151 < $150 in buy priority

    // For sell orders, lower prices should come first
    assert!(order3 < order4); // $149 < $150 in sell priority
}

#[test]
fn order_fill_at_fixed_time_pins_every_field() {
    let id = OrderId(42);
    let mut order = Order::new_at(
        id,
        UserId::new("alice".to_string()),
        OrderSide::Sell,
        Price::from_cents(500).unwrap(),
        Quantity::new(8).unwrap(),
        1_000,
    );
    assert_eq!(order.created_at, 1_000);
    assert_eq!(order.updated_at, 1_000);

    order.fill_at(Quantity::new(3).unwrap(), 2_000).unwrap();
    assert_eq!(order.remaining_quantity.value(), 5);
    assert_eq!(order.status, OrderStatus::PartiallyFilled);
    assert_eq!(order.created_at, 1_000);
    assert_eq!(order.updated_at, 2_000);
    assert_eq!(order.filled_quantity().value(), 3);

    // A fill larger than the residual is rejected and changes nothing.
    assert!(order.fill_at(Quantity::new(6).unwrap(), 3_000).is_err());
    assert_eq!(order.remaining_quantity.value(), 5);
    assert_eq!(order.updated_at, 2_000);
}

#[test]
fn order_cancel_is_terminal_for_matching() {
    let mut order = create_test_order(OrderSide::Buy, 15000, 100);
    order.cancel();
    assert_eq!(order.status, OrderStatus::Cancelled);
    assert_eq!(order.remaining_quantity.value(), 100);
    assert!(!order.is_active());

    let other = create_test_order(OrderSide::Sell, 15000, 100);
    assert!(!order.can_match(&other));
}

#[test]
fn order_same_price_earlier_creation_wins() {
    let user = UserId::new("u".to_string());
    let price = Price::from_cents(2500).unwrap();
    let qty = Quantity::new(10).unwrap();
    let first = Order::new_at(OrderId(1), user.clone(), OrderSide::Buy, price, qty, 100);
    let second = Order::new_at(OrderId(2), user, OrderSide::Buy, price, qty, 200);
    assert!(first < second);
}
