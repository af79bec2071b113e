use matching_engine::{MatchingEngineError, Price};
use rust_decimal::Decimal;
use std::cmp::Ordering;

#[test]
fn test_price_creation() {
    let price = Price::new(Decimal::new(15000, 2)).unwrap();
    assert_eq!(price.value(), Decimal::new(15000, 2));
}

#[test]
fn test_price_from_cents() {
    let price = Price::from_cents(15000).unwrap();
    assert_eq!(price.value(), Decimal::new(15000, 2));
    assert_eq!(price.as_cents(), 15000);
}

#[test]
fn test_invalid_price() {
    assert!(Price::new(Decimal::ZERO).is_err());
    assert!(Price::new(Decimal::new(-100, 2)).is_err());
    assert!(Price::from_cents(-100).is_err());
}

#[test]
fn test_price_ordering() {
    let price1 = Price::from_cents(100).unwrap();
    let price2 = Price::from_cents(200).unwrap();

    assert!(price1 < price2);
    assert!(price2 > price1);
    assert_eq!(price1.cmp(&price1), Ordering::Equal);
}

#[test]
fn price_new_converts_scales_exactly() {
    // One fractional digit: 15.1 dollars is 1510 cents.
    assert_eq!(Price::new(Decimal::new(151, 1)).unwrap().as_cents(), 1510);
    // No fractional digits: 7 dollars is 700 cents.
    assert_eq!(Price::new(Decimal::new(7, 0)).unwrap().as_cents(), 700);
    // Trailing zeros at a deep scale still land on a whole cent.
    assert_eq!(Price::new(Decimal::new(1500500, 4)).unwrap().as_cents(), 15005);
    // A fraction of a cent is rejected.
    assert!(matches!(
        Price::new(Decimal::new(12345, 3)).unwrap_err(),
        MatchingEngineError::InvalidPrice(_)
    ));
}

#[test]
fn price_from_parts_matches_decimal_parts() {
    assert_eq!(Price::from_parts(15005, 2).unwrap().as_cents(), 15005);
    assert_eq!(Price::from_parts(3, 0).unwrap().as_cents(), 300);
    assert!(Price::from_parts(0, 2).is_err());
    assert!(Price::from_parts(-15000, 2).is_err());
    assert!(Price::from_parts(101, 3).is_err());
}

#[test]
fn price_value_round_trips_through_new() {
    let price = Price::from_cents(15005).unwrap();
    let rebuilt = Price::new(price.value()).unwrap();
    assert_eq!(rebuilt.as_cents(), 15005);
    assert_eq!(rebuilt, price);
}

#[test]
fn price_from_str_parses_decimal_strings() {
    assert_eq!(Price::from_str("150.50").unwrap().as_cents(), 15050);
    assert_eq!(Price::from_str("1").unwrap().as_cents(), 100);
    assert!(Price::from_str("0").is_err());
    assert!(Price::from_str("-3.5").is_err());
    assert!(Price::from_str("what price").is_err());
}
