use matching_engine::{MatchingEngineError, Quantity};

#[test]
fn test_quantity_creation() {
    let qty = Quantity::new(100).unwrap();
    assert_eq!(qty.value(), 100);

    assert!(Quantity::new(0).is_err());
}

#[test]
fn test_quantity_arithmetic() {
    let qty1 = Quantity::new(100).unwrap();
    let qty2 = Quantity::new(50).unwrap();

    // Addition
    let sum = qty1 + qty2;
    assert_eq!(sum.value(), 150);

    // Subtraction
    let diff = qty1 - qty2;
    assert!(diff.is_ok());
    assert_eq!(diff.unwrap().value(), 50);

    // Multiplication
    let product = qty2 * 2;
    assert_eq!(product.value(), 100);

    // Division
    let quotient = qty1 / 2;
    assert!(quotient.is_ok());
    assert_eq!(quotient.unwrap().value(), 50);
}

#[test]
fn test_quantity_validation() {
    let qty1 = Quantity::new(100).unwrap();
    let qty2 = Quantity::new(150).unwrap();

    // Insufficient quantity
    let result = qty1 - qty2;
    assert!(result.is_err());

    // Zero result
    let result = qty1 - qty1;
    assert!(result.is_err());
}

#[test]
fn test_quantity_comparison() {
    let qty1 = Quantity::new(100).unwrap();
    let qty2 = Quantity::new(50).unwrap();
    let qty3 = Quantity::new(150).unwrap();

    assert!(qty2.can_be_satisfied_by(&qty1));
    assert!(!qty3.can_be_satisfied_by(&qty1));

    assert_eq!(qty1.min(qty2), qty2);
    assert_eq!(qty1.max(qty2), qty1);
}

#[test]
fn quantity_from_str_reads_decimal_counts() {
    assert_eq!(Quantity::from_str("123").unwrap().value(), 123);
    assert!(Quantity::from_str("0").is_err());
    assert!(Quantity::from_str("not a count").is_err());
    assert!(Quantity::from_str("-5").is_err());
}

#[test]
fn quantity_subtraction_error_carries_both_sides() {
    let small = Quantity::new(10).unwrap();
    let large = Quantity::new(25).unwrap();
    let err = (small - large).unwrap_err();
    assert_eq!(
        err,
        MatchingEngineError::InsufficientQuantity { requested: 25, available: 10 }
    );
}

#[test]
fn quantity_division_edge_cases() {
    let qty = Quantity::new(3).unwrap();
    assert!(matches!(
        (qty / 0).unwrap_err(),
        MatchingEngineError::InvalidQuantity(_)
    ));
    // 3 / 4 rounds down to zero, which is rejected.
    assert!(matches!(
        (qty / 4).unwrap_err(),
        MatchingEngineError::InvalidQuantity(_)
    ));
}
