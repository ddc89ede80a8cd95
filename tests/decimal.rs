use std::cmp::Ordering;

use orderbook_aggregator::book::ExchangeLevel;
use orderbook_aggregator::decimal::Decimal;

#[test]
fn parse_reads_mantissa_and_scale() {
    let d = Decimal::parse("0.00001049").unwrap();
    assert_eq!(d.mantissa(), 1049);
    assert_eq!(d.scale(), 8);
    let n = Decimal::parse("-12.50").unwrap();
    assert_eq!(n.mantissa(), -1250);
    assert_eq!(n.scale(), 2);
    assert_eq!(Decimal::parse("__INCORRECT__"), None);
    assert_eq!(Decimal::parse(""), None);
}

#[test]
fn compare_goes_by_value_across_scales() {
    let a = Decimal::parse("100.0").unwrap();
    let b = Decimal::parse("100").unwrap();
    let c = Decimal::parse("99.99").unwrap();
    assert_eq!(a.compare(&b), Ordering::Equal);
    assert!(a.same_value(&b));
    assert_ne!(a, b);
    assert_eq!(c.compare(&a), Ordering::Less);
    assert_eq!(a.compare(&c), Ordering::Greater);
    assert!(c.less_than(&b));
    assert!(!b.less_than(&c));
}

#[test]
fn checked_add_sums_and_reports_overflow() {
    let a = Decimal::parse("99.9").unwrap();
    let b = Decimal::parse("90.0").unwrap();
    assert_eq!(a.checked_add(&b), Some(Decimal::parse("189.9").unwrap()));
    let max = Decimal::new(79228162514264337593543950335, 0);
    assert_eq!(max.checked_add(&max), None);
    assert_eq!(Decimal::parse("100.5").unwrap().checked_sub(&Decimal::parse("99.25").unwrap()), Some(Decimal::parse("1.25").unwrap()));
    assert_eq!(Decimal::new(-79228162514264337593543950335, 0).checked_sub(&max), None);
    let zero_scaled = Decimal::new(0, 2);
    assert_eq!(zero_scaled.checked_add(&Decimal::new(-5, 2)), Some(Decimal::new(-5, 2)));
}

#[test]
fn try_from_strs_rejects_bad_numbers() {
    assert_eq!(ExchangeLevel::try_from_strs("x", "1.5", "abc"), None);
    assert_eq!(
        ExchangeLevel::try_from_strs("x", "1.5", "2"),
        Some(ExchangeLevel::from_strs("x", "1.5", "2"))
    );
}
