use geo::datatype::{Total, Fx32, Fx64, EPS_F32, EPS_F64};
use std::cmp::Ordering;

/// One in the units of `Fx32` (10^-9) and of `Fx64` (10^-12).
const ONE_32: i64 = 1_000_000_000;
const ONE_64: i64 = 1_000_000_000_000;

#[test]
fn test_total() {
    let a = Total::new(Fx32::from_units(ONE_32));
    let b = Total::new(Fx32::from_units(ONE_32 - 100));
    let c = Total::new(Fx32::from_units(ONE_32 + 10_000));
    assert_eq!(a, b);
    assert_eq!(b, a);
    assert_ne!(a, c);
    assert!(a < c);
    assert!(a <= b);

    let a = Total::new(Fx64::from_units(ONE_64));
    let b = Total::new(Fx64::from_units(ONE_64 - 100));
    let c = Total::new(Fx64::from_units(ONE_64 + 10_000));
    assert_eq!(a, b);
    assert_eq!(b, a);
    assert_ne!(a, c);
    assert!(a < c);
    assert!(a <= b);
}

#[test]
fn total_value_gives_back_what_was_wrapped() {
    let t = Total::new(Fx64::from_units(-42));
    assert_eq!(t.value(), Fx64::from_units(-42));
}

#[test]
fn total_tolerance_edge() {
    let a = Total::new(Fx32::from_units(0));
    let just_inside = Total::new(Fx32::from_units(EPS_F32 - 1));
    let at_tolerance = Total::new(Fx32::from_units(EPS_F32));
    assert!(a.tol_equal(&just_inside));
    assert!(!a.tol_equal(&at_tolerance));
    assert_eq!(a.total_order(&at_tolerance), Ordering::Less);
    assert_eq!(at_tolerance.total_order(&a), Ordering::Greater);
    assert_eq!(a.total_order(&just_inside), Ordering::Equal);
}

#[test]
fn total_order_laws_on_values() {
    let a = Total::new(Fx64::from_units(5));
    let b = Total::new(Fx64::from_units(5 + 3 * EPS_F64));
    assert_eq!(a, a);
    assert_eq!(a.partial_cmp(&b), Some(Ordering::Less));
    assert_eq!(b.partial_cmp(&a), Some(Ordering::Greater));
    assert_eq!(a.tol_equal(&b), b.tol_equal(&a));
}

#[test]
fn total_difference_saturates() {
    let lo = Total::new(Fx64::from_units(i64::MIN));
    let hi = Total::new(Fx64::from_units(i64::MAX));
    assert_ne!(lo, hi);
    assert!(lo < hi);
    assert!(hi > lo);
}
