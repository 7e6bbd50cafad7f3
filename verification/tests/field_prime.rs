use lib::field::{Field, FieldPrime};

#[test]
fn field_zero_and_one() {
    assert_eq!(FieldPrime::zero(), FieldPrime::from(0));
    assert_eq!(FieldPrime::one(), FieldPrime::from(1));
    assert_ne!(FieldPrime::zero(), FieldPrime::one());
}

#[test]
fn field_add_small() {
    assert_eq!(FieldPrime::from(2).add(&FieldPrime::from(3)), FieldPrime::from(5));
}

#[test]
fn field_negative_wraps_around() {
    // -1 is p - 1, so adding one gives zero
    assert_eq!(FieldPrime::from(-1).add(&FieldPrime::from(1)), FieldPrime::zero());
    assert_eq!(FieldPrime::from(-7).add(&FieldPrime::from(7)), FieldPrime::zero());
}

#[test]
fn field_add_reduces_past_prime() {
    // (p - 2) + 5 = p + 3, which reduces to 3
    assert_eq!(FieldPrime::from(-2).add(&FieldPrime::from(5)), FieldPrime::from(3));
    // (p - 1) + (p - 1) = 2p - 2, which reduces to p - 2
    assert_eq!(FieldPrime::from(-1).add(&FieldPrime::from(-1)), FieldPrime::from(-2));
}

#[test]
fn field_add_commutes() {
    let a = FieldPrime::from(-123456);
    let b = FieldPrime::from(987654);
    assert_eq!(a.add(&b), b.add(&a));
}

#[test]
fn field_duplicate_is_equal() {
    let a = FieldPrime::from(-42);
    assert_eq!(a.duplicate(), a);
}

#[test]
fn field_extreme_i32() {
    let min = FieldPrime::from(i32::MIN);
    let max = FieldPrime::from(i32::MAX);
    // i32::MIN + i32::MAX = -1
    assert_eq!(min.add(&max), FieldPrime::from(-1));
}
