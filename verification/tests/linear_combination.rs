use lib::absy::Expression;
use lib::absy::Expression::{Add, Mult, NumberLiteral, Pow, Sub, VariableReference};
use lib::field::FieldPrime;
use lib::r1cs::{count_variables_add, swap_sub};

fn var(v: &str) -> Expression<FieldPrime> {
    VariableReference(String::from(v))
}

fn num(n: i32) -> Expression<FieldPrime> {
    NumberLiteral(FieldPrime::from(n))
}

fn plus(a: Expression<FieldPrime>, b: Expression<FieldPrime>) -> Expression<FieldPrime> {
    Add(Box::new(a), Box::new(b))
}

fn minus(a: Expression<FieldPrime>, b: Expression<FieldPrime>) -> Expression<FieldPrime> {
    Sub(Box::new(a), Box::new(b))
}

fn times(a: Expression<FieldPrime>, b: Expression<FieldPrime>) -> Expression<FieldPrime> {
    Mult(Box::new(a), Box::new(b))
}

fn same_entries(expected: Vec<(&str, i32)>, got: Vec<(String, FieldPrime)>) {
    assert_eq!(expected.len(), got.len());
    for (k, v) in expected {
        assert!(got.contains(&(String::from(k), FieldPrime::from(v))), "missing {}", k);
    }
}

#[test]
fn count_single_literal() {
    same_entries(vec![("~one", 7)], count_variables_add(&num(7)));
}

#[test]
fn count_single_variable() {
    same_entries(vec![("x", 1)], count_variables_add(&var("x")));
}

#[test]
fn count_literals_add_up() {
    same_entries(vec![("~one", 5)], count_variables_add(&plus(num(2), num(3))));
}

#[test]
fn count_repeated_variable_adds_up() {
    same_entries(vec![("x", 2)], count_variables_add(&plus(var("x"), var("x"))));
}

#[test]
fn count_zero_literal_keeps_its_entry() {
    same_entries(vec![("x", 1), ("~one", 0)], count_variables_add(&plus(var("x"), num(0))));
}

#[test]
fn count_nested_sum_with_scaled_variables() {
    // (1 + 2 * x) + x * 3
    let e = plus(plus(num(1), times(num(2), var("x"))), times(var("x"), num(3)));
    same_entries(vec![("~one", 1), ("x", 5)], count_variables_add(&e));
}

#[test]
fn count_sum_on_the_right() {
    // y + (4 * z + 6)
    let e = plus(var("y"), plus(times(num(4), var("z")), num(6)));
    same_entries(vec![("y", 1), ("z", 4), ("~one", 6)], count_variables_add(&e));
}

#[test]
fn count_coefficients_reduce_modulo_prime() {
    // (-1) + 1 = 0 in the field
    same_entries(vec![("~one", 0)], count_variables_add(&plus(num(-1), num(1))));
}

#[test]
fn swap_sub_keeps_terminal_pairs() {
    assert_eq!(swap_sub(&var("x"), &num(5)), (var("x"), num(5)));
    assert_eq!(swap_sub(&var("x"), &times(num(2), var("y"))), (var("x"), times(num(2), var("y"))));
    assert_eq!(swap_sub(&times(var("y"), num(2)), &var("x")), (times(var("y"), num(2)), var("x")));
}

#[test]
fn swap_sub_moves_subtraction() {
    // x = y - z  becomes  x + z = y
    assert_eq!(
        swap_sub(&var("x"), &minus(var("y"), var("z"))),
        (plus(var("x"), var("z")), var("y")),
    );
    // y - z = x  gives the same
    assert_eq!(
        swap_sub(&minus(var("y"), var("z")), &var("x")),
        (plus(var("x"), var("z")), var("y")),
    );
}

#[test]
fn swap_sub_keeps_plain_sums() {
    // x = y + 5 and y + 5 = x both become x = y + 5
    assert_eq!(swap_sub(&var("x"), &plus(var("y"), num(5))), (var("x"), plus(var("y"), num(5))));
    assert_eq!(swap_sub(&plus(var("y"), num(5)), &var("x")), (var("x"), plus(var("y"), num(5))));
}

#[test]
fn swap_sub_difference_inside_sum() {
    // x = (y - z) + 5  becomes  x + z = y + 5
    assert_eq!(
        swap_sub(&var("x"), &plus(minus(var("y"), var("z")), num(5))),
        (plus(var("x"), var("z")), plus(var("y"), num(5))),
    );
}

#[test]
fn swap_sub_product_facing_difference() {
    // 2 * x = y - z  becomes  2 * x + z = y
    assert_eq!(
        swap_sub(&times(num(2), var("x")), &minus(var("y"), var("z"))),
        (plus(times(num(2), var("x")), var("z")), var("y")),
    );
}

#[test]
fn swap_sub_sum_left_of_difference() {
    // x = (p + q) - r  becomes  x + r = p + q
    assert_eq!(
        swap_sub(&var("x"), &minus(plus(var("p"), var("q")), var("r"))),
        (plus(var("x"), var("r")), plus(var("p"), var("q"))),
    );
}

#[test]
fn swap_sub_difference_of_difference() {
    // v = (a - b) - c  becomes  v + (c + b) = a
    assert_eq!(
        swap_sub(&var("v"), &minus(minus(var("a"), var("b")), var("c"))),
        (plus(var("v"), plus(var("c"), var("b"))), var("a")),
    );
}

#[test]
fn swap_sub_carries_untouched_operands() {
    // x = y + (a ** b) * z: the power inside the product comes back whole
    let power = || Pow(Box::new(var("a")), Box::new(var("b")));
    assert_eq!(
        swap_sub(&var("x"), &plus(var("y"), times(power(), var("z")))),
        (var("x"), plus(var("y"), times(power(), var("z")))),
    );
}
