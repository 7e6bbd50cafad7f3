use lib::absy::Expression;
use lib::absy::Expression::{Add, Mult, NumberLiteral, VariableReference};
use lib::field::FieldPrime;
use lib::r1cs::r1cs_expression;

fn row_eq<T: PartialEq>(expected: Vec<T>, got: Vec<T>) {
    assert_eq!(expected.len(), got.len());
    assert!(expected.iter().fold(true, |acc, x| acc && got.contains(x)));
}

fn names(vars: &[&str]) -> Vec<String> {
    vars.iter().map(|&x| String::from(x)).collect()
}

fn scaled(n: i32, v: &str) -> Expression<FieldPrime> {
    Mult(
        Box::new(NumberLiteral(FieldPrime::from(n))),
        Box::new(VariableReference(String::from(v))),
    )
}

#[test]
fn add() {
    // x = y + 5
    let lhs = VariableReference(String::from("x"));
    let rhs = Add(
        Box::new(VariableReference(String::from("y"))),
        Box::new(NumberLiteral(FieldPrime::from(5))),
    );
    let mut variables: Vec<String> = names(&["~one", "x", "y"]);
    let mut a_row: Vec<(usize, FieldPrime)> = Vec::new();
    let mut b_row: Vec<(usize, FieldPrime)> = Vec::new();
    let mut c_row: Vec<(usize, FieldPrime)> = Vec::new();

    r1cs_expression(lhs, rhs, &mut variables, &mut a_row, &mut b_row, &mut c_row);
    row_eq(vec![(2, FieldPrime::from(1)), (0, FieldPrime::from(5))], a_row);
    row_eq(vec![(0, FieldPrime::from(1))], b_row);
    row_eq(vec![(1, FieldPrime::from(1))], c_row);
}

fn add_mult_case() {
    // 4 * b + 3 * a + 3 * c == (3 * a + 6 * b + 4 * c) * (31 * a + 4 * c)
    let lhs = Add(
        Box::new(Add(Box::new(scaled(4, "b")), Box::new(scaled(3, "a")))),
        Box::new(scaled(3, "c")),
    );
    let rhs = Mult(
        Box::new(Add(
            Box::new(Add(Box::new(scaled(3, "a")), Box::new(scaled(6, "b")))),
            Box::new(scaled(4, "c")),
        )),
        Box::new(Add(Box::new(scaled(31, "a")), Box::new(scaled(4, "c")))),
    );
    let mut variables: Vec<String> = names(&["~one", "a", "b", "c"]);
    let mut a_row: Vec<(usize, FieldPrime)> = Vec::new();
    let mut b_row: Vec<(usize, FieldPrime)> = Vec::new();
    let mut c_row: Vec<(usize, FieldPrime)> = Vec::new();

    r1cs_expression(lhs, rhs, &mut variables, &mut a_row, &mut b_row, &mut c_row);
    row_eq(
        vec![(1, FieldPrime::from(3)), (2, FieldPrime::from(6)), (3, FieldPrime::from(4))],
        a_row,
    );
    row_eq(vec![(1, FieldPrime::from(31)), (3, FieldPrime::from(4))], b_row);
    row_eq(
        vec![(1, FieldPrime::from(3)), (2, FieldPrime::from(4)), (3, FieldPrime::from(3))],
        c_row,
    );
}

#[test]
fn r1cs_add_mult() {
    add_mult_case();
}

#[test]
fn r1cs_add_mult_repeated() {
    // the same system once more, as the second copy of this test does
    add_mult_case();
}
