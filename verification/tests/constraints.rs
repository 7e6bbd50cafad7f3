use lib::absy::Expression::{Add, Div, Mult, NumberLiteral, Sub, VariableReference};
use lib::absy::{Expression, Parameter, Prog, Statement};
use lib::field::FieldPrime;
use lib::r1cs::{r1cs_expression, r1cs_program};

type Row = Vec<(usize, FieldPrime)>;

fn var(v: &str) -> Expression<FieldPrime> {
    VariableReference(String::from(v))
}

fn num(n: i32) -> Expression<FieldPrime> {
    NumberLiteral(FieldPrime::from(n))
}

fn plus(a: Expression<FieldPrime>, b: Expression<FieldPrime>) -> Expression<FieldPrime> {
    Add(Box::new(a), Box::new(b))
}

fn minus(a: Expression<FieldPrime>, b: Expression<FieldPrime>) -> Expression<FieldPrime> {
    Sub(Box::new(a), Box::new(b))
}

fn times(a: Expression<FieldPrime>, b: Expression<FieldPrime>) -> Expression<FieldPrime> {
    Mult(Box::new(a), Box::new(b))
}

fn over(a: Expression<FieldPrime>, b: Expression<FieldPrime>) -> Expression<FieldPrime> {
    Div(Box::new(a), Box::new(b))
}

fn names(vars: &[&str]) -> Vec<String> {
    vars.iter().map(|&x| String::from(x)).collect()
}

fn row_eq(expected: Vec<(usize, i32)>, got: &Row) {
    assert_eq!(expected.len(), got.len());
    for (i, c) in expected {
        assert!(got.contains(&(i, FieldPrime::from(c))), "missing index {}", i);
    }
}

fn constraint(lhs: Expression<FieldPrime>, rhs: Expression<FieldPrime>, vars: &[&str]) -> (Row, Row, Row) {
    let mut variables = names(vars);
    let mut a: Row = Vec::new();
    let mut b: Row = Vec::new();
    let mut c: Row = Vec::new();
    r1cs_expression(lhs, rhs, &mut variables, &mut a, &mut b, &mut c);
    assert_eq!(variables, names(vars));
    (a, b, c)
}

/// The small integer a coefficient stands for.
fn small(c: &FieldPrime) -> i64 {
    for k in -1000i32..1000 {
        if FieldPrime::from(k) == *c {
            return k as i64;
        }
    }
    panic!("coefficient out of range");
}

fn dot(row: &Row, w: &[i64]) -> i64 {
    row.iter().map(|(i, c)| small(c) * w[*i]).sum()
}

fn satisfied(rows: &(Row, Row, Row), w: &[i64]) -> bool {
    dot(&rows.0, w) * dot(&rows.1, w) == dot(&rows.2, w)
}

#[test]
fn r1cs_variable_equation() {
    // x = y
    let (a, b, c) = constraint(var("x"), var("y"), &["~one", "x", "y"]);
    row_eq(vec![(2, 1)], &a);
    row_eq(vec![(0, 1)], &b);
    row_eq(vec![(1, 1)], &c);
}

#[test]
fn r1cs_literal_equation() {
    // x = 7
    let (a, b, c) = constraint(var("x"), num(7), &["~one", "x"]);
    row_eq(vec![(0, 7)], &a);
    row_eq(vec![(0, 1)], &b);
    row_eq(vec![(1, 1)], &c);
}

#[test]
fn r1cs_subtraction() {
    // x = y - z  is  y * 1 = x + z
    let (a, b, c) = constraint(var("x"), minus(var("y"), var("z")), &["~one", "x", "y", "z"]);
    row_eq(vec![(2, 1)], &a);
    row_eq(vec![(0, 1)], &b);
    row_eq(vec![(1, 1), (3, 1)], &c);
}

#[test]
fn r1cs_product_of_variables() {
    // x = y * z
    let (a, b, c) = constraint(var("x"), times(var("y"), var("z")), &["~one", "x", "y", "z"]);
    row_eq(vec![(2, 1)], &a);
    row_eq(vec![(3, 1)], &b);
    row_eq(vec![(1, 1)], &c);
}

#[test]
fn r1cs_product_with_literal() {
    // x = 3 * y
    let (a, b, c) = constraint(var("x"), times(num(3), var("y")), &["~one", "x", "y"]);
    row_eq(vec![(0, 3)], &a);
    row_eq(vec![(2, 1)], &b);
    row_eq(vec![(1, 1)], &c);
}

#[test]
fn r1cs_division() {
    // x = y / 3  is  x * 3 = y
    let (a, b, c) = constraint(var("x"), over(var("y"), num(3)), &["~one", "x", "y"]);
    row_eq(vec![(1, 1)], &a);
    row_eq(vec![(0, 3)], &b);
    row_eq(vec![(2, 1)], &c);
}

#[test]
fn r1cs_division_of_sum() {
    // x = (y + 1) / z  is  x * z = y + 1
    let (a, b, c) = constraint(var("x"), over(plus(var("y"), num(1)), var("z")), &["~one", "x", "y", "z"]);
    row_eq(vec![(1, 1)], &a);
    row_eq(vec![(3, 1)], &b);
    row_eq(vec![(2, 1), (0, 1)], &c);
}

#[test]
fn r1cs_division_of_difference() {
    // x = (y - z) / 2  is  y * 1 = 2 * x + z
    let (a, b, c) = constraint(var("x"), over(minus(var("y"), var("z")), num(2)), &["~one", "x", "y", "z"]);
    row_eq(vec![(2, 1)], &a);
    row_eq(vec![(0, 1)], &b);
    row_eq(vec![(1, 2), (3, 1)], &c);
}

#[test]
fn r1cs_first_occurrence_index() {
    // a repeated name is referred to by its first index
    let (a, _b, c) = constraint(var("x"), var("y"), &["~one", "y", "x", "y"]);
    row_eq(vec![(1, 1)], &a);
    row_eq(vec![(2, 1)], &c);
}

#[test]
fn r1cs_rows_are_appended() {
    let mut variables = names(&["~one", "x", "y"]);
    let mut a: Row = vec![(9, FieldPrime::from(9))];
    let mut b: Row = Vec::new();
    let mut c: Row = Vec::new();
    r1cs_expression(var("x"), var("y"), &mut variables, &mut a, &mut b, &mut c);
    assert_eq!(a, vec![(9, FieldPrime::from(9)), (2, FieldPrime::from(1))]);
}

#[test]
fn r1cs_constraint_holds_iff_subtraction_holds() {
    let rows = constraint(var("x"), minus(var("y"), var("z")), &["~one", "x", "y", "z"]);
    assert!(satisfied(&rows, &[1, 2, 5, 3]));
    assert!(!satisfied(&rows, &[1, 3, 5, 3]));
}

#[test]
fn r1cs_constraint_holds_iff_product_holds() {
    let rows = constraint(var("x"), times(var("y"), var("z")), &["~one", "x", "y", "z"]);
    assert!(satisfied(&rows, &[1, 6, 2, 3]));
    assert!(!satisfied(&rows, &[1, 5, 2, 3]));
}

#[test]
fn r1cs_constraint_holds_iff_quotient_holds() {
    let rows = constraint(var("x"), over(minus(var("y"), var("z")), num(2)), &["~one", "x", "y", "z"]);
    assert!(satisfied(&rows, &[1, 4, 11, 3]));
    assert!(!satisfied(&rows, &[1, 5, 11, 3]));
}

#[test]
fn r1cs_program_small() {
    // def main(a, b): c = a * b; c == a + b; return c + 1
    let prog = Prog {
        id: String::from("main"),
        arguments: vec![Parameter { id: String::from("a") }, Parameter { id: String::from("b") }],
        statements: vec![
            Statement::Definition(String::from("c"), times(var("a"), var("b"))),
            Statement::Condition(var("c"), plus(var("a"), var("b"))),
            Statement::Return(plus(var("c"), num(1))),
        ],
    };
    let (variables, a, b, c) = r1cs_program(&prog);
    assert_eq!(variables, names(&["~one", "a", "b", "c", "~out"]));
    assert_eq!(a.len(), 3);
    assert_eq!(b.len(), 3);
    assert_eq!(c.len(), 3);
    row_eq(vec![(1, 1)], &a[0]);
    row_eq(vec![(2, 1)], &b[0]);
    row_eq(vec![(3, 1)], &c[0]);
    row_eq(vec![(1, 1), (2, 1)], &a[1]);
    row_eq(vec![(0, 1)], &b[1]);
    row_eq(vec![(3, 1)], &c[1]);
    row_eq(vec![(3, 1), (0, 1)], &a[2]);
    row_eq(vec![(0, 1)], &b[2]);
    row_eq(vec![(4, 1)], &c[2]);
}

#[test]
fn r1cs_program_without_statements() {
    let prog: Prog<FieldPrime> = Prog {
        id: String::from("main"),
        arguments: vec![Parameter { id: String::from("x") }],
        statements: vec![],
    };
    let (variables, a, b, c) = r1cs_program(&prog);
    assert_eq!(variables, names(&["~one", "x"]));
    assert!(a.is_empty() && b.is_empty() && c.is_empty());
}

#[test]
fn r1cs_program_witness_satisfies_all_constraints() {
    // def main(a, b): c = a * b; c == a + b; return c + 1
    let prog = Prog {
        id: String::from("main"),
        arguments: vec![Parameter { id: String::from("a") }, Parameter { id: String::from("b") }],
        statements: vec![
            Statement::Definition(String::from("c"), times(var("a"), var("b"))),
            Statement::Condition(var("c"), plus(var("a"), var("b"))),
            Statement::Return(plus(var("c"), num(1))),
        ],
    };
    let (_variables, a, b, c) = r1cs_program(&prog);
    let holds = |w: &[i64]| {
        (0..3).all(|i| satisfied(&(a[i].clone(), b[i].clone(), c[i].clone()), w))
    };
    // ~one, a, b, c, ~out
    assert!(holds(&[1, 2, 2, 4, 5]));
    assert!(!holds(&[1, 2, 2, 4, 6]));
    assert!(!holds(&[1, 1, 3, 3, 4]));
}

#[test]
fn r1cs_difference_of_sum() {
    // x = (p + q) - r  is  (p + q) * 1 = x + r
    let rows = constraint(var("x"), minus(plus(var("p"), var("q")), var("r")), &["~one", "x", "p", "q", "r"]);
    row_eq(vec![(2, 1), (3, 1)], &rows.0);
    row_eq(vec![(0, 1)], &rows.1);
    row_eq(vec![(4, 1), (1, 1)], &rows.2);
    assert!(satisfied(&rows, &[1, 1, 1, 0, 0]));
    assert!(satisfied(&rows, &[1, 1, 1, 1, 1]));
    assert!(!satisfied(&rows, &[1, 2, 1, 0, 0]));
}

#[test]
fn r1cs_difference_of_difference() {
    // v = (a - b) - c  is  a * 1 = v + c + b
    let rows = constraint(var("v"), minus(minus(var("a"), var("b")), var("c")), &["~one", "v", "a", "b", "c"]);
    row_eq(vec![(2, 1)], &rows.0);
    row_eq(vec![(0, 1)], &rows.1);
    row_eq(vec![(1, 1), (4, 1), (3, 1)], &rows.2);
    assert!(satisfied(&rows, &[1, 2, 9, 4, 3]));
    assert!(!satisfied(&rows, &[1, 3, 9, 4, 3]));
}
