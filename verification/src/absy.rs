//! Abstract syntax of flattened programs.

use vstd::prelude::*;
use crate::field::Field;

verus! {

/// An arithmetic expression over field elements and named variables.
#[derive(Debug, PartialEq, Eq)]
pub enum Expression<T> {
    NumberLiteral(T),
    VariableReference(String),
    Add(Box<Expression<T>>, Box<Expression<T>>),
    Sub(Box<Expression<T>>, Box<Expression<T>>),
    Mult(Box<Expression<T>>, Box<Expression<T>>),
    Div(Box<Expression<T>>, Box<Expression<T>>),
    Pow(Box<Expression<T>>, Box<Expression<T>>),
    IfElse(Box<Condition<T>>, Box<Expression<T>>, Box<Expression<T>>),
}

/// A comparison between two expressions, as used by `IfElse`.
#[derive(Debug, PartialEq, Eq)]
pub enum Condition<T> {
    Lt(Expression<T>, Expression<T>),
    Le(Expression<T>, Expression<T>),
    Eq(Expression<T>, Expression<T>),
    Ge(Expression<T>, Expression<T>),
    Gt(Expression<T>, Expression<T>),
}

/// A statement of a flattened program.
#[derive(Debug, PartialEq, Eq)]
pub enum Statement<T> {
    /// `return expr`: the program's output `~out` equals `expr`.
    Return(Expression<T>),
    /// `id = expr`: defines a fresh variable.
    Definition(String, Expression<T>),
    /// `lhs == rhs`: an assertion between two expressions.
    Condition(Expression<T>, Expression<T>),
}

/// A parameter of a program.
#[derive(Debug, PartialEq, Eq)]
pub struct Parameter {
    pub id: String,
}

/// A flattened program: its name, its parameters and its statements.
#[derive(Debug, PartialEq, Eq)]
pub struct Prog<T> {
    pub id: String,
    pub arguments: Vec<Parameter>,
    pub statements: Vec<Statement<T>>,
}

/// The mathematical model of an expression: literals as the integers they
/// stand for, variables by their names. The operands of `Pow` and the
/// condition and branches of `IfElse` are not modelled.
pub enum ExprModel {
    Num(int),
    Var(Seq<char>),
    Add(Box<ExprModel>, Box<ExprModel>),
    Sub(Box<ExprModel>, Box<ExprModel>),
    Mult(Box<ExprModel>, Box<ExprModel>),
    Div(Box<ExprModel>, Box<ExprModel>),
    Pow,
    IfElse,
}

/// The model of an expression.
pub open spec fn model<T: Field>(e: Expression<T>) -> ExprModel
    decreases e,
{
    match e {
        Expression::NumberLiteral(c) => ExprModel::Num(c.value()),
        Expression::VariableReference(v) => ExprModel::Var(v@),
        Expression::Add(a, b) => ExprModel::Add(Box::new(model(*a)), Box::new(model(*b))),
        Expression::Sub(a, b) => ExprModel::Sub(Box::new(model(*a)), Box::new(model(*b))),
        Expression::Mult(a, b) => ExprModel::Mult(Box::new(model(*a)), Box::new(model(*b))),
        Expression::Div(a, b) => ExprModel::Div(Box::new(model(*a)), Box::new(model(*b))),
        Expression::Pow(_, _) => ExprModel::Pow,
        Expression::IfElse(_, _, _) => ExprModel::IfElse,
    }
}

impl<T: Field> View for Expression<T> {
    type V = ExprModel;

    open spec fn view(&self) -> ExprModel {
        model(*self)
    }
}

/// The number of nodes of an expression.
pub open spec fn size(e: ExprModel) -> nat
    decreases e,
{
    match e {
        ExprModel::Add(a, b) => 1 + size(*a) + size(*b),
        ExprModel::Sub(a, b) => 1 + size(*a) + size(*b),
        ExprModel::Mult(a, b) => 1 + size(*a) + size(*b),
        ExprModel::Div(a, b) => 1 + size(*a) + size(*b),
        _ => 1,
    }
}

/// A literal or a variable: the expressions that stand by themselves.
pub open spec fn is_atom(e: ExprModel) -> bool {
    e is Num || e is Var
}

/// Whether an expression is linear in the sense of the flattener: a literal,
/// a variable, a sum or difference of linear expressions, or a product or
/// quotient of two atoms that are not both variables.
pub open spec fn linear(e: ExprModel) -> bool
    decreases e,
{
    match e {
        ExprModel::Num(_) => true,
        ExprModel::Var(_) => true,
        ExprModel::Add(a, b) => linear(*a) && linear(*b),
        ExprModel::Sub(a, b) => linear(*a) && linear(*b),
        ExprModel::Mult(a, b) => is_atom(*a) && is_atom(*b) && !(*a is Var && *b is Var),
        ExprModel::Div(a, b) => is_atom(*a) && is_atom(*b) && !(*a is Var && *b is Var),
        _ => false,
    }
}

/// The value of an expression in the integers, variables taken by `env`.
/// Only literals, variables, sums, differences and products are given a
/// value; the other forms evaluate to zero.
pub open spec fn eval(e: ExprModel, env: spec_fn(Seq<char>) -> int) -> int
    decreases e,
{
    match e {
        ExprModel::Num(c) => c,
        ExprModel::Var(v) => env(v),
        ExprModel::Add(a, b) => eval(*a, env) + eval(*b, env),
        ExprModel::Sub(a, b) => eval(*a, env) - eval(*b, env),
        ExprModel::Mult(a, b) => eval(*a, env) * eval(*b, env),
        _ => 0,
    }
}

/// Whether two operands make a linear product or quotient: atoms, not both
/// variables.
fn atom_pair<T: Field>(a: &Expression<T>, b: &Expression<T>) -> (r: bool)
    ensures
        r == (is_atom(a@) && is_atom(b@) && !(a@ is Var && b@ is Var)),
{
    match (a, b) {
        (Expression::NumberLiteral(_), Expression::NumberLiteral(_)) => true,
        (Expression::NumberLiteral(_), Expression::VariableReference(_)) => true,
        (Expression::VariableReference(_), Expression::NumberLiteral(_)) => true,
        _ => false,
    }
}

impl<T: Field> Expression<T> {
    /// Whether the expression is linear (see `linear`).
    pub fn is_linear(&self) -> (r: bool)
        ensures
            r == linear(self@),
        decreases self,
    {
        match self {
            Expression::NumberLiteral(_) => true,
            Expression::VariableReference(_) => true,
            Expression::Add(a, b) => a.is_linear() && b.is_linear(),
            Expression::Sub(a, b) => a.is_linear() && b.is_linear(),
            Expression::Mult(a, b) => atom_pair(a, b),
            Expression::Div(a, b) => atom_pair(a, b),
            _ => false,
        }
    }

    /// A deep copy of the expression.
    pub fn duplicate(&self) -> (r: Self)
        ensures
            r == *self,
        decreases self,
    {
        match self {
            Expression::NumberLiteral(c) => Expression::NumberLiteral(c.duplicate()),
            Expression::VariableReference(v) => Expression::VariableReference(v.clone()),
            Expression::Add(a, b) => Expression::Add(
                Box::new(a.duplicate()),
                Box::new(b.duplicate()),
            ),
            Expression::Sub(a, b) => Expression::Sub(
                Box::new(a.duplicate()),
                Box::new(b.duplicate()),
            ),
            Expression::Mult(a, b) => Expression::Mult(
                Box::new(a.duplicate()),
                Box::new(b.duplicate()),
            ),
            Expression::Div(a, b) => Expression::Div(
                Box::new(a.duplicate()),
                Box::new(b.duplicate()),
            ),
            Expression::Pow(a, b) => Expression::Pow(
                Box::new(a.duplicate()),
                Box::new(b.duplicate()),
            ),
            Expression::IfElse(c, a, b) => Expression::IfElse(
                Box::new(c.duplicate()),
                Box::new(a.duplicate()),
                Box::new(b.duplicate()),
            ),
        }
    }
}

impl<T: Field> Condition<T> {
    /// A deep copy of the condition.
    pub fn duplicate(&self) -> (r: Self)
        ensures
            r == *self,
        decreases self,
    {
        match self {
            Condition::Lt(a, b) => Condition::Lt(a.duplicate(), b.duplicate()),
            Condition::Le(a, b) => Condition::Le(a.duplicate(), b.duplicate()),
            Condition::Eq(a, b) => Condition::Eq(a.duplicate(), b.duplicate()),
            Condition::Ge(a, b) => Condition::Ge(a.duplicate(), b.duplicate()),
            Condition::Gt(a, b) => Condition::Gt(a.duplicate(), b.duplicate()),
        }
    }
}

} // verus!
