//! Rank-1 constraint systems for flattened programs.
//!
//! Every statement of a flattened program becomes one constraint
//! `(A . w) * (B . w) == C . w` over a witness `w` whose entry 0 is the
//! constant one. A row (`A`, `B` or `C`) is a list of (variable index,
//! coefficient) pairs.

use vstd::prelude::*;
use vstd::arithmetic::div_mod::{
    lemma_add_mod_noop,
    lemma_add_mod_noop_right,
    lemma_mul_mod_noop_left,
    lemma_small_mod,
};
use crate::absy::{eval, is_atom, linear, size, ExprModel, Expression, Parameter, Prog, Statement};
use crate::field::Field;

verus! {

// ---------------------------------------------------------------------------
// Linear combinations
// ---------------------------------------------------------------------------

/// The name of the variable that always holds one; number literals in a
/// linear combination are its coefficients.
pub open spec fn one_name() -> Seq<char> {
    seq!['~', 'o', 'n', 'e']
}

/// The name of the variable that holds a program's output.
pub open spec fn out_name() -> Seq<char> {
    seq!['~', 'o', 'u', 't']
}

/// A product of a literal and a variable, in either order.
pub open spec fn is_scaled(e: ExprModel) -> bool {
    match e {
        ExprModel::Mult(a, b) => (*a is Num && *b is Var) || (*a is Var && *b is Num),
        _ => false,
    }
}

/// A literal, a variable or a scaled variable.
pub open spec fn is_term(e: ExprModel) -> bool {
    is_atom(e) || is_scaled(e)
}

/// A sum of terms, nested in any shape.
pub open spec fn summable(e: ExprModel) -> bool
    decreases e,
{
    is_term(e) || match e {
        ExprModel::Add(a, b) => summable(*a) && summable(*b),
        _ => false,
    }
}

/// The sums whose linear combination `count_variables_add` computes: a
/// literal, a variable, or a sum of two terms, or of a term and such a sum
/// (in either order).
pub open spec fn add_form(e: ExprModel) -> bool
    decreases e,
{
    match e {
        ExprModel::Num(_) => true,
        ExprModel::Var(_) => true,
        ExprModel::Add(a, b) => {
            ||| is_term(*a) && is_term(*b)
            ||| is_term(*a) && *b is Add && add_form(*b)
            ||| *a is Add && is_term(*b) && add_form(*a)
        },
        _ => false,
    }
}

/// The coefficient of `k` in `m`, zero where `m` does not name `k`.
pub open spec fn coeff(m: Map<Seq<char>, int>, k: Seq<char>) -> int {
    if m.dom().contains(k) {
        m[k]
    } else {
        0
    }
}

/// The sum of two linear combinations: it names every variable that either
/// names.
pub open spec fn lc_sum(m1: Map<Seq<char>, int>, m2: Map<Seq<char>, int>) -> Map<Seq<char>, int> {
    Map::new(
        |k: Seq<char>| m1.dom().contains(k) || m2.dom().contains(k),
        |k: Seq<char>| coeff(m1, k) + coeff(m2, k),
    )
}

/// The linear combination of a sum of terms: each variable that occurs in
/// it mapped to the sum of its coefficients, literals counted as
/// coefficients of `one_name()`.
pub open spec fn lc(e: ExprModel) -> Map<Seq<char>, int>
    decreases e,
{
    match e {
        ExprModel::Num(c) => map![one_name() => c],
        ExprModel::Var(v) => map![v => 1],
        ExprModel::Add(a, b) => lc_sum(lc(*a), lc(*b)),
        ExprModel::Mult(a, b) => match (*a, *b) {
            (ExprModel::Num(n), ExprModel::Var(v)) => map![v => n],
            (ExprModel::Var(v), ExprModel::Num(n)) => map![v => n],
            _ => Map::empty(),
        },
        _ => Map::empty(),
    }
}

/// No name occurs twice among the entries.
pub open spec fn distinct_names<T>(s: Seq<(String, T)>) -> bool {
    forall|i: int, j: int| 0 <= i < j < s.len() ==> #[trigger] s[i].0@ != #[trigger] s[j].0@
}

/// The entries `s` hold exactly the linear combination `m`, coefficients
/// reduced modulo the field's order: one entry per variable that `m` names.
pub open spec fn represents<T: Field>(s: Seq<(String, T)>, m: Map<Seq<char>, int>) -> bool {
    &&& distinct_names(s)
    &&& forall|i: int|
        #![trigger s[i]]
        0 <= i < s.len() ==> m.dom().contains(s[i].0@) && s[i].1.value() == m[s[i].0@]
            % T::order()
    &&& forall|k: Seq<char>|
        #![trigger m.dom().contains(k)]
        m.dom().contains(k) ==> exists|i: int| 0 <= i < s.len() && s[i].0@ == k
}

/// The value of the entries under `env`: each coefficient times the value of
/// its variable.
pub open spec fn weighted<T: Field>(s: Seq<(String, T)>, env: spec_fn(Seq<char>) -> int) -> int
    decreases s.len(),
{
    if s.len() == 0 {
        0
    } else {
        weighted(s.drop_last(), env) + s.last().1.value() * env(s.last().0@)
    }
}

proof fn lemma_weighted_update<T: Field>(
    s: Seq<(String, T)>,
    i: int,
    x: (String, T),
    env: spec_fn(Seq<char>) -> int,
)
    requires
        0 <= i < s.len(),
    ensures
        weighted(s.update(i, x), env) == weighted(s, env) - s[i].1.value() * env(s[i].0@)
            + x.1.value() * env(x.0@),
    decreases s.len(),
{
    let t = s.update(i, x);
    if i == s.len() - 1 {
        assert(t.drop_last() =~= s.drop_last());
    } else {
        lemma_weighted_update(s.drop_last(), i, x, env);
        assert(t.drop_last() =~= s.drop_last().update(i, x));
    }
}

proof fn lemma_weighted_push<T: Field>(
    s: Seq<(String, T)>,
    x: (String, T),
    env: spec_fn(Seq<char>) -> int,
)
    ensures
        weighted(s.push(x), env) == weighted(s, env) + x.1.value() * env(x.0@),
{
    assert(s.push(x).drop_last() =~= s);
}

/// Replacing a coefficient `v` by `v + c` reduced changes a weighted sum by
/// `c` times the variable's value, modulo `p`.
proof fn lemma_replace_mod(w: int, v: int, c: int, e: int, p: int)
    requires
        p > 0,
    ensures
        (w - v * e + ((v + c) % p) * e) % p == (w + c * e) % p,
{
    lemma_mul_mod_noop_left(v + c, e, p);
    lemma_add_mod_noop_right(w - v * e, ((v + c) % p) * e, p);
    lemma_add_mod_noop_right(w - v * e, (v + c) * e, p);
    assert((v + c) * e == v * e + c * e) by (nonlinear_arith);
}

/// Two congruences chain: `w1 = w0 + a` and `w2 = w1 + b` give
/// `w2 = w0 + (a + b)`, modulo `p`.
proof fn lemma_mod_chain(w0: int, w1: int, w2: int, a: int, b: int, p: int)
    requires
        p > 0,
        w1 % p == (w0 + a) % p,
        w2 % p == (w1 + b) % p,
    ensures
        w2 % p == (w0 + (a + b)) % p,
{
    lemma_add_mod_noop(w1, b, p);
    lemma_add_mod_noop(w0 + a, b, p);
}

/// Adds the coefficient `c` (standing for the integer `d`) of variable
/// `name` to the entries: to the entry of `name` where there is one, else as
/// a new entry at the end.
#[verifier::loop_isolation(false)]
fn add_term<T: Field>(
    count: &mut Vec<(String, T)>,
    name: String,
    c: T,
    Ghost(m): Ghost<Map<Seq<char>, int>>,
    Ghost(d): Ghost<int>,
)
    requires
        represents(old(count)@, m),
        c.value() == d % T::order(),
    ensures
        represents(final(count)@, lc_sum(m, map![name@ => d])),
        forall|env: spec_fn(Seq<char>) -> int|
            #[trigger] weighted(final(count)@, env) % T::order() == (weighted(old(count)@, env)
                + c.value() * env(name@)) % T::order(),
{
    proof {
        T::lemma_value_bounds(&c);
    }
    let ghost m2 = lc_sum(m, map![name@ => d]);
    let ghost p = T::order();
    let mut i: usize = 0;
    while i < count.len()
        invariant
            i <= count.len(),
            count@ == old(count)@,
            forall|j: int| 0 <= j < i ==> count@[j].0@ != name@,
        decreases count.len() - i,
    {
        if count[i].0 == name {
            let sum = count[i].1.add(&c);
            let ghost s = count@;
            let ghost v = s[i as int].1.value();
            count[i] = (name, sum);
            proof {
                assert(count@ == s.update(i as int, (name, sum)));
                assert(m.dom().contains(name@));
                lemma_add_mod_noop(m[name@], d, p);
                assert forall|j: int|
                    #![trigger count@[j]]
                    0 <= j < count@.len() implies m2.dom().contains(count@[j].0@)
                    && count@[j].1.value() == m2[count@[j].0@] % p by {
                    if j != i {
                        assert(s[j].0@ != s[i as int].0@);
                    }
                }
                assert forall|k: Seq<char>|
                    #![trigger m2.dom().contains(k)]
                    m2.dom().contains(k) implies exists|j: int|
                        0 <= j < count@.len() && count@[j].0@ == k by {
                    if k == name@ {
                        assert(count@[i as int].0@ == k);
                    } else {
                        assert(m.dom().contains(k));
                        let j = choose|j: int| 0 <= j < s.len() && s[j].0@ == k;
                        assert(count@[j].0@ == k);
                    }
                }
                assert forall|env: spec_fn(Seq<char>) -> int|
                    #[trigger] weighted(count@, env) % p == (weighted(s, env) + c.value() * env(
                        name@,
                    )) % p by {
                    lemma_weighted_update(s, i as int, (name, sum), env);
                    lemma_replace_mod(weighted(s, env), v, c.value(), env(name@), p);
                }
            }
            return;
        }
        i += 1;
    }
    let ghost s = count@;
    count.push((name, c));
    proof {
        assert(!m.dom().contains(name@)) by {
            if m.dom().contains(name@) {
                let j = choose|j: int| 0 <= j < s.len() && s[j].0@ == name@;
                assert(s[j].0@ != name@);
            }
        }
        lemma_small_mod(c.value() as nat, p as nat);
        assert forall|j: int|
            #![trigger count@[j]]
            0 <= j < count@.len() implies m2.dom().contains(count@[j].0@)
            && count@[j].1.value() == m2[count@[j].0@] % p by {
            if j < s.len() {
                assert(s[j] == count@[j]);
            }
        }
        assert forall|k: Seq<char>|
            #![trigger m2.dom().contains(k)]
            m2.dom().contains(k) implies exists|j: int|
                0 <= j < count@.len() && count@[j].0@ == k by {
            if k == name@ {
                assert(count@[s.len() as int].0@ == k);
            } else {
                assert(m.dom().contains(k));
                let j = choose|j: int| 0 <= j < s.len() && s[j].0@ == k;
                assert(count@[j].0@ == k);
            }
        }
        assert forall|env: spec_fn(Seq<char>) -> int|
            #[trigger] weighted(count@, env) % p == (weighted(s, env) + c.value() * env(name@))
                % p by {
            lemma_weighted_push(s, (name, c), env);
        }
    }
}

proof fn lemma_add_form_summable(e: ExprModel)
    requires
        add_form(e),
    ensures
        summable(e),
    decreases e,
{
    if let ExprModel::Add(a, b) = e {
        if is_term(*a) {
            assert(summable(*a));
        }
        if is_term(*b) {
            assert(summable(*b));
        }
        if *a is Add && add_form(*a) {
            lemma_add_form_summable(*a);
        }
        if *b is Add && add_form(*b) {
            lemma_add_form_summable(*b);
        }
    }
}

/// The name of the variable that always holds one.
fn one_string() -> (r: String)
    ensures
        r@ == one_name(),
{
    let r = "~one".to_string();
    proof {
        reveal_strlit("~one");
    }
    r
}

/// The name of the variable that holds a program's output.
fn out_string() -> (r: String)
    ensures
        r@ == out_name(),
{
    let r = "~out".to_string();
    proof {
        reveal_strlit("~out");
    }
    r
}

/// Adds the linear combination of the sum of terms `e` to the entries.
fn count_into<T: Field>(
    e: &Expression<T>,
    count: &mut Vec<(String, T)>,
    Ghost(m): Ghost<Map<Seq<char>, int>>,
)
    requires
        summable(e@),
        represents(old(count)@, m),
    ensures
        represents(final(count)@, lc_sum(m, lc(e@))),
        forall|env: spec_fn(Seq<char>) -> int|
            env(one_name()) == 1 ==> #[trigger] weighted(final(count)@, env) % T::order() == (
            weighted(old(count)@, env) + eval(e@, env)) % T::order(),
    decreases e,
{
    let ghost p = T::order();
    match e {
        Expression::NumberLiteral(c) => {
            proof {
                T::lemma_value_bounds(c);
                lemma_small_mod(c.value() as nat, p as nat);
            }
            add_term(count, one_string(), c.duplicate(), Ghost(m), Ghost(c.value()));
        },
        Expression::VariableReference(v) => {
            let one = T::one();
            proof {
                T::lemma_value_bounds(&one);
                lemma_small_mod(1, p as nat);
            }
            add_term(count, v.clone(), one, Ghost(m), Ghost(1));
        },
        Expression::Mult(a, b) => {
            proof {
                reveal_with_fuel(crate::absy::model, 2);
                reveal_with_fuel(eval, 2);
            }
            match (&**a, &**b) {
                (Expression::NumberLiteral(n), Expression::VariableReference(v)) => {
                    proof {
                        T::lemma_value_bounds(n);
                        lemma_small_mod(n.value() as nat, p as nat);
                    }
                    add_term(count, v.clone(), n.duplicate(), Ghost(m), Ghost(n.value()));
                },
                (Expression::VariableReference(v), Expression::NumberLiteral(n)) => {
                    proof {
                        T::lemma_value_bounds(n);
                        lemma_small_mod(n.value() as nat, p as nat);
                    }
                    add_term(count, v.clone(), n.duplicate(), Ghost(m), Ghost(n.value()));
                    assert forall|env: spec_fn(Seq<char>) -> int|
                        env(one_name()) == 1 implies #[trigger] weighted(count@, env) % p == (
                        weighted(old(count)@, env) + eval(e@, env)) % p by {
                        assert(n.value() * env(v@) == env(v@) * n.value()) by (nonlinear_arith);
                    }
                },
                _ => {
                    assert(false);
                },
            }
        },
        Expression::Add(a, b) => {
            let ghost m1 = lc_sum(m, lc(a@));
            let ghost w0 = old(count)@;
            count_into(a, count, Ghost(m));
            let ghost w1 = count@;
            count_into(b, count, Ghost(m1));
            proof {
                assert(lc_sum(m1, lc(b@)) =~= lc_sum(m, lc(e@)));
                assert forall|env: spec_fn(Seq<char>) -> int|
                    env(one_name()) == 1 implies #[trigger] weighted(count@, env) % p == (
                    weighted(w0, env) + eval(e@, env)) % p by {
                    T::lemma_order_exceeds_one();
                    lemma_mod_chain(
                        weighted(w0, env),
                        weighted(w1, env),
                        weighted(count@, env),
                        eval(a@, env),
                        eval(b@, env),
                        p,
                    );
                }
            }
        },
        _ => {
            assert(false);
        },
    }
}

/// The linear combination of a sum: one entry per variable that occurs in
/// `expr`, holding the sum of its coefficients; literals add up under the
/// name `~one`.
pub fn count_variables_add<T: Field>(expr: &Expression<T>) -> (r: Vec<(String, T)>)
    requires
        add_form(expr@),
    ensures
        represents(r@, lc(expr@)),
        forall|env: spec_fn(Seq<char>) -> int|
            env(one_name()) == 1 ==> #[trigger] weighted(r@, env) % T::order() == eval(
                expr@,
                env,
            ) % T::order(),
{
    let mut count: Vec<(String, T)> = Vec::new();
    proof {
        lemma_add_form_summable(expr@);
    }
    count_into(expr, &mut count, Ghost(Map::empty()));
    proof {
        assert(lc_sum(Map::empty(), lc(expr@)) =~= lc(expr@));
        assert forall|env: spec_fn(Seq<char>) -> int|
            env(one_name()) == 1 implies #[trigger] weighted(count@, env) % T::order() == eval(
                expr@,
                env,
            ) % T::order() by {
            assert(weighted(Seq::<(String, T)>::empty(), env) == 0);
        }
    }
    count
}

// ---------------------------------------------------------------------------
// Moving subtractions across an equation
// ---------------------------------------------------------------------------

/// The pairs that `swap_sub` hands back unchanged.
pub open spec fn swap_terminal(lhs: ExprModel, rhs: ExprModel) -> bool {
    ||| is_atom(lhs) && is_atom(rhs)
    ||| lhs is Var && rhs is Mult
    ||| lhs is Mult && rhs is Var
}

/// A sum on one side and an atom on the other.
pub open spec fn swap_add_case(lhs: ExprModel, rhs: ExprModel) -> bool {
    ||| lhs is Add && is_atom(rhs)
    ||| is_atom(lhs) && rhs is Add
}

/// A difference on one side and an atom or a product on the other.
pub open spec fn swap_sub_case(lhs: ExprModel, rhs: ExprModel) -> bool {
    ||| lhs is Sub && (is_atom(rhs) || rhs is Mult)
    ||| (is_atom(lhs) || lhs is Mult) && rhs is Sub
}

/// Whether `swap_sub` hands the sides of `lhs = rhs` back in turned order: it
/// does where a sum or difference stands on the left.
pub open spec fn swap_turns(lhs: ExprModel) -> bool {
    lhs is Add || lhs is Sub
}

/// The pair `p` that `swap_sub` made of `lhs = ..`, put back in the order of
/// `lhs`'s side: turned around where `swap_sub` turned it.
pub open spec fn upright(lhs: ExprModel, p: (ExprModel, ExprModel)) -> (ExprModel, ExprModel) {
    if swap_turns(lhs) {
        (p.1, p.0)
    } else {
        p
    }
}

/// What `swap_sub` returns for the equation `lhs = rhs`, `None` where it
/// panics. A pair of atoms, or a variable and a product, stays as it is. For
/// `left + right` against an atom `var` (on either side), `var = right` is
/// rewritten to `(l1, r1)`, then `l1 = left` to `(l2, r2)` (put upright), and
/// the result is `var + .. = left + right` as `(l2, r2 + r1)`. For `a - b`
/// against an atom or a linear product `v` (on either side), `a = b` is
/// rewritten to `(l, r)` (put upright), and `a - b = v` becomes `b + v = a`
/// as `(v + r, l)`. (The test of sizes never fails; it is there for
/// termination. `var` is an atom, so `var = right` is never turned.)
pub open spec fn swap_sub_spec(lhs: ExprModel, rhs: ExprModel) -> Option<(ExprModel, ExprModel)>
    decreases size(lhs) + size(rhs),
{
    if swap_terminal(lhs, rhs) {
        Some((lhs, rhs))
    } else if swap_add_case(lhs, rhs) {
        let (sum, var) = if lhs is Add {
            (lhs, rhs)
        } else {
            (rhs, lhs)
        };
        match sum {
            ExprModel::Add(left, right) => match swap_sub_spec(var, *right) {
                Some(p1) => if size(p1.0) + size(p1.1) == size(var) + size(*right) {
                    match swap_sub_spec(p1.0, *left) {
                        Some(p2) => {
                            let q2 = upright(p1.0, p2);
                            Some((q2.0, ExprModel::Add(Box::new(q2.1), Box::new(p1.1))))
                        },
                        None => None,
                    }
                } else {
                    None
                },
                None => None,
            },
            _ => None,
        }
    } else if swap_sub_case(lhs, rhs) {
        let (diff, v) = if lhs is Sub {
            (lhs, rhs)
        } else {
            (rhs, lhs)
        };
        match diff {
            ExprModel::Sub(a, b) => if linear(v) {
                match swap_sub_spec(*a, *b) {
                    Some(p) => {
                        let q = upright(*a, p);
                        Some((ExprModel::Add(Box::new(v), Box::new(q.1)), q.0))
                    },
                    None => None,
                }
            } else {
                None
            },
            _ => None,
        }
    } else {
        None
    }
}

/// `swap_sub` keeps the number of nodes.
pub proof fn lemma_swap_sub_size(lhs: ExprModel, rhs: ExprModel)
    requires
        swap_sub_spec(lhs, rhs) is Some,
    ensures
        ({
            let o = swap_sub_spec(lhs, rhs).unwrap();
            size(o.0) + size(o.1) == size(lhs) + size(rhs)
        }),
    decreases size(lhs) + size(rhs),
{
    if swap_terminal(lhs, rhs) {
    } else if swap_add_case(lhs, rhs) {
        let (sum, var) = if lhs is Add {
            (lhs, rhs)
        } else {
            (rhs, lhs)
        };
        if let ExprModel::Add(left, right) = sum {
            let p1 = swap_sub_spec(var, *right).unwrap();
            lemma_swap_sub_size(var, *right);
            lemma_swap_sub_size(p1.0, *left);
        }
    } else if swap_sub_case(lhs, rhs) {
        let (diff, v) = if lhs is Sub {
            (lhs, rhs)
        } else {
            (rhs, lhs)
        };
        if let ExprModel::Sub(a, b) = diff {
            lemma_swap_sub_size(*a, *b);
        }
    }
}

/// `+1` where `swap_sub` keeps the orientation of `lhs - rhs`, `-1` where it
/// turns it around (see `swap_turns`).
pub open spec fn swap_sign(lhs: ExprModel) -> int {
    if swap_turns(lhs) {
        -1
    } else {
        1
    }
}

/// Law: `swap_sub` keeps the meaning of the equation `lhs = rhs`. The
/// difference of the two sides it returns equals, under every assignment of
/// the variables, the difference `lhs - rhs`, or its negation where the sides
/// change places; so the new equation holds exactly where `lhs = rhs` holds.
pub proof fn lemma_swap_sub_equation(lhs: ExprModel, rhs: ExprModel, env: spec_fn(Seq<char>) -> int)
    requires
        swap_sub_spec(lhs, rhs) is Some,
    ensures
        ({
            let o = swap_sub_spec(lhs, rhs).unwrap();
            eval(o.0, env) - eval(o.1, env) == swap_sign(lhs) * (eval(lhs, env) - eval(rhs, env))
        }),
    decreases size(lhs) + size(rhs),
{
    if swap_terminal(lhs, rhs) {
    } else if swap_add_case(lhs, rhs) {
        let (sum, var) = if lhs is Add {
            (lhs, rhs)
        } else {
            (rhs, lhs)
        };
        if let ExprModel::Add(left, right) = sum {
            let p1 = swap_sub_spec(var, *right).unwrap();
            lemma_swap_sub_equation(var, *right, env);
            lemma_swap_sub_size(var, *right);
            let p2 = swap_sub_spec(p1.0, *left).unwrap();
            lemma_swap_sub_equation(p1.0, *left, env);
            let q2 = upright(p1.0, p2);
            assert(eval(q2.0, env) - eval(q2.1, env) == eval(p1.0, env) - eval(*left, env));
            assert(eval(p1.0, env) - eval(p1.1, env) == eval(var, env) - eval(*right, env));
            let o = swap_sub_spec(lhs, rhs).unwrap();
            assert(o == (q2.0, ExprModel::Add(Box::new(q2.1), Box::new(p1.1))));
            assert(eval(o.1, env) == eval(q2.1, env) + eval(p1.1, env));
        }
    } else if swap_sub_case(lhs, rhs) {
        let (diff, v) = if lhs is Sub {
            (lhs, rhs)
        } else {
            (rhs, lhs)
        };
        if let ExprModel::Sub(a, b) = diff {
            let p = swap_sub_spec(*a, *b).unwrap();
            lemma_swap_sub_equation(*a, *b, env);
            let q = upright(*a, p);
            assert(eval(q.0, env) - eval(q.1, env) == eval(*a, env) - eval(*b, env));
            let o = swap_sub_spec(lhs, rhs).unwrap();
            assert(o == (ExprModel::Add(Box::new(v), Box::new(q.1)), q.0));
            assert(eval(o.0, env) == eval(v, env) + eval(q.1, env));
        }
    }
}

/// No difference anywhere in the expression.
pub open spec fn sub_free(e: ExprModel) -> bool
    decreases e,
{
    match e {
        ExprModel::Sub(_, _) => false,
        ExprModel::Add(a, b) => sub_free(*a) && sub_free(*b),
        ExprModel::Mult(a, b) => sub_free(*a) && sub_free(*b),
        ExprModel::Div(a, b) => sub_free(*a) && sub_free(*b),
        _ => true,
    }
}

/// Differences stand only among sums and differences, never inside a product
/// or quotient.
pub open spec fn subs_outside_products(e: ExprModel) -> bool
    decreases e,
{
    match e {
        ExprModel::Add(a, b) => subs_outside_products(*a) && subs_outside_products(*b),
        ExprModel::Sub(a, b) => subs_outside_products(*a) && subs_outside_products(*b),
        ExprModel::Mult(a, b) => sub_free(*a) && sub_free(*b),
        ExprModel::Div(a, b) => sub_free(*a) && sub_free(*b),
        _ => true,
    }
}

proof fn lemma_sub_free_outside(e: ExprModel)
    requires
        sub_free(e),
    ensures
        subs_outside_products(e),
    decreases e,
{
    if let ExprModel::Add(a, b) = e {
        lemma_sub_free_outside(*a);
        lemma_sub_free_outside(*b);
    }
}

/// Law: where no difference hides inside a product, `swap_sub` leaves no
/// difference in either side it returns.
pub proof fn lemma_swap_sub_removes_differences(lhs: ExprModel, rhs: ExprModel)
    requires
        swap_sub_spec(lhs, rhs) is Some,
        subs_outside_products(lhs),
        subs_outside_products(rhs),
    ensures
        sub_free(swap_sub_spec(lhs, rhs).unwrap().0),
        sub_free(swap_sub_spec(lhs, rhs).unwrap().1),
    decreases size(lhs) + size(rhs),
{
    if swap_terminal(lhs, rhs) {
    } else if swap_add_case(lhs, rhs) {
        let (sum, var) = if lhs is Add {
            (lhs, rhs)
        } else {
            (rhs, lhs)
        };
        if let ExprModel::Add(left, right) = sum {
            let p1 = swap_sub_spec(var, *right).unwrap();
            lemma_swap_sub_removes_differences(var, *right);
            lemma_sub_free_outside(p1.0);
            lemma_swap_sub_removes_differences(p1.0, *left);
        }
    } else if swap_sub_case(lhs, rhs) {
        let (diff, v) = if lhs is Sub {
            (lhs, rhs)
        } else {
            (rhs, lhs)
        };
        if let ExprModel::Sub(a, b) = diff {
            lemma_swap_sub_removes_differences(*a, *b);
            assert(sub_free(v));
        }
    }
}

fn is_atom_expr<T: Field>(e: &Expression<T>) -> (r: bool)
    ensures
        r == is_atom(e@),
{
    match e {
        Expression::NumberLiteral(_) => true,
        Expression::VariableReference(_) => true,
        _ => false,
    }
}

fn is_var_expr<T: Field>(e: &Expression<T>) -> (r: bool)
    ensures
        r == e@ is Var,
{
    match e {
        Expression::VariableReference(_) => true,
        _ => false,
    }
}

fn is_add_expr<T: Field>(e: &Expression<T>) -> (r: bool)
    ensures
        r == e@ is Add,
{
    match e {
        Expression::Add(_, _) => true,
        _ => false,
    }
}

fn is_sub_expr<T: Field>(e: &Expression<T>) -> (r: bool)
    ensures
        r == e@ is Sub,
{
    match e {
        Expression::Sub(_, _) => true,
        _ => false,
    }
}

fn is_mult_expr<T: Field>(e: &Expression<T>) -> (r: bool)
    ensures
        r == e@ is Mult,
{
    match e {
        Expression::Mult(_, _) => true,
        _ => false,
    }
}

/// The rewriting of `swap_sub_spec` on the expressions themselves, every
/// name, literal and untouched operand (such as those of a power inside a
/// product) carried over as it stands: what `swap_sub` returns, `None` where
/// it panics. Its model is `swap_sub_spec` of the models.
pub open spec fn swap_sub_exact<T: Field>(lhs: Expression<T>, rhs: Expression<T>) -> Option<
    (Expression<T>, Expression<T>),
>
    decreases size(lhs@) + size(rhs@),
{
    if swap_terminal(lhs@, rhs@) {
        Some((lhs, rhs))
    } else if swap_add_case(lhs@, rhs@) {
        let (sum, var) = if lhs@ is Add {
            (lhs, rhs)
        } else {
            (rhs, lhs)
        };
        match sum {
            Expression::Add(left, right) => match swap_sub_exact(var, *right) {
                Some(p1) => if size(p1.0@) + size(p1.1@) == size(var@) + size(right@) {
                    match swap_sub_exact(p1.0, *left) {
                        Some(p2) => {
                            let q2 = if swap_turns(p1.0@) {
                                (p2.1, p2.0)
                            } else {
                                p2
                            };
                            Some((q2.0, Expression::Add(Box::new(q2.1), Box::new(p1.1))))
                        },
                        None => None,
                    }
                } else {
                    None
                },
                None => None,
            },
            _ => None,
        }
    } else if swap_sub_case(lhs@, rhs@) {
        let (diff, v) = if lhs@ is Sub {
            (lhs, rhs)
        } else {
            (rhs, lhs)
        };
        match diff {
            Expression::Sub(a, b) => if linear(v@) {
                match swap_sub_exact(*a, *b) {
                    Some(p) => {
                        let q = if swap_turns(a@) {
                            (p.1, p.0)
                        } else {
                            p
                        };
                        Some((Expression::Add(Box::new(v), Box::new(q.1)), q.0))
                    },
                    None => None,
                }
            } else {
                None
            },
            _ => None,
        }
    } else {
        None
    }
}

/// Rewrites the equation `lhs = rhs` so that no subtraction is left: a
/// difference `a - b` facing `v` becomes `b + v` facing `a`, recursively,
/// and sums are reassociated around the atom they face (see
/// `swap_sub_spec`). The rewritten equation holds exactly where `lhs = rhs`
/// does (`lemma_swap_sub_equation`). A pair with nothing to move comes back
/// as copies of `lhs` and `rhs`.
///
/// Pairs that no rule covers are refused: a literal facing a product, a sum
/// or difference facing a sum, difference, quotient, power or conditional,
/// a sum facing a product, a difference facing a product that is not
/// linear, and any pair that the rewriting reaches on its way (for instance
/// `x = 5 + ((c - d) - 2 * y)`, whose inner steps leave the literal `5`
/// facing the product `2 * y`).
pub fn swap_sub<T: Field>(lhs: &Expression<T>, rhs: &Expression<T>) -> (r: (
    Expression<T>,
    Expression<T>,
))
    requires
        swap_sub_spec(lhs@, rhs@) is Some,
    ensures
        swap_sub_exact(*lhs, *rhs) == Some(r),
        swap_sub_spec(lhs@, rhs@) == Some((r.0@, r.1@)),
        swap_terminal(lhs@, rhs@) ==> r.0 == *lhs && r.1 == *rhs,
    decreases size(lhs@) + size(rhs@),
{
    let lhs_atom = is_atom_expr(lhs);
    let rhs_atom = is_atom_expr(rhs);
    let terminal = (lhs_atom && rhs_atom) || (is_var_expr(lhs) && is_mult_expr(rhs)) || (
    is_mult_expr(lhs) && is_var_expr(rhs));
    if terminal {
        return (lhs.duplicate(), rhs.duplicate());
    }
    let lhs_add = is_add_expr(lhs);
    if (lhs_add && rhs_atom) || (lhs_atom && is_add_expr(rhs)) {
        let (sum, var) = if lhs_add {
            (lhs, rhs)
        } else {
            (rhs, lhs)
        };
        match sum {
            Expression::Add(left, right) => {
                let (l1, r1) = swap_sub(var, &**right);
                proof {
                    lemma_swap_sub_size(var@, right@);
                }
                let turned = is_add_expr(&l1) || is_sub_expr(&l1);
                let (l2, r2) = swap_sub(&l1, &**left);
                let (l2, r2) = if turned {
                    (r2, l2)
                } else {
                    (l2, r2)
                };
                (l2, Expression::Add(Box::new(r2), Box::new(r1)))
            },
            _ => {
                proof {
                    assert(false);
                }
                (lhs.duplicate(), rhs.duplicate())
            },
        }
    } else {
        let (diff, v) = if is_sub_expr(lhs) {
            (lhs, rhs)
        } else {
            (rhs, lhs)
        };
        match diff {
            Expression::Sub(a, b) => {
                let turned = is_add_expr(&**a) || is_sub_expr(&**a);
                let (l, r) = swap_sub(&**a, &**b);
                let (l, r) = if turned {
                    (r, l)
                } else {
                    (l, r)
                };
                (Expression::Add(Box::new(v.duplicate()), Box::new(r)), l)
            },
            _ => {
                proof {
                    assert(false);
                }
                (lhs.duplicate(), rhs.duplicate())
            },
        }
    }
}

// ---------------------------------------------------------------------------
// Variable indices and rows
// ---------------------------------------------------------------------------

/// The names of a list of variables.
pub open spec fn views(v: Seq<String>) -> Seq<Seq<char>> {
    v.map_values(|s: String| s@)
}

/// The index of the first occurrence of `k` in `vs` (`vs.len()` where it
/// does not occur).
pub open spec fn first_index(vs: Seq<Seq<char>>, k: Seq<char>) -> int
    decreases vs.len(),
{
    if vs.len() == 0 {
        0
    } else if vs[0] == k {
        0
    } else {
        1 + first_index(vs.drop_first(), k)
    }
}

/// The first occurrence of a name that occurs is where it stands, and no
/// earlier entry holds it.
pub proof fn lemma_first_index(vs: Seq<Seq<char>>, k: Seq<char>)
    requires
        vs.contains(k),
    ensures
        0 <= first_index(vs, k) < vs.len(),
        vs[first_index(vs, k)] == k,
        forall|j: int| 0 <= j < first_index(vs, k) ==> vs[j] != k,
    decreases vs.len(),
{
    if vs[0] != k {
        let i = choose|i: int| 0 <= i < vs.len() && vs[i] == k;
        assert(vs.drop_first()[i - 1] == k);
        lemma_first_index(vs.drop_first(), k);
        assert forall|j: int| 0 <= j < first_index(vs, k) implies vs[j] != k by {
            if j > 0 {
                assert(vs[j] == vs.drop_first()[j - 1]);
            }
        }
    }
}

pub proof fn lemma_first_index_at(vs: Seq<Seq<char>>, k: Seq<char>, i: int)
    requires
        0 <= i < vs.len(),
        vs[i] == k,
        forall|j: int| 0 <= j < i ==> vs[j] != k,
    ensures
        first_index(vs, k) == i,
    decreases vs.len(),
{
    if i > 0 {
        assert forall|j: int| 0 <= j < i - 1 implies vs.drop_first()[j] != k by {
            assert(vs.drop_first()[j] == vs[j + 1]);
        }
        lemma_first_index_at(vs.drop_first(), k, i - 1);
    }
}

/// Two names that occur share their first index only if they are equal.
proof fn lemma_first_index_injective(vs: Seq<Seq<char>>, k1: Seq<char>, k2: Seq<char>)
    requires
        vs.contains(k1),
        vs.contains(k2),
        first_index(vs, k1) == first_index(vs, k2),
    ensures
        k1 == k2,
{
    lemma_first_index(vs, k1);
    lemma_first_index(vs, k2);
}

/// The index of the first variable named `name`, as `position` finds it.
fn position(vars: &Vec<String>, name: &String) -> (r: usize)
    requires
        views(vars@).contains(name@),
    ensures
        r == first_index(views(vars@), name@),
        r < vars@.len(),
{
    let ghost vs = views(vars@);
    proof {
        lemma_first_index(vs, name@);
    }
    let mut i: usize = 0;
    while i < vars.len()
        invariant
            vs == views(vars@),
            i <= vars@.len(),
            0 <= first_index(vs, name@) < vs.len(),
            vs[first_index(vs, name@)] == name@,
            forall|j: int| 0 <= j < i ==> vs[j] != name@,
        decreases vars.len() - i,
    {
        if vars[i] == *name {
            proof {
                lemma_first_index_at(vs, name@, i as int);
            }
            return i;
        }
        i += 1;
    }
    proof {
        assert(vs[first_index(vs, name@)] != name@);
    }
    0
}

/// A linear combination over names turned into one over variable indices:
/// each name by the index of its first occurrence in `vs`.
pub open spec fn indexed(m: Map<Seq<char>, int>, vs: Seq<Seq<char>>) -> Map<int, int> {
    Map::new(
        |j: int| exists|k: Seq<char>| m.dom().contains(k) && first_index(vs, k) == j,
        |j: int| m[choose|k: Seq<char>| m.dom().contains(k) && first_index(vs, k) == j],
    )
}

/// The row entries `app` hold exactly the combination `m` over indices:
/// no index twice, every entry's coefficient that of its index reduced
/// modulo the field's order, every index of `m` present. (The order of the
/// entries is not fixed.)
pub open spec fn row_is<T: Field>(app: Seq<(usize, T)>, m: Map<int, int>) -> bool {
    &&& forall|i: int, j: int| 0 <= i < j < app.len() ==> #[trigger] app[i].0 != #[trigger] app[j].0
    &&& forall|i: int|
        #![trigger app[i]]
        0 <= i < app.len() ==> m.dom().contains(app[i].0 as int) && app[i].1.value() == m[app[i].0
            as int] % T::order()
    &&& forall|j: int|
        #![trigger m.dom().contains(j)]
        m.dom().contains(j) ==> exists|i: int| 0 <= i < app.len() && app[i].0 == j
}

/// The value of row entries under the witness `w`.
pub open spec fn dot<T: Field>(app: Seq<(usize, T)>, w: spec_fn(int) -> int) -> int
    decreases app.len(),
{
    if app.len() == 0 {
        0
    } else {
        dot(app.drop_last(), w) + app.last().1.value() * w(app.last().0 as int)
    }
}

/// The assignment of names that the witness `w` gives: each name the value
/// at the index of its first occurrence in `vs`.
pub open spec fn env_of(vs: Seq<Seq<char>>, w: spec_fn(int) -> int) -> spec_fn(Seq<char>) -> int {
    |k: Seq<char>| w(first_index(vs, k))
}

/// A witness in the sense of the constraint system over `vs`: `vs` starts
/// with the variable `~one`, and `w` gives it the value one.
pub open spec fn one_first(vs: Seq<Seq<char>>, w: spec_fn(int) -> int) -> bool {
    vs.len() > 0 && vs[0] == one_name() && w(0) == 1
}

/// `new` is `old` with entries appended.
pub open spec fn extends<A>(new: Seq<A>, old: Seq<A>) -> bool {
    new.len() >= old.len() && new.subrange(0, old.len() as int) == old
}

/// The entries appended to `old` to make `new`.
pub open spec fn appended<A>(new: Seq<A>, old: Seq<A>) -> Seq<A> {
    new.subrange(old.len() as int, new.len() as int)
}

/// A sum whose linear combination `count_variables_add` computes and whose
/// variables all occur in `vs`.
pub open spec fn countable(e: ExprModel, vs: Seq<Seq<char>>) -> bool {
    add_form(e) && forall|k: Seq<char>| #[trigger] lc(e).dom().contains(k) ==> vs.contains(k)
}

proof fn lemma_one_first_index(vs: Seq<Seq<char>>)
    requires
        vs.len() > 0,
        vs[0] == one_name(),
    ensures
        first_index(vs, one_name()) == 0,
{
}

proof fn lemma_dot_weighted<T: Field>(
    app: Seq<(usize, T)>,
    cv: Seq<(String, T)>,
    vs: Seq<Seq<char>>,
    w: spec_fn(int) -> int,
)
    requires
        app.len() == cv.len(),
        forall|j: int|
            #![trigger app[j]]
            0 <= j < app.len() ==> app[j].0 == first_index(vs, cv[j].0@) && app[j].1 == cv[j].1,
    ensures
        dot(app, w) == weighted(cv, env_of(vs, w)),
    decreases app.len(),
{
    if app.len() > 0 {
        lemma_dot_weighted(app.drop_last(), cv.drop_last(), vs, w);
        assert(app.last() == app[app.len() - 1]);
    }
}

/// Appends the linear combination of `e` to `row`, each variable by its
/// index in `vars`.
fn push_lin_row<T: Field>(row: &mut Vec<(usize, T)>, e: &Expression<T>, vars: &Vec<String>)
    requires
        countable(e@, views(vars@)),
    ensures
        extends(final(row)@, old(row)@),
        row_is(appended(final(row)@, old(row)@), indexed(lc(e@), views(vars@))),
        forall|w: spec_fn(int) -> int|
            one_first(views(vars@), w) ==> #[trigger] dot(appended(final(row)@, old(row)@), w)
                % T::order() == eval(e@, env_of(views(vars@), w)) % T::order(),
{
    let ghost vs = views(vars@);
    let ghost m = lc(e@);
    let cv = count_variables_add(e);
    let ghost r0 = row@;
    let mut i: usize = 0;
    while i < cv.len()
        invariant
            vs == views(vars@),
            m == lc(e@),
            countable(e@, vs),
            represents(cv@, m),
            i <= cv@.len(),
            row@.len() == r0.len() + i,
            row@.subrange(0, r0.len() as int) == r0,
            forall|j: int|
                #![trigger row@[j]]
                r0.len() <= j < row@.len() ==> row@[j].0 == first_index(vs, cv@[j - r0.len()].0@)
                    && row@[j].1 == cv@[j - r0.len()].1,
        decreases cv.len() - i,
    {
        assert(m.dom().contains(cv@[i as int].0@));
        let idx = position(vars, &cv[i].0);
        let c = cv[i].1.duplicate();
        row.push((idx, c));
        i += 1;
    }
    proof {
        let app = appended(row@, r0);
        assert(app.len() == cv@.len());
        assert forall|j: int|
            #![trigger app[j]]
            0 <= j < app.len() implies app[j].0 == first_index(vs, cv@[j].0@) && app[j].1
            == cv@[j].1 by {
            assert(app[j] == row@[j + r0.len()]);
        }
        // the entries are the combination `m` over indices
        assert forall|a: int, b: int| 0 <= a < b < app.len() implies #[trigger] app[a].0
            != #[trigger] app[b].0 by {
            if app[a].0 == app[b].0 {
                assert(cv@[a].0@ != cv@[b].0@);
                lemma_first_index_injective(vs, cv@[a].0@, cv@[b].0@);
            }
        }
        let im = indexed(m, vs);
        assert forall|a: int|
            #![trigger app[a]]
            0 <= a < app.len() implies im.dom().contains(app[a].0 as int) && app[a].1.value()
            == im[app[a].0 as int] % T::order() by {
            let k = cv@[a].0@;
            assert(m.dom().contains(k) && first_index(vs, k) == app[a].0 as int);
            let k2 = choose|k2: Seq<char>|
                m.dom().contains(k2) && first_index(vs, k2) == app[a].0 as int;
            lemma_first_index_injective(vs, k, k2);
        }
        assert forall|j: int|
            #![trigger im.dom().contains(j)]
            im.dom().contains(j) implies exists|a: int| 0 <= a < app.len() && app[a].0 == j by {
            let k = choose|k: Seq<char>| m.dom().contains(k) && first_index(vs, k) == j;
            let a = choose|a: int| 0 <= a < cv@.len() && cv@[a].0@ == k;
            assert(app[a].0 == j);
        }
        assert forall|w: spec_fn(int) -> int|
            one_first(vs, w) implies #[trigger] dot(app, w) % T::order() == eval(
                e@,
                env_of(vs, w),
            ) % T::order() by {
            lemma_dot_weighted(app, cv@, vs, w);
            lemma_one_first_index(vs);
        }
    }
}

/// Appends the row that holds the constant one: coefficient one at index 0.
fn push_unit_row<T: Field>(row: &mut Vec<(usize, T)>)
    ensures
        extends(final(row)@, old(row)@),
        row_is(appended(final(row)@, old(row)@), unit_row()),
        forall|w: spec_fn(int) -> int|
            w(0) == 1 ==> #[trigger] dot(appended(final(row)@, old(row)@), w) == 1,
{
    let ghost r0 = row@;
    let one = T::one();
    row.push((0, one));
    proof {
        T::lemma_order_exceeds_one();
        lemma_small_mod(1, T::order() as nat);
        let app = appended(row@, r0);
        assert(app[0] == row@[r0.len() as int]);
        assert(row@.subrange(0, r0.len() as int) =~= r0);
        lemma_single_row(app, 0, 1);
    }
}

/// An operand of a product or quotient that a row can hold: a literal, a
/// variable of `vs`, or a countable sum.
pub open spec fn side_ok(x: ExprModel, vs: Seq<Seq<char>>) -> bool {
    match x {
        ExprModel::Num(_) => true,
        ExprModel::Var(v) => vs.contains(v),
        ExprModel::Add(_, _) => countable(x, vs),
        _ => false,
    }
}

/// A literal or a variable of `vs`.
pub open spec fn atom_ok(x: ExprModel, vs: Seq<Seq<char>>) -> bool {
    match x {
        ExprModel::Num(_) => true,
        ExprModel::Var(v) => vs.contains(v),
        _ => false,
    }
}

/// The row of an operand: a literal as the coefficient of index 0, a
/// variable as coefficient one of its index, a sum as its linear
/// combination.
pub open spec fn side_row(x: ExprModel, vs: Seq<Seq<char>>) -> Map<int, int> {
    match x {
        ExprModel::Num(c) => map![0int => c],
        ExprModel::Var(v) => map![first_index(vs, v) => 1int],
        _ => indexed(lc(x), vs),
    }
}

/// The row that holds the constant one.
pub open spec fn unit_row() -> Map<int, int> {
    map![0int => 1int]
}

proof fn lemma_single_row<T: Field>(app: Seq<(usize, T)>, j: int, c: int)
    requires
        app.len() == 1,
        app[0].0 == j,
        app[0].1.value() == c % T::order(),
    ensures
        row_is(app, map![j => c]),
        forall|w: spec_fn(int) -> int| #[trigger] dot(app, w) == app[0].1.value() * w(j),
{
    assert forall|w: spec_fn(int) -> int| #[trigger] dot(app, w) == app[0].1.value() * w(j) by {
        assert(dot(app.drop_last(), w) == 0);
        assert(app.last() == app[0]);
    }
}

/// Appends the row of the operand `x` (see `side_row`).
fn push_side_row<T: Field>(row: &mut Vec<(usize, T)>, x: &Expression<T>, vars: &Vec<String>)
    requires
        side_ok(x@, views(vars@)),
    ensures
        extends(final(row)@, old(row)@),
        row_is(appended(final(row)@, old(row)@), side_row(x@, views(vars@))),
        forall|w: spec_fn(int) -> int|
            one_first(views(vars@), w) ==> #[trigger] dot(appended(final(row)@, old(row)@), w)
                % T::order() == eval(x@, env_of(views(vars@), w)) % T::order(),
{
    let ghost vs = views(vars@);
    let ghost r0 = row@;
    proof {
        T::lemma_order_exceeds_one();
    }
    match x {
        Expression::NumberLiteral(c) => {
            row.push((0, c.duplicate()));
            proof {
                T::lemma_value_bounds(c);
                lemma_small_mod(c.value() as nat, T::order() as nat);
                let app = appended(row@, r0);
                assert(app[0] == row@[r0.len() as int]);
                assert(row@.subrange(0, r0.len() as int) =~= r0);
                lemma_single_row(app, 0, c.value());
                assert(x@ == ExprModel::Num(c.value()));
                assert forall|w: spec_fn(int) -> int| one_first(vs, w) implies #[trigger] dot(
                    app,
                    w,
                ) % T::order() == eval(x@, env_of(vs, w)) % T::order() by {
                    assert(dot(app, w) == c.value() * w(0));
                    assert(c.value() * w(0) == c.value());
                }
            }
        },
        Expression::VariableReference(v) => {
            let idx = position(vars, v);
            let one = T::one();
            row.push((idx, one));
            proof {
                lemma_small_mod(1, T::order() as nat);
                let app = appended(row@, r0);
                assert(app[0] == row@[r0.len() as int]);
                assert(row@.subrange(0, r0.len() as int) =~= r0);
                lemma_single_row(app, idx as int, 1);
                assert(x@ == ExprModel::Var(v@));
                assert forall|w: spec_fn(int) -> int| one_first(vs, w) implies #[trigger] dot(
                    app,
                    w,
                ) % T::order() == eval(x@, env_of(vs, w)) % T::order() by {
                    assert(dot(app, w) == 1 * w(idx as int));
                    assert(eval(x@, env_of(vs, w)) == w(first_index(vs, v@)));
                }
            }
        },
        _ => {
            push_lin_row(row, x, vars);
        },
    }
}

/// An assertion that `z` vanishes modulo `p` says the same of `-z`.
proof fn lemma_neg_mod_zero(z: int, p: int)
    requires
        p > 0,
    ensures
        (z % p == 0) == ((-z) % p == 0),
{
    vstd::arithmetic::div_mod::lemma_sub_mod_noop(0, z, p);
    vstd::arithmetic::div_mod::lemma_sub_mod_noop(0, -z, p);
    lemma_small_mod(0, p as nat);
}

/// A constraint `a * b - c = 0` modulo `p` holds of values congruent to
/// `x`, `y`, `z` exactly when it holds of those.
proof fn lemma_constraint_mod(a: int, b: int, c: int, x: int, y: int, z: int, p: int)
    requires
        p > 0,
        a % p == x % p,
        b % p == y % p,
        c % p == z % p,
    ensures
        (a * b - c) % p == (x * y - z) % p,
{
    vstd::arithmetic::div_mod::lemma_mul_mod_noop(a, b, p);
    vstd::arithmetic::div_mod::lemma_mul_mod_noop(x, y, p);
    vstd::arithmetic::div_mod::lemma_sub_mod_noop(a * b, c, p);
    vstd::arithmetic::div_mod::lemma_sub_mod_noop(x * y, z, p);
}

// ---------------------------------------------------------------------------
// One constraint per statement
// ---------------------------------------------------------------------------

/// The rows `(A, B, C)` that `r1cs_expression` appends for the equation
/// `linear_expr = expr` over the variables `vs`; `None` where it panics.
///
/// - a sum or difference: `swap_sub` turns the equation into `l = r`;
///   `A` is `r`, `B` is one, `C` is `l`;
/// - a product `x * y`: `A` is `x`, `B` is `y`, `C` is `linear_expr`;
/// - a quotient `x / y`: `A` is `linear_expr`, `B` is `y`, `C` is `x`;
///   where `x` is a difference, the rows of `linear_expr * y = x` instead;
/// - a variable or a literal: `A` is it, `B` is one, `C` is `linear_expr`.
///
/// `linear_expr` must be linear, and every row's sum must be countable over
/// `vs`; powers and conditionals are refused.
pub open spec fn r1cs_rows(linear_expr: ExprModel, expr: ExprModel, vs: Seq<Seq<char>>) -> Option<
    (Map<int, int>, Map<int, int>, Map<int, int>),
>
    decreases size(expr),
{
    if !linear(linear_expr) {
        None
    } else {
        match expr {
            ExprModel::Add(_, _) | ExprModel::Sub(_, _) => match swap_sub_spec(linear_expr, expr) {
                Some(o) => if countable(o.1, vs) && countable(o.0, vs) {
                    Some((indexed(lc(o.1), vs), unit_row(), indexed(lc(o.0), vs)))
                } else {
                    None
                },
                None => None,
            },
            ExprModel::Mult(x, y) => if side_ok(*x, vs) && side_ok(*y, vs) && countable(
                linear_expr,
                vs,
            ) {
                Some((side_row(*x, vs), side_row(*y, vs), indexed(lc(linear_expr), vs)))
            } else {
                None
            },
            ExprModel::Div(x, y) => if *x is Sub {
                r1cs_rows(ExprModel::Mult(Box::new(linear_expr), y), *x, vs)
            } else if side_ok(*x, vs) && atom_ok(*y, vs) && countable(linear_expr, vs) {
                Some((indexed(lc(linear_expr), vs), side_row(*y, vs), side_row(*x, vs)))
            } else {
                None
            },
            ExprModel::Var(v) => if vs.contains(v) && countable(linear_expr, vs) {
                Some((side_row(expr, vs), unit_row(), indexed(lc(linear_expr), vs)))
            } else {
                None
            },
            ExprModel::Num(_) => if countable(linear_expr, vs) {
                Some((side_row(expr, vs), unit_row(), indexed(lc(linear_expr), vs)))
            } else {
                None
            },
            _ => None,
        }
    }
}

/// The equation `linear_expr = expr` modulo `p` under `env`; a quotient
/// `x / y` is read as `linear_expr * y = x`.
pub open spec fn equation_holds(
    linear_expr: ExprModel,
    expr: ExprModel,
    env: spec_fn(Seq<char>) -> int,
    p: int,
) -> bool {
    match expr {
        ExprModel::Div(x, y) => (eval(linear_expr, env) * eval(*y, env) - eval(*x, env)) % p == 0,
        _ => (eval(linear_expr, env) - eval(expr, env)) % p == 0,
    }
}

/// The constraint `(A . w) * (B . w) = C . w` modulo `p`.
pub open spec fn constraint_holds<T: Field>(
    a: Seq<(usize, T)>,
    b: Seq<(usize, T)>,
    c: Seq<(usize, T)>,
    w: spec_fn(int) -> int,
) -> bool {
    (dot(a, w) * dot(b, w) - dot(c, w)) % T::order() == 0
}

/// Appends to `a_row`, `b_row` and `c_row` the constraint for the equation
/// `linear_expr = expr`, each variable by the index of its first occurrence
/// in `variables` (see `r1cs_rows`). Under every witness that gives `~one`
/// (the first variable) the value one, the constraint holds exactly where
/// the equation does.
pub fn r1cs_expression<T: Field>(
    linear_expr: Expression<T>,
    expr: Expression<T>,
    variables: &mut Vec<String>,
    a_row: &mut Vec<(usize, T)>,
    b_row: &mut Vec<(usize, T)>,
    c_row: &mut Vec<(usize, T)>,
)
    requires
        r1cs_rows(linear_expr@, expr@, views(old(variables)@)) is Some,
    ensures
        final(variables)@ == old(variables)@,
        extends(final(a_row)@, old(a_row)@),
        extends(final(b_row)@, old(b_row)@),
        extends(final(c_row)@, old(c_row)@),
        ({
            let rows = r1cs_rows(linear_expr@, expr@, views(old(variables)@)).unwrap();
            &&& row_is(appended(final(a_row)@, old(a_row)@), rows.0)
            &&& row_is(appended(final(b_row)@, old(b_row)@), rows.1)
            &&& row_is(appended(final(c_row)@, old(c_row)@), rows.2)
        }),
        forall|w: spec_fn(int) -> int|
            one_first(views(old(variables)@), w) ==> (#[trigger] constraint_holds(
                appended(final(a_row)@, old(a_row)@),
                appended(final(b_row)@, old(b_row)@),
                appended(final(c_row)@, old(c_row)@),
                w,
            ) <==> equation_holds(
                linear_expr@,
                expr@,
                env_of(views(old(variables)@), w),
                T::order(),
            )),
    decreases size(expr@),
{
    let ghost vs = views(variables@);
    let ghost p = T::order();
    let ghost a0 = a_row@;
    let ghost b0 = b_row@;
    let ghost c0 = c_row@;
    proof {
        T::lemma_order_exceeds_one();
    }
    let is_lin = linear_expr.is_linear();
    if !is_lin {
        proof {
            assert(false);
        }
        return;
    }
    match expr {
        Expression::Add(_, _) | Expression::Sub(_, _) => {
            let (lhs, rhs) = swap_sub(&linear_expr, &expr);
            push_lin_row(a_row, &rhs, variables);
            push_unit_row(b_row);
            push_lin_row(c_row, &lhs, variables);
            proof {
                assert forall|w: spec_fn(int) -> int| one_first(vs, w) implies (#[trigger] constraint_holds(
                    appended(a_row@, a0),
                    appended(b_row@, b0),
                    appended(c_row@, c0),
                    w,
                ) <==> equation_holds(linear_expr@, expr@, env_of(vs, w), p)) by {
                    let env = env_of(vs, w);
                    lemma_swap_sub_equation(linear_expr@, expr@, env);
                    lemma_constraint_mod(
                        dot(appended(a_row@, a0), w),
                        dot(appended(b_row@, b0), w),
                        dot(appended(c_row@, c0), w),
                        eval(rhs@, env),
                        1,
                        eval(lhs@, env),
                        p,
                    );
                    lemma_neg_mod_zero(eval(linear_expr@, env) - eval(expr@, env), p);
                }
            }
        },
        Expression::Mult(x, y) => {
            push_side_row(a_row, &*x, variables);
            push_side_row(b_row, &*y, variables);
            push_lin_row(c_row, &linear_expr, variables);
            proof {
                assert forall|w: spec_fn(int) -> int| one_first(vs, w) implies (
                #[trigger] constraint_holds(
                    appended(a_row@, a0),
                    appended(b_row@, b0),
                    appended(c_row@, c0),
                    w,
                ) <==> equation_holds(linear_expr@, expr@, env_of(vs, w), p)) by {
                    let env = env_of(vs, w);
                    lemma_constraint_mod(
                        dot(appended(a_row@, a0), w),
                        dot(appended(b_row@, b0), w),
                        dot(appended(c_row@, c0), w),
                        eval(x@, env),
                        eval(y@, env),
                        eval(linear_expr@, env),
                        p,
                    );
                    lemma_neg_mod_zero(eval(linear_expr@, env) - eval(expr@, env), p);
                }
            }
        },
        Expression::Div(x, y) => {
            if is_sub_expr(&*x) {
                r1cs_expression(
                    Expression::Mult(Box::new(linear_expr), y),
                    *x,
                    variables,
                    a_row,
                    b_row,
                    c_row,
                );
                return;
            }
            push_side_row(c_row, &*x, variables);
            push_side_row(b_row, &*y, variables);
            push_lin_row(a_row, &linear_expr, variables);
            proof {
                assert forall|w: spec_fn(int) -> int| one_first(vs, w) implies (
                #[trigger] constraint_holds(
                    appended(a_row@, a0),
                    appended(b_row@, b0),
                    appended(c_row@, c0),
                    w,
                ) <==> equation_holds(linear_expr@, expr@, env_of(vs, w), p)) by {
                    let env = env_of(vs, w);
                    lemma_constraint_mod(
                        dot(appended(a_row@, a0), w),
                        dot(appended(b_row@, b0), w),
                        dot(appended(c_row@, c0), w),
                        eval(linear_expr@, env),
                        eval(y@, env),
                        eval(x@, env),
                        p,
                    );
                }
            }
        },
        Expression::VariableReference(_) | Expression::NumberLiteral(_) => {
            push_side_row(a_row, &expr, variables);
            push_unit_row(b_row);
            push_lin_row(c_row, &linear_expr, variables);
            proof {
                assert forall|w: spec_fn(int) -> int| one_first(vs, w) implies (
                #[trigger] constraint_holds(
                    appended(a_row@, a0),
                    appended(b_row@, b0),
                    appended(c_row@, c0),
                    w,
                ) <==> equation_holds(linear_expr@, expr@, env_of(vs, w), p)) by {
                    let env = env_of(vs, w);
                    lemma_constraint_mod(
                        dot(appended(a_row@, a0), w),
                        dot(appended(b_row@, b0), w),
                        dot(appended(c_row@, c0), w),
                        eval(expr@, env),
                        1,
                        eval(linear_expr@, env),
                        p,
                    );
                    lemma_neg_mod_zero(eval(linear_expr@, env) - eval(expr@, env), p);
                }
            }
        },
        _ => {
            proof {
                assert(false);
            }
        },
    }
}

// ---------------------------------------------------------------------------
// Programs
// ---------------------------------------------------------------------------

/// The equation a statement asserts: `~out = expr` for a return, `id = expr`
/// for a definition, `lhs = rhs` for a condition.
pub open spec fn statement_equation<T: Field>(s: Statement<T>) -> (ExprModel, ExprModel) {
    match s {
        Statement::Return(e) => (ExprModel::Var(out_name()), e@),
        Statement::Definition(id, e) => (ExprModel::Var(id@), e@),
        Statement::Condition(a, b) => (a@, b@),
    }
}

/// The variable a statement introduces: `~out` for a return, `id` for a
/// definition, none for a condition.
pub open spec fn defined_name<T>(s: Statement<T>) -> Option<Seq<char>> {
    match s {
        Statement::Return(_) => Some(out_name()),
        Statement::Definition(id, _) => Some(id@),
        Statement::Condition(_, _) => None,
    }
}

/// The variables once the first `n` statements are processed: `~one`, the
/// parameters, then the variable of each statement that introduces one.
pub open spec fn program_variables<T>(
    args: Seq<Parameter>,
    stmts: Seq<Statement<T>>,
    n: nat,
) -> Seq<Seq<char>>
    decreases n,
{
    if n == 0 {
        seq![one_name()] + args.map_values(|a: Parameter| a.id@)
    } else {
        let prev = program_variables(args, stmts, (n - 1) as nat);
        match defined_name(stmts[n - 1]) {
            Some(k) => prev.push(k),
            None => prev,
        }
    }
}

/// The rows `(A, B, C)` of statement `i`, over the variables known once it
/// is processed; `None` where `r1cs_expression` panics on it.
pub open spec fn statement_rows<T: Field>(
    args: Seq<Parameter>,
    stmts: Seq<Statement<T>>,
    i: int,
) -> Option<(Map<int, int>, Map<int, int>, Map<int, int>)> {
    let eq = statement_equation(stmts[i]);
    r1cs_rows(eq.0, eq.1, program_variables(args, stmts, (i + 1) as nat))
}

/// `a`, `b`, `c` are the rows of statement `i`, and its constraint holds
/// under a witness exactly where its equation does.
pub open spec fn statement_constraint<T: Field>(
    args: Seq<Parameter>,
    stmts: Seq<Statement<T>>,
    i: int,
    a: Seq<(usize, T)>,
    b: Seq<(usize, T)>,
    c: Seq<(usize, T)>,
) -> bool {
    let vs = program_variables(args, stmts, (i + 1) as nat);
    let eq = statement_equation(stmts[i]);
    let rows = statement_rows(args, stmts, i).unwrap();
    &&& row_is(a, rows.0)
    &&& row_is(b, rows.1)
    &&& row_is(c, rows.2)
    &&& forall|w: spec_fn(int) -> int|
        one_first(vs, w) ==> (#[trigger] constraint_holds(a, b, c, w) <==> equation_holds(
            eq.0,
            eq.1,
            env_of(vs, w),
            T::order(),
        ))
}

/// Every variable of `e` occurs in `vs`.
pub open spec fn vars_in(e: ExprModel, vs: Seq<Seq<char>>) -> bool
    decreases e,
{
    match e {
        ExprModel::Var(v) => vs.contains(v),
        ExprModel::Add(a, b) => vars_in(*a, vs) && vars_in(*b, vs),
        ExprModel::Sub(a, b) => vars_in(*a, vs) && vars_in(*b, vs),
        ExprModel::Mult(a, b) => vars_in(*a, vs) && vars_in(*b, vs),
        ExprModel::Div(a, b) => vars_in(*a, vs) && vars_in(*b, vs),
        _ => true,
    }
}

proof fn lemma_summable_vars_in(e: ExprModel, vs: Seq<Seq<char>>)
    requires
        summable(e),
        forall|k: Seq<char>| #[trigger] lc(e).dom().contains(k) ==> vs.contains(k),
    ensures
        vars_in(e, vs),
    decreases e,
{
    match e {
        ExprModel::Var(v) => {
            assert(lc(e).dom().contains(v));
            assert(vs.contains(v));
        },
        ExprModel::Mult(a, b) => {
            match (*a, *b) {
                (ExprModel::Num(_), ExprModel::Var(v)) => {
                    assert(lc(e).dom().contains(v));
                    assert(vars_in(*a, vs) && vars_in(*b, vs));
                },
                (ExprModel::Var(v), ExprModel::Num(_)) => {
                    assert(lc(e).dom().contains(v));
                    assert(vars_in(*a, vs) && vars_in(*b, vs));
                },
                _ => {},
            }
        },
        ExprModel::Add(a, b) => {
            if !is_term(e) {
                assert forall|k: Seq<char>| #[trigger] lc(*a).dom().contains(k) implies vs.contains(
                    k,
                ) by {
                    assert(lc(e).dom().contains(k));
                }
                assert forall|k: Seq<char>| #[trigger] lc(*b).dom().contains(k) implies vs.contains(
                    k,
                ) by {
                    assert(lc(e).dom().contains(k));
                }
                lemma_summable_vars_in(*a, vs);
                lemma_summable_vars_in(*b, vs);
            }
        },
        _ => {},
    }
}

proof fn lemma_countable_vars_in(e: ExprModel, vs: Seq<Seq<char>>)
    requires
        countable(e, vs),
    ensures
        vars_in(e, vs),
{
    lemma_add_form_summable(e);
    lemma_summable_vars_in(e, vs);
}

proof fn lemma_side_vars_in(x: ExprModel, vs: Seq<Seq<char>>)
    requires
        side_ok(x, vs),
    ensures
        vars_in(x, vs),
{
    if x is Add {
        lemma_countable_vars_in(x, vs);
    }
}

/// The variables of an equation that `swap_sub` rewrites are among those of
/// its result.
proof fn lemma_swap_sub_vars_in(lhs: ExprModel, rhs: ExprModel, vs: Seq<Seq<char>>)
    requires
        swap_sub_spec(lhs, rhs) is Some,
        vars_in(swap_sub_spec(lhs, rhs).unwrap().0, vs),
        vars_in(swap_sub_spec(lhs, rhs).unwrap().1, vs),
    ensures
        vars_in(lhs, vs),
        vars_in(rhs, vs),
    decreases size(lhs) + size(rhs),
{
    if swap_terminal(lhs, rhs) {
    } else if swap_add_case(lhs, rhs) {
        let (sum, var) = if lhs is Add {
            (lhs, rhs)
        } else {
            (rhs, lhs)
        };
        if let ExprModel::Add(left, right) = sum {
            let p1 = swap_sub_spec(var, *right).unwrap();
            lemma_swap_sub_vars_in(p1.0, *left, vs);
            lemma_swap_sub_vars_in(var, *right, vs);
        }
    } else if swap_sub_case(lhs, rhs) {
        let (diff, v) = if lhs is Sub {
            (lhs, rhs)
        } else {
            (rhs, lhs)
        };
        if let ExprModel::Sub(a, b) = diff {
            lemma_swap_sub_vars_in(*a, *b, vs);
        }
    }
}

/// Where `r1cs_expression` accepts an equation, all its variables occur in
/// `vs`.
proof fn lemma_rows_vars_in(linear_expr: ExprModel, expr: ExprModel, vs: Seq<Seq<char>>)
    requires
        r1cs_rows(linear_expr, expr, vs) is Some,
    ensures
        vars_in(linear_expr, vs),
        vars_in(expr, vs),
    decreases size(expr),
{
    match expr {
        ExprModel::Add(_, _) | ExprModel::Sub(_, _) => {
            let o = swap_sub_spec(linear_expr, expr).unwrap();
            assert(countable(o.0, vs) && countable(o.1, vs));
            lemma_countable_vars_in(o.0, vs);
            lemma_countable_vars_in(o.1, vs);
            lemma_swap_sub_vars_in(linear_expr, expr, vs);
            assert(vars_in(expr, vs));
        },
        ExprModel::Mult(x, y) => {
            lemma_side_vars_in(*x, vs);
            lemma_side_vars_in(*y, vs);
            lemma_countable_vars_in(linear_expr, vs);
        },
        ExprModel::Div(x, y) => {
            if *x is Sub {
                lemma_rows_vars_in(ExprModel::Mult(Box::new(linear_expr), y), *x, vs);
                assert(vars_in(linear_expr, vs) && vars_in(*y, vs));
            } else {
                lemma_side_vars_in(*x, vs);
                lemma_countable_vars_in(linear_expr, vs);
                assert(vars_in(*y, vs));
            }
        },
        _ => {
            lemma_countable_vars_in(linear_expr, vs);
        },
    }
}

/// A name of a prefix has the same first index in the whole list.
proof fn lemma_first_index_prefix(vs: Seq<Seq<char>>, full: Seq<Seq<char>>, k: Seq<char>)
    requires
        vs.contains(k),
        full.len() >= vs.len(),
        full.subrange(0, vs.len() as int) == vs,
    ensures
        first_index(full, k) == first_index(vs, k),
{
    lemma_first_index(vs, k);
    let i = first_index(vs, k);
    assert(full[i] == vs[i]);
    assert forall|j: int| 0 <= j < i implies full[j] != k by {
        assert(full[j] == vs[j]);
    }
    lemma_first_index_at(full, k, i);
}

/// A prefix's names occur in the whole list.
proof fn lemma_contains_prefix(vs: Seq<Seq<char>>, full: Seq<Seq<char>>, k: Seq<char>)
    requires
        vs.contains(k),
        full.len() >= vs.len(),
        full.subrange(0, vs.len() as int) == vs,
    ensures
        full.contains(k),
{
    let i = choose|i: int| 0 <= i < vs.len() && vs[i] == k;
    assert(full[i] == vs[i]);
}

/// A combination over the names of a prefix is indexed the same way through
/// the whole list.
proof fn lemma_indexed_prefix(m: Map<Seq<char>, int>, vs: Seq<Seq<char>>, full: Seq<Seq<char>>)
    requires
        forall|k: Seq<char>| #[trigger] m.dom().contains(k) ==> vs.contains(k),
        full.len() >= vs.len(),
        full.subrange(0, vs.len() as int) == vs,
    ensures
        indexed(m, full) == indexed(m, vs),
{
    let a = indexed(m, vs);
    let b = indexed(m, full);
    assert forall|j: int| a.dom().contains(j) <==> b.dom().contains(j) by {
        if a.dom().contains(j) {
            let k = choose|k: Seq<char>| m.dom().contains(k) && first_index(vs, k) == j;
            lemma_first_index_prefix(vs, full, k);
        }
        if b.dom().contains(j) {
            let k = choose|k: Seq<char>| m.dom().contains(k) && first_index(full, k) == j;
            lemma_first_index_prefix(vs, full, k);
        }
    }
    assert forall|j: int| a.dom().contains(j) implies a[j] == b[j] by {
        let k1 = choose|k: Seq<char>| m.dom().contains(k) && first_index(vs, k) == j;
        lemma_first_index_prefix(vs, full, k1);
        let k2 = choose|k: Seq<char>| m.dom().contains(k) && first_index(full, k) == j;
        lemma_first_index_prefix(vs, full, k2);
        lemma_first_index_injective(vs, k1, k2);
    }
    assert(a =~= b);
}

proof fn lemma_countable_prefix(e: ExprModel, vs: Seq<Seq<char>>, full: Seq<Seq<char>>)
    requires
        countable(e, vs),
        full.len() >= vs.len(),
        full.subrange(0, vs.len() as int) == vs,
    ensures
        countable(e, full),
        indexed(lc(e), full) == indexed(lc(e), vs),
{
    assert forall|k: Seq<char>| #[trigger] lc(e).dom().contains(k) implies full.contains(k) by {
        lemma_contains_prefix(vs, full, k);
    }
    lemma_indexed_prefix(lc(e), vs, full);
}

proof fn lemma_side_prefix(x: ExprModel, vs: Seq<Seq<char>>, full: Seq<Seq<char>>)
    requires
        side_ok(x, vs),
        full.len() >= vs.len(),
        full.subrange(0, vs.len() as int) == vs,
    ensures
        side_ok(x, full),
        atom_ok(x, vs) ==> atom_ok(x, full),
        side_row(x, full) == side_row(x, vs),
{
    match x {
        ExprModel::Var(v) => {
            lemma_contains_prefix(vs, full, v);
            lemma_first_index_prefix(vs, full, v);
        },
        ExprModel::Add(_, _) => {
            lemma_countable_prefix(x, vs, full);
        },
        _ => {},
    }
}

/// The rows of an equation over the variables of a prefix are the rows over
/// the whole list.
proof fn lemma_rows_prefix(
    linear_expr: ExprModel,
    expr: ExprModel,
    vs: Seq<Seq<char>>,
    full: Seq<Seq<char>>,
)
    requires
        r1cs_rows(linear_expr, expr, vs) is Some,
        full.len() >= vs.len(),
        full.subrange(0, vs.len() as int) == vs,
    ensures
        r1cs_rows(linear_expr, expr, full) == r1cs_rows(linear_expr, expr, vs),
    decreases size(expr),
{
    match expr {
        ExprModel::Add(_, _) | ExprModel::Sub(_, _) => {
            let o = swap_sub_spec(linear_expr, expr).unwrap();
            lemma_countable_prefix(o.0, vs, full);
            lemma_countable_prefix(o.1, vs, full);
        },
        ExprModel::Mult(x, y) => {
            lemma_side_prefix(*x, vs, full);
            lemma_side_prefix(*y, vs, full);
            lemma_countable_prefix(linear_expr, vs, full);
        },
        ExprModel::Div(x, y) => {
            if *x is Sub {
                lemma_rows_prefix(ExprModel::Mult(Box::new(linear_expr), y), *x, vs, full);
            } else {
                lemma_side_prefix(*x, vs, full);
                lemma_side_prefix(*y, vs, full);
                lemma_countable_prefix(linear_expr, vs, full);
            }
        },
        ExprModel::Var(_) => {
            lemma_side_prefix(expr, vs, full);
            lemma_countable_prefix(linear_expr, vs, full);
        },
        ExprModel::Num(_) => {
            lemma_countable_prefix(linear_expr, vs, full);
        },
        _ => {},
    }
}

/// The rows that `r1cs_expression` gives for the equation of a statement
/// over the variables `vs`: `~out = e` for `return e`, `id = e` for a
/// definition, `lhs = rhs` for a condition.
pub open spec fn rows_of_statement<T: Field>(s: Statement<T>, vs: Seq<Seq<char>>) -> Option<
    (Map<int, int>, Map<int, int>, Map<int, int>),
> {
    match s {
        Statement::Return(e) => r1cs_rows(ExprModel::Var(out_name()), e@, vs),
        Statement::Definition(id, e) => r1cs_rows(ExprModel::Var(id@), e@, vs),
        Statement::Condition(lhs, rhs) => r1cs_rows(lhs@, rhs@, vs),
    }
}

/// Law: the rows of statement `i` of a program are those that
/// `r1cs_expression` gives for the statement's equation, over all the
/// program's variables.
pub proof fn lemma_program_rows<T: Field>(
    args: Seq<Parameter>,
    stmts: Seq<Statement<T>>,
    i: int,
    a: Seq<(usize, T)>,
    b: Seq<(usize, T)>,
    c: Seq<(usize, T)>,
)
    requires
        0 <= i < stmts.len(),
        statement_rows(args, stmts, i) is Some,
        statement_constraint(args, stmts, i, a, b, c),
    ensures
        ({
            let rows = rows_of_statement(stmts[i], program_variables(args, stmts, stmts.len()));
            &&& rows is Some
            &&& row_is(a, rows.unwrap().0)
            &&& row_is(b, rows.unwrap().1)
            &&& row_is(c, rows.unwrap().2)
        }),
{
    let vs = program_variables(args, stmts, (i + 1) as nat);
    let full = program_variables(args, stmts, stmts.len());
    let eq = statement_equation(stmts[i]);
    lemma_program_variables_prefix(args, stmts, (i + 1) as nat, stmts.len());
    lemma_rows_prefix(eq.0, eq.1, vs, full);
}

/// An expression over the variables of a prefix has the same value under a
/// witness read through the prefix or through the whole list.
proof fn lemma_eval_prefix(
    e: ExprModel,
    vs: Seq<Seq<char>>,
    full: Seq<Seq<char>>,
    w: spec_fn(int) -> int,
)
    requires
        vars_in(e, vs),
        full.len() >= vs.len(),
        full.subrange(0, vs.len() as int) == vs,
    ensures
        eval(e, env_of(vs, w)) == eval(e, env_of(full, w)),
    decreases e,
{
    match e {
        ExprModel::Var(v) => {
            lemma_first_index_prefix(vs, full, v);
        },
        ExprModel::Add(a, b) => {
            lemma_eval_prefix(*a, vs, full, w);
            lemma_eval_prefix(*b, vs, full, w);
        },
        ExprModel::Sub(a, b) => {
            lemma_eval_prefix(*a, vs, full, w);
            lemma_eval_prefix(*b, vs, full, w);
        },
        ExprModel::Mult(a, b) => {
            lemma_eval_prefix(*a, vs, full, w);
            lemma_eval_prefix(*b, vs, full, w);
        },
        ExprModel::Div(a, b) => {
            lemma_eval_prefix(*a, vs, full, w);
            lemma_eval_prefix(*b, vs, full, w);
        },
        _ => {},
    }
}

/// The variables after `i` statements are a prefix of those after `n`.
proof fn lemma_program_variables_prefix<T>(
    args: Seq<Parameter>,
    stmts: Seq<Statement<T>>,
    i: nat,
    n: nat,
)
    requires
        i <= n,
    ensures
        program_variables(args, stmts, n).len() >= program_variables(args, stmts, i).len(),
        program_variables(args, stmts, n).subrange(
            0,
            program_variables(args, stmts, i).len() as int,
        ) == program_variables(args, stmts, i),
        program_variables(args, stmts, n).len() > 0,
        program_variables(args, stmts, n)[0] == one_name(),
    decreases n,
{
    if n > 0 {
        if i < n {
            lemma_program_variables_prefix(args, stmts, i, (n - 1) as nat);
        } else {
            lemma_program_variables_prefix(args, stmts, (n - 1) as nat, (n - 1) as nat);
        }
        let prev = program_variables(args, stmts, (n - 1) as nat);
        let cur = program_variables(args, stmts, n);
        if i < n {
            assert(cur.subrange(0, program_variables(args, stmts, i).len() as int) =~= prev.subrange(
                0,
                program_variables(args, stmts, i).len() as int,
            ));
        } else {
            assert(cur.subrange(0, cur.len() as int) =~= cur);
        }
    } else {
        let cur = program_variables(args, stmts, n);
        assert(cur.subrange(0, cur.len() as int) =~= cur);
    }
}

/// Law: a single witness over all the variables of a program satisfies the
/// constraint of statement `i` exactly where it satisfies the statement's
/// equation: `~out = e` for `return e`, `id = e` for a definition `id = e`,
/// `lhs = rhs` for a condition (a quotient `x / y` read as `.. * y = x`).
pub proof fn lemma_program_constraint<T: Field>(
    args: Seq<Parameter>,
    stmts: Seq<Statement<T>>,
    i: int,
    a: Seq<(usize, T)>,
    b: Seq<(usize, T)>,
    c: Seq<(usize, T)>,
    w: spec_fn(int) -> int,
)
    requires
        0 <= i < stmts.len(),
        statement_rows(args, stmts, i) is Some,
        statement_constraint(args, stmts, i, a, b, c),
        one_first(program_variables(args, stmts, stmts.len()), w),
    ensures
        constraint_holds(a, b, c, w) <==> equation_holds(
            statement_equation(stmts[i]).0,
            statement_equation(stmts[i]).1,
            env_of(program_variables(args, stmts, stmts.len()), w),
            T::order(),
        ),
        constraint_holds(a, b, c, w) <==> match stmts[i] {
            Statement::Return(e) => equation_holds(
                ExprModel::Var(out_name()),
                e@,
                env_of(program_variables(args, stmts, stmts.len()), w),
                T::order(),
            ),
            Statement::Definition(id, e) => equation_holds(
                ExprModel::Var(id@),
                e@,
                env_of(program_variables(args, stmts, stmts.len()), w),
                T::order(),
            ),
            Statement::Condition(lhs, rhs) => equation_holds(
                lhs@,
                rhs@,
                env_of(program_variables(args, stmts, stmts.len()), w),
                T::order(),
            ),
        },
{
    let vs = program_variables(args, stmts, (i + 1) as nat);
    let full = program_variables(args, stmts, stmts.len());
    let eq = statement_equation(stmts[i]);
    lemma_program_variables_prefix(args, stmts, (i + 1) as nat, stmts.len());
    lemma_program_variables_prefix(args, stmts, (i + 1) as nat, (i + 1) as nat);
    assert(vs[0] == full[0]);
    assert(one_first(vs, w));
    assert(constraint_holds(a, b, c, w) <==> equation_holds(eq.0, eq.1, env_of(vs, w), T::order()));
    lemma_rows_vars_in(eq.0, eq.1, vs);
    lemma_eval_prefix(eq.0, vs, full, w);
    match eq.1 {
        ExprModel::Div(x, y) => {
            lemma_eval_prefix(*x, vs, full, w);
            lemma_eval_prefix(*y, vs, full, w);
        },
        _ => {
            lemma_eval_prefix(eq.1, vs, full, w);
        },
    }
}

/// Law: a program's variables start with `~one`, then its parameters in
/// order.
pub proof fn lemma_program_variables_start<T>(args: Seq<Parameter>, stmts: Seq<Statement<T>>)
    ensures
        program_variables(args, stmts, stmts.len()).len() >= 1 + args.len(),
        program_variables(args, stmts, stmts.len())[0] == one_name(),
        forall|k: int|
            0 <= k < args.len() ==> #[trigger] program_variables(args, stmts, stmts.len())[1 + k]
                == args[k].id@,
{
    let start = program_variables(args, stmts, 0);
    let full = program_variables(args, stmts, stmts.len());
    lemma_program_variables_prefix(args, stmts, 0, stmts.len());
    assert forall|k: int| 0 <= k < args.len() implies #[trigger] full[1 + k] == args[k].id@ by {
        assert(full[1 + k] == start[1 + k]);
    }
}

/// Law: every variable that a statement introduces is among the program's
/// variables: `~out` for a return, `id` for a definition `id = e`.
pub proof fn lemma_program_declares<T>(args: Seq<Parameter>, stmts: Seq<Statement<T>>, i: int)
    requires
        0 <= i < stmts.len(),
    ensures
        match stmts[i] {
            Statement::Return(_) => program_variables(args, stmts, stmts.len()).contains(
                out_name(),
            ),
            Statement::Definition(id, _) => program_variables(args, stmts, stmts.len()).contains(
                id@,
            ),
            Statement::Condition(_, _) => true,
        },
{
    let vs = program_variables(args, stmts, (i + 1) as nat);
    let full = program_variables(args, stmts, stmts.len());
    lemma_program_variables_prefix(args, stmts, (i + 1) as nat, stmts.len());
    let j = vs.len() - 1;
    match stmts[i] {
        Statement::Return(_) => {
            assert(vs[j] == out_name());
            assert(full[j] == vs[j]);
        },
        Statement::Definition(id, _) => {
            assert(vs[j] == id@);
            assert(full[j] == vs[j]);
        },
        Statement::Condition(_, _) => {},
    }
}

/// The rank-1 constraint system of a program: its variables (`~one`, the
/// parameters, then `~out` or the defined variable of each statement, in
/// order) and, for each statement, its rows `A`, `B` and `C`.
pub fn r1cs_program<T: Field>(prog: &Prog<T>) -> (r: (
    Vec<String>,
    Vec<Vec<(usize, T)>>,
    Vec<Vec<(usize, T)>>,
    Vec<Vec<(usize, T)>>,
))
    requires
        forall|i: int|
            0 <= i < prog.statements@.len() ==> #[trigger] statement_rows(
                prog.arguments@,
                prog.statements@,
                i,
            ) is Some,
    ensures
        views(r.0@) == program_variables(
            prog.arguments@,
            prog.statements@,
            prog.statements@.len(),
        ),
        r.1@.len() == prog.statements@.len(),
        r.2@.len() == prog.statements@.len(),
        r.3@.len() == prog.statements@.len(),
        forall|i: int|
            0 <= i < prog.statements@.len() ==> #[trigger] statement_constraint(
                prog.arguments@,
                prog.statements@,
                i,
                r.1@[i]@,
                r.2@[i]@,
                r.3@[i]@,
            ),
        forall|i: int, w: spec_fn(int) -> int|
            0 <= i < prog.statements@.len() && one_first(views(r.0@), w) ==> (#[trigger] constraint_holds(r.1@[i]@, r.2@[i]@, r.3@[i]@, w) <==> equation_holds(
                statement_equation(prog.statements@[i]).0,
                statement_equation(prog.statements@[i]).1,
                env_of(views(r.0@), w),
                T::order(),
            )),
        views(r.0@).len() >= 1 + prog.arguments@.len(),
        views(r.0@)[0] == one_name(),
        forall|k: int|
            0 <= k < prog.arguments@.len() ==> #[trigger] views(r.0@)[1 + k]
                == prog.arguments@[k].id@,
        forall|i: int|
            #![trigger prog.statements@[i]]
            0 <= i < prog.statements@.len() ==> {
                let rows = rows_of_statement(prog.statements@[i], views(r.0@));
                &&& rows is Some
                &&& row_is(r.1@[i]@, rows.unwrap().0)
                &&& row_is(r.2@[i]@, rows.unwrap().1)
                &&& row_is(r.3@[i]@, rows.unwrap().2)
            },
        forall|i: int|
            0 <= i < prog.statements@.len() ==> match #[trigger] prog.statements@[i] {
                Statement::Return(_) => views(r.0@).contains(out_name()),
                Statement::Definition(id, _) => views(r.0@).contains(id@),
                Statement::Condition(_, _) => true,
            },
        forall|i: int, w: spec_fn(int) -> int|
            0 <= i < prog.statements@.len() && one_first(views(r.0@), w) ==> (
            #[trigger] constraint_holds(r.1@[i]@, r.2@[i]@, r.3@[i]@, w) <==> match prog.statements@[i] {
                Statement::Return(e) => equation_holds(
                    ExprModel::Var(out_name()),
                    e@,
                    env_of(views(r.0@), w),
                    T::order(),
                ),
                Statement::Definition(id, e) => equation_holds(
                    ExprModel::Var(id@),
                    e@,
                    env_of(views(r.0@), w),
                    T::order(),
                ),
                Statement::Condition(lhs, rhs) => equation_holds(
                    lhs@,
                    rhs@,
                    env_of(views(r.0@), w),
                    T::order(),
                ),
            }),
{
    let ghost args = prog.arguments@;
    let ghost stmts = prog.statements@;
    let mut variables: Vec<String> = Vec::new();
    variables.push(one_string());
    let mut a: Vec<Vec<(usize, T)>> = Vec::new();
    let mut b: Vec<Vec<(usize, T)>> = Vec::new();
    let mut c: Vec<Vec<(usize, T)>> = Vec::new();
    let mut k: usize = 0;
    while k < prog.arguments.len()
        invariant
            args == prog.arguments@,
            k <= args.len(),
            views(variables@) == seq![one_name()] + args.take(k as int).map_values(
                |p: Parameter| p.id@,
            ),
        decreases prog.arguments.len() - k,
    {
        let ghost v0 = variables@;
        variables.push(prog.arguments[k].id.clone());
        k += 1;
        proof {
            assert(views(variables@) =~= views(v0).push(args[k - 1].id@));
            assert(args.take(k as int) =~= args.take(k - 1).push(args[k - 1]));
            assert(views(variables@) =~= seq![one_name()] + args.take(k as int).map_values(
                |p: Parameter| p.id@,
            ));
        }
    }
    proof {
        assert(args.take(args.len() as int) =~= args);
    }
    let mut i: usize = 0;
    while i < prog.statements.len()
        invariant
            args == prog.arguments@,
            stmts == prog.statements@,
            i <= stmts.len(),
            forall|j: int| 0 <= j < stmts.len() ==> #[trigger] statement_rows(args, stmts, j) is Some,
            views(variables@) == program_variables(args, stmts, i as nat),
            a@.len() == i,
            b@.len() == i,
            c@.len() == i,
            forall|j: int|
                0 <= j < i ==> #[trigger] statement_constraint(
                    args,
                    stmts,
                    j,
                    a@[j]@,
                    b@[j]@,
                    c@[j]@,
                ),
        decreases prog.statements.len() - i,
    {
        let mut a_row: Vec<(usize, T)> = Vec::new();
        let mut b_row: Vec<(usize, T)> = Vec::new();
        let mut c_row: Vec<(usize, T)> = Vec::new();
        assert(statement_rows(args, stmts, i as int) is Some);
        match &prog.statements[i] {
            Statement::Return(expr) => {
                variables.push(out_string());
                proof {
                    assert(views(variables@) =~= program_variables(args, stmts, (i + 1) as nat));
                }
                r1cs_expression(
                    Expression::VariableReference(out_string()),
                    expr.duplicate(),
                    &mut variables,
                    &mut a_row,
                    &mut b_row,
                    &mut c_row,
                );
            },
            Statement::Definition(id, expr) => {
                variables.push(id.clone());
                proof {
                    assert(views(variables@) =~= program_variables(args, stmts, (i + 1) as nat));
                }
                r1cs_expression(
                    Expression::VariableReference(id.clone()),
                    expr.duplicate(),
                    &mut variables,
                    &mut a_row,
                    &mut b_row,
                    &mut c_row,
                );
            },
            Statement::Condition(expr1, expr2) => {
                proof {
                    assert(views(variables@) =~= program_variables(args, stmts, (i + 1) as nat));
                }
                r1cs_expression(
                    expr1.duplicate(),
                    expr2.duplicate(),
                    &mut variables,
                    &mut a_row,
                    &mut b_row,
                    &mut c_row,
                );
            },
        }
        proof {
            assert(appended(a_row@, Seq::empty()) =~= a_row@);
            assert(appended(b_row@, Seq::empty()) =~= b_row@);
            assert(appended(c_row@, Seq::empty()) =~= c_row@);
            assert(statement_constraint(args, stmts, i as int, a_row@, b_row@, c_row@));
        }
        a.push(a_row);
        b.push(b_row);
        c.push(c_row);
        i += 1;
    }
    proof {
        assert forall|j: int, w: spec_fn(int) -> int|
            0 <= j < stmts.len() && one_first(views(variables@), w) implies (#[trigger] constraint_holds(a@[j]@, b@[j]@, c@[j]@, w) <==> equation_holds(
            statement_equation(stmts[j]).0,
            statement_equation(stmts[j]).1,
            env_of(views(variables@), w),
            T::order(),
        )) by {
            lemma_program_constraint(args, stmts, j, a@[j]@, b@[j]@, c@[j]@, w);
        }
        assert forall|j: int, w: spec_fn(int) -> int|
            0 <= j < stmts.len() && one_first(views(variables@), w) implies (
            #[trigger] constraint_holds(a@[j]@, b@[j]@, c@[j]@, w) <==> match stmts[j] {
                Statement::Return(e) => equation_holds(
                    ExprModel::Var(out_name()),
                    e@,
                    env_of(views(variables@), w),
                    T::order(),
                ),
                Statement::Definition(id, e) => equation_holds(
                    ExprModel::Var(id@),
                    e@,
                    env_of(views(variables@), w),
                    T::order(),
                ),
                Statement::Condition(lhs, rhs) => equation_holds(
                    lhs@,
                    rhs@,
                    env_of(views(variables@), w),
                    T::order(),
                ),
            }) by {
            lemma_program_constraint(args, stmts, j, a@[j]@, b@[j]@, c@[j]@, w);
        }
        assert forall|j: int| 0 <= j < stmts.len() implies match #[trigger] stmts[j] {
            Statement::Return(_) => views(variables@).contains(out_name()),
            Statement::Definition(id, _) => views(variables@).contains(id@),
            Statement::Condition(_, _) => true,
        } by {
            lemma_program_declares(args, stmts, j);
        }
        lemma_program_variables_start(args, stmts);
        assert forall|j: int|
            #![trigger stmts[j]]
            0 <= j < stmts.len() implies {
            let rows = rows_of_statement(stmts[j], views(variables@));
            &&& rows is Some
            &&& row_is(a@[j]@, rows.unwrap().0)
            &&& row_is(b@[j]@, rows.unwrap().1)
            &&& row_is(c@[j]@, rows.unwrap().2)
        } by {
            lemma_program_rows(args, stmts, j, a@[j]@, b@[j]@, c@[j]@);
        }
    }
    (variables, a, b, c)
}

} // verus!
