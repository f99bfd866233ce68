use vstd::prelude::*;

use crate::error::{EvaluatorError, OptimizerError};
use crate::expr::{precedence_of, term_of, Expr, Op, Term};
use crate::rational::{difference, power, product, quotient, remainder, sum, magnitude, Rational};

verus! {

/// How many rewrite passes the simplifier and the solver make before they give up.
pub const MAX_PASSES: u64 = 1000;

pub open spec fn int_term(n: i64) -> Term {
    Term::Number(Rational { num: n, den: 1 })
}

pub open spec fn bin(a: Term, op: Op, b: Term) -> Term {
    Term::Bin(Box::new(a), op, Box::new(b))
}

pub open spec fn is_zero(t: Term) -> bool {
    t matches Term::Number(n) && n.num == 0
}

pub open spec fn is_one(t: Term) -> bool {
    t matches Term::Number(n) && n.num == 1 && n.den == 1
}

pub open spec fn both_monomials(a: Term, b: Term) -> bool {
    a is Mono && b is Mono
}

/// A monomial in the variable `target`.
pub open spec fn is_target(t: Term, target: Seq<char>) -> bool {
    t matches Term::Mono(_, v, _) && v == target
}

/// Coefficient and exponent of two like monomials combined by `op`, if `op`
/// combines them and the numbers fit.
pub open spec fn merged_monomial(
    lc: Rational,
    le: Rational,
    op: Op,
    rc: Rational,
    re: Rational,
) -> Option<(Rational, Rational)> {
    match op {
        Op::Add => if le == re {
            match sum(lc, rc) {
                Some(c) => Some((c, le)),
                None => None,
            }
        } else {
            None
        },
        Op::Subtract => if le == re {
            match difference(lc, rc) {
                Some(c) => Some((c, le)),
                None => None,
            }
        } else {
            None
        },
        Op::Multiply => match (product(lc, rc), sum(le, re)) {
            (Some(c), Some(e)) => Some((c, e)),
            _ => None,
        },
        _ => None,
    }
}

/// Operators across which a term can be moved without changing the value.
pub open spec fn hoists(op: Op) -> bool {
    op == Op::Add || op == Op::Subtract || op == Op::Multiply || op == Op::Divide
}

/// Merging of like monomials, and hoisting of a monomial in `target` out of a
/// left operand of equal precedence, keeping the value: `(a ∘ T) op m` becomes
/// `(a op m) ∘ T`, and `(T ∘ b) op m` becomes `(m ∘ b) op T` (for `-`,
/// `(-m ∘ b) + T`; a quotient is not hoisted this way).
pub open spec fn distribute(a: Term, op: Op, b: Term, target: Seq<char>) -> Term {
    match (a, b) {
        (Term::Mono(lc, lv, le), Term::Mono(rc, rv, re)) => {
            if lv == rv {
                match merged_monomial(lc, le, op, rc, re) {
                    Some(m) => Term::Mono(m.0, lv, m.1),
                    None => bin(a, op, b),
                }
            } else {
                bin(a, op, b)
            }
        },
        (Term::Bin(ll, lop, lr), Term::Mono(_, _, _)) => {
            if precedence_of(lop) == precedence_of(op) && hoists(op) && hoists(lop) {
                if is_target(*lr, target) {
                    bin(bin(*ll, op, b), lop, *lr)
                } else if is_target(*ll, target) && op != Op::Divide {
                    if op == Op::Subtract {
                        bin(bin(Term::Neg(Box::new(b)), lop, *lr), Op::Add, *ll)
                    } else {
                        bin(bin(b, lop, *lr), op, *ll)
                    }
                } else {
                    bin(a, op, b)
                }
            } else {
                bin(a, op, b)
            }
        },
        _ => bin(a, op, b),
    }
}

pub open spec fn add_rules(a: Term, b: Term, target: Seq<char>) -> Term {
    if is_zero(a) {
        b
    } else if is_zero(b) {
        a
    } else if a == b && !both_monomials(a, b) {
        bin(int_term(2), Op::Multiply, a)
    } else {
        match b {
            Term::Neg(x) => bin(a, Op::Subtract, *x),
            _ => distribute(a, Op::Add, b, target),
        }
    }
}

pub open spec fn sub_rules(a: Term, b: Term, target: Seq<char>) -> Term {
    if is_zero(b) {
        a
    } else if is_zero(a) {
        Term::Neg(Box::new(b))
    } else if a == b {
        int_term(0)
    } else {
        match b {
            Term::Neg(x) => bin(a, Op::Add, *x),
            _ => distribute(a, Op::Subtract, b, target),
        }
    }
}

/// `a^x * a^y` with the same base.
pub open spec fn same_base_powers(a: Term, b: Term) -> bool {
    match (a, b) {
        (Term::Bin(ll, lop, _), Term::Bin(rl, rop, _)) => lop == Op::Power && rop == Op::Power
            && ll == rl,
        _ => false,
    }
}

pub open spec fn mul_rules(a: Term, b: Term, target: Seq<char>) -> Term {
    if is_one(a) {
        b
    } else if is_one(b) {
        a
    } else if is_zero(a) || is_zero(b) {
        int_term(0)
    } else if a == b && !both_monomials(a, b) {
        bin(a, Op::Power, int_term(2))
    } else if same_base_powers(a, b) {
        match (a, b) {
            (Term::Bin(ll, _, lr), Term::Bin(_, _, rr)) => bin(*ll, Op::Power, bin(*lr, Op::Add, *rr)),
            _ => a,
        }
    } else {
        match (a, b) {
            (Term::Number(_), Term::Bin(rl, rop, rr)) => bin(
                bin(a, Op::Multiply, *rl),
                rop,
                bin(a, Op::Multiply, *rr),
            ),
            (Term::Number(n), Term::Mono(c, v, e)) => match product(n, c) {
                Some(k) => Term::Mono(k, v, e),
                None => distribute(a, Op::Multiply, b, target),
            },
            _ => distribute(a, Op::Multiply, b, target),
        }
    }
}

/// The monomial `a` divided by the number `b`, if both are such and the
/// coefficient fits.
pub open spec fn divided_monomial(a: Term, b: Term) -> Option<Term> {
    match (a, b) {
        (Term::Mono(c, v, e), Term::Number(n)) => match quotient(c, n) {
            Some(k) => Some(Term::Mono(k, v, e)),
            None => None,
        },
        _ => None,
    }
}

pub open spec fn div_rules(a: Term, b: Term, target: Seq<char>) -> Term {
    if is_one(b) {
        a
    } else if divided_monomial(a, b) is Some {
        divided_monomial(a, b).unwrap()
    } else if a == b {
        int_term(1)
    } else {
        distribute(a, Op::Divide, b, target)
    }
}

pub open spec fn pow_rules(a: Term, b: Term, target: Seq<char>) -> Term {
    if is_zero(b) {
        int_term(1)
    } else if is_one(b) {
        a
    } else {
        match b {
            Term::Neg(x) => match *x {
                Term::Number(n) => bin(int_term(1), Op::Divide, bin(a, Op::Power, Term::Number(n))),
                _ => distribute(a, Op::Power, b, target),
            },
            _ => distribute(a, Op::Power, b, target),
        }
    }
}

/// The rules for a binary node whose children are already rewritten.
pub open spec fn bin_rules(a: Term, op: Op, b: Term, target: Seq<char>) -> Term {
    match op {
        Op::Add => add_rules(a, b, target),
        Op::Subtract => sub_rules(a, b, target),
        Op::Multiply => mul_rules(a, b, target),
        Op::Divide => div_rules(a, b, target),
        Op::Power => pow_rules(a, b, target),
        _ => bin(a, op, b),
    }
}

/// One bottom-up pass of the node-local rewrite rules.
pub open spec fn node_step(t: Term, target: Seq<char>) -> Term
    decreases t,
{
    match t {
        Term::Bin(l, op, r) => bin_rules(node_step(*l, target), op, node_step(*r, target), target),
        Term::Mono(c, v, e) => {
            if c.num == 0 {
                int_term(0)
            } else if e.num == 0 {
                int_term(1)
            } else if c.num < 0 {
                Term::Neg(Box::new(Term::Mono(magnitude(c), v, e)))
            } else {
                t
            }
        },
        Term::Neg(i) => {
            let a = node_step(*i, target);
            match a {
                Term::Neg(x) => *x,
                Term::Bin(l, op, r) => bin(Term::Neg(l), op, Term::Neg(r)),
                _ => Term::Neg(Box::new(a)),
            }
        },
        _ => t,
    }
}

/// The value of `x op y`, where the operator is arithmetic.
pub open spec fn fold(op: Op, x: Rational, y: Rational) -> Option<Rational> {
    match op {
        Op::Add => sum(x, y),
        Op::Subtract => difference(x, y),
        Op::Multiply => product(x, y),
        Op::Divide => quotient(x, y),
        Op::Modulo => remainder(x, y),
        Op::Power => power(x, y),
        Op::Equals => None,
    }
}

/// Numeric folding: a binary node of two numbers becomes their value when that
/// value is an integer; absent where an `=` is met.
pub open spec fn merged(t: Term) -> Option<Term>
    decreases t,
{
    match t {
        Term::Bin(l, op, r) => {
            if op == Op::Equals {
                None
            } else {
                match (merged(*l), merged(*r)) {
                    (Some(a), Some(b)) => Some(fold_pair(a, op, b)),
                    _ => None,
                }
            }
        },
        Term::Neg(i) => match merged(*i) {
            Some(a) => Some(Term::Neg(Box::new(a))),
            None => None,
        },
        _ => Some(t),
    }
}

pub open spec fn fold_pair(a: Term, op: Op, b: Term) -> Term {
    match (a, b) {
        (Term::Number(x), Term::Number(y)) => match fold(op, x, y) {
            Some(v) => if v.den == 1 {
                Term::Number(v)
            } else {
                bin(a, op, b)
            },
            None => bin(a, op, b),
        },
        _ => bin(a, op, b),
    }
}

/// Rewrite passes on a tree that has had one pass already: while a node pass
/// changes the tree, apply it followed by numeric folding; at most `fuel` more
/// passes.
pub open spec fn simplify(t: Term, target: Seq<char>, fuel: nat) -> Result<Term, OptimizerError>
    decreases fuel,
{
    let n = node_step(t, target);
    if n == t {
        Ok(t)
    } else {
        match merged(n) {
            None => Err(OptimizerError::EqualityInTerm),
            Some(m) => if fuel == 0 {
                Err(OptimizerError::NoFixedPoint)
            } else {
                simplify(m, target, (fuel - 1) as nat)
            },
        }
    }
}

/// One node pass and one folding pass, then passes until a node pass leaves the
/// tree as it was.
pub open spec fn simplified(t: Term, target: Seq<char>) -> Result<Term, OptimizerError> {
    match merged(node_step(t, target)) {
        None => Err(OptimizerError::EqualityInTerm),
        Some(m) => simplify(m, target, MAX_PASSES as nat),
    }
}

/// One transposition step on the sides `l = r` of an equation, moving a
/// monomial in `target` toward standing alone on the left.
pub open spec fn equation_step(l: Term, r: Term, target: Seq<char>) -> (Term, Term) {
    match l {
        Term::Bin(ll, Op::Add, lr) if is_target(*ll, target) => (*ll, bin(r, Op::Subtract, *lr)),
        Term::Bin(ll, Op::Add, lr) if is_target(*lr, target) => (*lr, bin(r, Op::Subtract, *ll)),
        _ => match r {
            Term::Bin(rl, Op::Add, rr) if is_target(*rl, target) => (bin(l, Op::Subtract, *rl), *rr),
            Term::Bin(rl, Op::Add, rr) if is_target(*rr, target) => (bin(l, Op::Subtract, *rr), *rl),
            _ => match l {
                Term::Bin(ll, Op::Subtract, lr) if is_target(*ll, target) => (*ll, bin(r, Op::Add, *lr)),
                Term::Bin(ll, Op::Subtract, lr) if is_target(*lr, target) => (
                    *lr,
                    bin(Term::Neg(Box::new(r)), Op::Add, *ll),
                ),
                _ => match r {
                    Term::Bin(rl, Op::Subtract, rr) if is_target(*rl, target) => (
                        bin(l, Op::Subtract, *rl),
                        Term::Neg(rr),
                    ),
                    Term::Bin(rl, Op::Subtract, rr) if is_target(*rr, target) => (
                        bin(l, Op::Add, *rr),
                        *rl,
                    ),
                    _ => match l {
                        Term::Neg(x) if is_target(*x, target) => (*x, Term::Neg(Box::new(r))),
                        Term::Mono(c, v, e) if v == target => (
                            Term::Mono(Rational { num: 1, den: 1 }, v, e),
                            bin(r, Op::Divide, Term::Number(c)),
                        ),
                        _ => (l, r),
                    },
                },
            },
        },
    }
}

/// Both sides simplified.
pub open spec fn simplified_sides(l: Term, r: Term, target: Seq<char>) -> Result<(Term, Term), OptimizerError> {
    match simplified(l, target) {
        Err(x) => Err(x),
        Ok(a) => match simplified(r, target) {
            Err(x) => Err(x),
            Ok(b) => Ok((a, b)),
        },
    }
}

/// Transposition steps, each followed by simplifying both sides, until the
/// equation no longer changes; at most `fuel` further steps after the first.
pub open spec fn solve(l: Term, r: Term, target: Seq<char>, fuel: nat) -> Result<Term, OptimizerError>
    decreases fuel,
{
    let s = equation_step(l, r, target);
    match simplified_sides(s.0, s.1, target) {
        Err(x) => Err(x),
        Ok(n) => if n.0 == l && n.1 == r {
            Ok(bin(l, Op::Equals, r))
        } else if fuel == 0 {
            Err(OptimizerError::NoFixedPoint)
        } else {
            solve(n.0, n.1, target, (fuel - 1) as nat)
        },
    }
}

/// A side normalised before solving: simplified, then folded once more.
pub open spec fn normalized(t: Term, target: Seq<char>) -> Result<Term, OptimizerError> {
    match simplified(t, target) {
        Err(x) => Err(x),
        Ok(a) => match merged(a) {
            Some(m) => Ok(m),
            None => Err(OptimizerError::EqualityInTerm),
        },
    }
}

/// The equation `t` solved for `target`.
pub open spec fn solved(t: Term, target: Seq<char>) -> Result<Term, OptimizerError> {
    match t {
        Term::Bin(l, Op::Equals, r) => match normalized(*l, target) {
            Err(x) => Err(x),
            Ok(a) => match normalized(*r, target) {
                Err(x) => Err(x),
                Ok(b) => solve(a, b, target, MAX_PASSES as nat),
            },
        },
        _ => Err(OptimizerError::NotAnEquation),
    }
}

fn apply_equation_rule(l: Expr, r: Expr, target: &String) -> (res: (Expr, Expr))
    ensures
        (res.0@, res.1@) == equation_step(l@, r@, target@),
{
    let ghost (lv, rv) = (l@, r@);
    let (l, r) = match l {
        Expr::BinOp { lhs: ll, op: Op::Add, rhs: lr } => {
            if is_target_monomial(&ll, target) {
                return (*ll, mk_bin(r, Op::Subtract, *lr));
            }
            if is_target_monomial(&lr, target) {
                return (*lr, mk_bin(r, Op::Subtract, *ll));
            }
            (Expr::BinOp { lhs: ll, op: Op::Add, rhs: lr }, r)
        },
        l => (l, r),
    };
    assert(l@ == lv && r@ == rv);
    let (l, r) = match r {
        Expr::BinOp { lhs: rl, op: Op::Add, rhs: rr } => {
            if is_target_monomial(&rl, target) {
                return (mk_bin(l, Op::Subtract, *rl), *rr);
            }
            if is_target_monomial(&rr, target) {
                return (mk_bin(l, Op::Subtract, *rr), *rl);
            }
            (l, Expr::BinOp { lhs: rl, op: Op::Add, rhs: rr })
        },
        r => (l, r),
    };
    assert(l@ == lv && r@ == rv);
    let (l, r) = match l {
        Expr::BinOp { lhs: ll, op: Op::Subtract, rhs: lr } => {
            if is_target_monomial(&ll, target) {
                return (*ll, mk_bin(r, Op::Add, *lr));
            }
            if is_target_monomial(&lr, target) {
                return (*lr, mk_bin(Expr::UnaryMinus(Box::new(r)), Op::Add, *ll));
            }
            (Expr::BinOp { lhs: ll, op: Op::Subtract, rhs: lr }, r)
        },
        l => (l, r),
    };
    assert(l@ == lv && r@ == rv);
    let (l, r) = match r {
        Expr::BinOp { lhs: rl, op: Op::Subtract, rhs: rr } => {
            if is_target_monomial(&rl, target) {
                return (mk_bin(l, Op::Subtract, *rl), Expr::UnaryMinus(rr));
            }
            if is_target_monomial(&rr, target) {
                return (mk_bin(l, Op::Add, *rr), *rl);
            }
            (l, Expr::BinOp { lhs: rl, op: Op::Subtract, rhs: rr })
        },
        r => (l, r),
    };
    assert(l@ == lv && r@ == rv);
    match l {
        Expr::UnaryMinus(x) => {
            if is_target_monomial(&x, target) {
                (*x, Expr::UnaryMinus(Box::new(r)))
            } else {
                (Expr::UnaryMinus(x), r)
            }
        },
        Expr::Monomial { coefficient, variable, exponent } => {
            if variable == *target {
                (
                    Expr::Monomial { coefficient: Rational { num: 1, den: 1 }, variable, exponent },
                    mk_bin(r, Op::Divide, Expr::Number(coefficient)),
                )
            } else {
                (Expr::Monomial { coefficient, variable, exponent }, r)
            }
        },
        l => (l, r),
    }
}

/// Is `t` a number equal to zero?
fn is_zero_number(t: &Expr) -> (r: bool)
    ensures
        r == is_zero(t@),
{
    match t {
        Expr::Number(n) => n.num == 0,
        _ => false,
    }
}

fn is_one_number(t: &Expr) -> (r: bool)
    ensures
        r == is_one(t@),
{
    match t {
        Expr::Number(n) => n.num == 1 && n.den == 1,
        _ => false,
    }
}

fn is_monomial(t: &Expr) -> (r: bool)
    ensures
        r == t@ is Mono,
{
    match t {
        Expr::Monomial { .. } => true,
        _ => false,
    }
}

fn is_target_monomial(t: &Expr, target: &String) -> (r: bool)
    ensures
        r == is_target(t@, target@),
{
    match t {
        Expr::Monomial { variable, .. } => *variable == *target,
        _ => false,
    }
}

fn mk_bin(a: Expr, op: Op, b: Expr) -> (r: Expr)
    ensures
        r@ == bin(a@, op, b@),
{
    Expr::BinOp { lhs: Box::new(a), op, rhs: Box::new(b) }
}

fn int_number(n: i64) -> (r: Expr)
    ensures
        r@ == int_term(n),
{
    Expr::Number(Rational { num: n, den: 1 })
}

fn merge_monomial_parts(lc: Rational, le: Rational, op: Op, rc: Rational, re: Rational) -> (r: Option<(Rational, Rational)>)
    ensures
        r == merged_monomial(lc, le, op, rc, re),
{
    match op {
        Op::Add => if le == re {
            match lc.add(&rc) {
                Some(c) => Some((c, le)),
                None => None,
            }
        } else {
            None
        },
        Op::Subtract => if le == re {
            match lc.sub(&rc) {
                Some(c) => Some((c, le)),
                None => None,
            }
        } else {
            None
        },
        Op::Multiply => match (lc.mul(&rc), le.add(&re)) {
            (Some(c), Some(e)) => Some((c, e)),
            _ => None,
        },
        _ => None,
    }
}

fn hoists_op(op: Op) -> (r: bool)
    ensures
        r == hoists(op),
{
    op == Op::Add || op == Op::Subtract || op == Op::Multiply || op == Op::Divide
}

fn distribute_monomials(a: Expr, op: Op, b: Expr, target: &String) -> (r: Expr)
    ensures
        r@ == distribute(a@, op, b@, target@),
{
    match a {
        Expr::Monomial { coefficient: lc, variable: lv, exponent: le } => {
            match b {
                Expr::Monomial { coefficient: rc, variable: rv, exponent: re } => {
                    if lv == rv {
                        match merge_monomial_parts(lc, le, op, rc, re) {
                            Some(m) => {
                                return Expr::Monomial { coefficient: m.0, variable: lv, exponent: m.1 };
                            },
                            None => {},
                        }
                    }
                    mk_bin(
                        Expr::Monomial { coefficient: lc, variable: lv, exponent: le },
                        op,
                        Expr::Monomial { coefficient: rc, variable: rv, exponent: re },
                    )
                },
                b => mk_bin(Expr::Monomial { coefficient: lc, variable: lv, exponent: le }, op, b),
            }
        },
        Expr::BinOp { lhs: ll, op: lop, rhs: lr } => {
            if is_monomial(&b) && lop.get_precedence() == op.get_precedence() && hoists_op(op)
                && hoists_op(lop) {
                if is_target_monomial(&lr, target) {
                    return mk_bin(mk_bin(*ll, op, b), lop, *lr);
                }
                if is_target_monomial(&ll, target) && op != Op::Divide {
                    if op == Op::Subtract {
                        return mk_bin(
                            mk_bin(Expr::UnaryMinus(Box::new(b)), lop, *lr),
                            Op::Add,
                            *ll,
                        );
                    }
                    return mk_bin(mk_bin(b, lop, *lr), op, *ll);
                }
            }
            mk_bin(Expr::BinOp { lhs: ll, op: lop, rhs: lr }, op, b)
        },
        a => mk_bin(a, op, b),
    }
}

fn add_node(a: Expr, b: Expr, target: &String) -> (r: Expr)
    ensures
        r@ == add_rules(a@, b@, target@),
{
    if is_zero_number(&a) {
        return b;
    }
    if is_zero_number(&b) {
        return a;
    }
    if a.same(&b) && !(is_monomial(&a) && is_monomial(&b)) {
        return mk_bin(int_number(2), Op::Multiply, a);
    }
    match b {
        Expr::UnaryMinus(x) => mk_bin(a, Op::Subtract, *x),
        b => distribute_monomials(a, Op::Add, b, target),
    }
}

fn sub_node(a: Expr, b: Expr, target: &String) -> (r: Expr)
    ensures
        r@ == sub_rules(a@, b@, target@),
{
    if is_zero_number(&b) {
        return a;
    }
    if is_zero_number(&a) {
        return Expr::UnaryMinus(Box::new(b));
    }
    if a.same(&b) {
        return int_number(0);
    }
    match b {
        Expr::UnaryMinus(x) => mk_bin(a, Op::Add, *x),
        b => distribute_monomials(a, Op::Subtract, b, target),
    }
}

fn mul_node(a: Expr, b: Expr, target: &String) -> (r: Expr)
    ensures
        r@ == mul_rules(a@, b@, target@),
{
    if is_one_number(&a) {
        return b;
    }
    if is_one_number(&b) {
        return a;
    }
    if is_zero_number(&a) || is_zero_number(&b) {
        return int_number(0);
    }
    if a.same(&b) && !(is_monomial(&a) && is_monomial(&b)) {
        return mk_bin(a, Op::Power, int_number(2));
    }
    match (a, b) {
        (Expr::BinOp { lhs: ll, op: lop, rhs: lr }, Expr::BinOp { lhs: rl, op: rop, rhs: rr }) => {
            if lop == Op::Power && rop == Op::Power && (*ll).same(&*rl) {
                return mk_bin(*ll, Op::Power, mk_bin(*lr, Op::Add, *rr));
            }
            let a = Expr::BinOp { lhs: ll, op: lop, rhs: lr };
            let b = Expr::BinOp { lhs: rl, op: rop, rhs: rr };
            distribute_monomials(a, Op::Multiply, b, target)
        },
        (Expr::Number(n), Expr::BinOp { lhs: rl, op: rop, rhs: rr }) => {
            mk_bin(
                mk_bin(Expr::Number(n), Op::Multiply, *rl),
                rop,
                mk_bin(Expr::Number(n), Op::Multiply, *rr),
            )
        },
        (Expr::Number(n), Expr::Monomial { coefficient, variable, exponent }) => {
            match n.mul(&coefficient) {
                Some(k) => Expr::Monomial { coefficient: k, variable, exponent },
                None => distribute_monomials(
                    Expr::Number(n),
                    Op::Multiply,
                    Expr::Monomial { coefficient, variable, exponent },
                    target,
                ),
            }
        },
        (a, b) => distribute_monomials(a, Op::Multiply, b, target),
    }
}

fn div_node(a: Expr, b: Expr, target: &String) -> (r: Expr)
    ensures
        r@ == div_rules(a@, b@, target@),
{
    if is_one_number(&b) {
        return a;
    }
    match (&a, &b) {
        (Expr::Monomial { coefficient, variable, exponent }, Expr::Number(n)) => {
            match coefficient.div(n) {
                Some(k) => {
                    return Expr::Monomial { coefficient: k, variable: variable.clone(), exponent: *exponent };
                },
                None => {},
            }
        },
        _ => {},
    }
    if a.same(&b) {
        return int_number(1);
    }
    distribute_monomials(a, Op::Divide, b, target)
}

fn pow_node(a: Expr, b: Expr, target: &String) -> (r: Expr)
    ensures
        r@ == pow_rules(a@, b@, target@),
{
    if is_zero_number(&b) {
        return int_number(1);
    }
    if is_one_number(&b) {
        return a;
    }
    proof {
        reveal_with_fuel(term_of, 2);
    }
    match b {
        Expr::UnaryMinus(x) => match *x {
            Expr::Number(n) => mk_bin(int_number(1), Op::Divide, mk_bin(a, Op::Power, Expr::Number(n))),
            x => distribute_monomials(a, Op::Power, Expr::UnaryMinus(Box::new(x)), target),
        },
        b => distribute_monomials(a, Op::Power, b, target),
    }
}

fn node_pass(e: &Expr, target: &String) -> (r: Expr)
    ensures
        r@ == node_step(e@, target@),
    decreases e,
{
    match e {
        Expr::BinOp { lhs, op, rhs } => {
            let a = node_pass(&**lhs, target);
            let b = node_pass(&**rhs, target);
            assert(e@ == bin((**lhs)@, *op, (**rhs)@));
            assert(node_step(e@, target@) == bin_rules(a@, *op, b@, target@));
            let ghost (av, bv) = (a@, b@);
            let r = match op {
                Op::Add => add_node(a, b, target),
                Op::Subtract => sub_node(a, b, target),
                Op::Multiply => mul_node(a, b, target),
                Op::Divide => div_node(a, b, target),
                Op::Power => pow_node(a, b, target),
                _ => mk_bin(a, *op, b),
            };
            assert(r@ == bin_rules(av, *op, bv, target@));
            r
        },
        Expr::Monomial { coefficient, variable, exponent } => {
            assert(e@ == Term::Mono(*coefficient, variable@, *exponent));
            if coefficient.num == 0 {
                int_number(0)
            } else if exponent.num == 0 {
                int_number(1)
            } else if coefficient.num < 0 {
                let m = Expr::Monomial {
                    coefficient: coefficient.abs(),
                    variable: variable.clone(),
                    exponent: *exponent,
                };
                assert(m@ == Term::Mono(magnitude(*coefficient), variable@, *exponent));
                let r = Expr::UnaryMinus(Box::new(m));
                assert(r@ == Term::Neg(Box::new(m@)));
                r
            } else {
                e.copy()
            }
        },
        Expr::UnaryMinus(inner) => {
            let a = node_pass(&**inner, target);
            assert(e@ == Term::Neg(Box::new((**inner)@)));
            let ghost av = a@;
            let r = match a {
                Expr::UnaryMinus(x) => *x,
                Expr::BinOp { lhs, op, rhs } => mk_bin(
                    Expr::UnaryMinus(lhs),
                    op,
                    Expr::UnaryMinus(rhs),
                ),
                a => Expr::UnaryMinus(Box::new(a)),
            };
            assert(r@ == match av {
                Term::Neg(x) => *x,
                Term::Bin(l, op, r) => bin(Term::Neg(l), op, Term::Neg(r)),
                _ => Term::Neg(Box::new(av)),
            });
            r
        },
        _ => e.copy(),
    }
}

fn fold_numbers(op: Op, x: Rational, y: Rational) -> (r: Option<Rational>)
    ensures
        r == fold(op, x, y),
{
    match op {
        Op::Add => x.add(&y),
        Op::Subtract => x.sub(&y),
        Op::Multiply => x.mul(&y),
        Op::Divide => x.div(&y),
        Op::Modulo => x.rem(&y),
        Op::Power => x.pow(&y),
        Op::Equals => None,
    }
}

fn merge_pass(e: &Expr) -> (r: Option<Expr>)
    ensures
        r matches Some(m) ==> merged(e@) == Some(m@),
        r is None ==> merged(e@) is None,
    decreases e,
{
    match e {
        Expr::BinOp { lhs, op, rhs } => {
            if *op == Op::Equals {
                return None;
            }
            let a = match merge_pass(&**lhs) {
                Some(a) => a,
                None => return None,
            };
            let b = match merge_pass(&**rhs) {
                Some(b) => b,
                None => return None,
            };
            match (&a, &b) {
                (Expr::Number(x), Expr::Number(y)) => match fold_numbers(*op, *x, *y) {
                    Some(v) => if v.den == 1 {
                        return Some(Expr::Number(v));
                    },
                    None => {},
                },
                _ => {},
            }
            Some(mk_bin(a, *op, b))
        },
        Expr::UnaryMinus(inner) => match merge_pass(&**inner) {
            Some(a) => Some(Expr::UnaryMinus(Box::new(a))),
            None => None,
        },
        _ => Some(e.copy()),
    }
}

impl Expr {
    /// One bottom-up pass of the node-local rewrite rules, biased toward the
    /// variable `target`.
    pub fn optimize_node(&self, target: String) -> (r: Expr)
        ensures
            r@ == node_step(self@, target@),
    {
        node_pass(self, &target)
    }

    /// Folds each binary node of two numbers whose value is an integer into
    /// that integer; an `=` anywhere on the way is an error.
    pub fn merge_numbers(&self) -> (r: Result<Expr, EvaluatorError>)
        ensures
            r matches Ok(m) ==> merged(self@) == Some(m@),
            r is Err ==> merged(self@) is None && r matches Err(EvaluatorError::EqualityInEval),
    {
        match merge_pass(self) {
            Some(m) => Ok(m),
            None => Err(EvaluatorError::EqualityInEval),
        }
    }

    /// Rewrites the tree to the fixed point of node pass plus numeric folding.
    pub fn optimize_expression(self, target: String) -> (r: Result<Expr, OptimizerError>)
        ensures
            r matches Ok(m) ==> simplified(self@, target@) == Ok::<Term, OptimizerError>(m@),
            r matches Err(x) ==> simplified(self@, target@) == Err::<Term, OptimizerError>(x),
    {
        let first = node_pass(&self, &target);
        let mut cur = match merge_pass(&first) {
            Some(m) => m,
            None => return Err(OptimizerError::EqualityInTerm),
        };
        let mut fuel: u64 = MAX_PASSES;
        loop
            invariant
                simplify(cur@, target@, fuel as nat) == simplified(self@, target@),
            decreases fuel,
        {
            let n = node_pass(&cur, &target);
            if n.same(&cur) {
                return Ok(cur);
            }
            let next = match merge_pass(&n) {
                Some(m) => m,
                None => return Err(OptimizerError::EqualityInTerm),
            };
            if fuel == 0 {
                return Err(OptimizerError::NoFixedPoint);
            }
            cur = next;
            fuel = fuel - 1;
        }
    }

    /// Isolates `target` in an equation: both sides are normalised, then
    /// transposition steps and simplification alternate until nothing changes.
    pub fn optimize_equation(self, target: String) -> (r: Result<Expr, OptimizerError>)
        ensures
            r matches Ok(m) ==> solved(self@, target@) == Ok::<Term, OptimizerError>(m@),
            r matches Err(x) ==> solved(self@, target@) == Err::<Term, OptimizerError>(x),
    {
        let ghost start = self@;
        let (l, r) = match self {
            Expr::BinOp { lhs, op: Op::Equals, rhs } => (*lhs, *rhs),
            _ => return Err(OptimizerError::NotAnEquation),
        };
        let l = match l.optimize_expression(target.clone()) {
            Ok(a) => match a.merge_numbers() {
                Ok(m) => m,
                Err(_) => return Err(OptimizerError::EqualityInTerm),
            },
            Err(x) => return Err(x),
        };
        let r = match r.optimize_expression(target.clone()) {
            Ok(a) => match a.merge_numbers() {
                Ok(m) => m,
                Err(_) => return Err(OptimizerError::EqualityInTerm),
            },
            Err(x) => return Err(x),
        };
        let mut l = l;
        let mut r = r;
        let mut fuel: u64 = MAX_PASSES;
        loop
            invariant
                start == self@,
                solve(l@, r@, target@, fuel as nat) == solved(start, target@),
            decreases fuel,
        {
            let ghost (lv, rv) = (l@, r@);
            let (a, b) = apply_equation_rule(l.copy(), r.copy(), &target);
            let a = match a.optimize_expression(target.clone()) {
                Ok(a) => a,
                Err(x) => return Err(x),
            };
            let b = match b.optimize_expression(target.clone()) {
                Ok(b) => b,
                Err(x) => return Err(x),
            };
            if a.same(&l) && b.same(&r) {
                return Ok(mk_bin(l, Op::Equals, r));
            }
            if fuel == 0 {
                return Err(OptimizerError::NoFixedPoint);
            }
            l = a;
            r = b;
            fuel = fuel - 1;
        }
    }
}

} // verus!
