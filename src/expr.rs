use vstd::prelude::*;

use crate::rational::Rational;

verus! {

/// A binary operator of the expression language.
#[derive(Debug, Clone, Copy, PartialEq, Eq, Structural)]
pub enum Op {
    Add,
    Subtract,
    Multiply,
    Divide,
    Modulo,
    Power,
    Equals,
}

/// Binding strength of an operator; `Equals` has none.
pub open spec fn precedence_of(op: Op) -> Option<u8> {
    match op {
        Op::Add | Op::Subtract => Some(1u8),
        Op::Multiply | Op::Divide | Op::Modulo => Some(2u8),
        Op::Power => Some(3u8),
        Op::Equals => None,
    }
}

impl Op {
    pub fn get_precedence(&self) -> (r: Option<u8>)
        ensures
            r == precedence_of(*self),
    {
        match self {
            Op::Add | Op::Subtract => Some(1),
            Op::Multiply | Op::Divide | Op::Modulo => Some(2),
            Op::Power => Some(3),
            Op::Equals => None,
        }
    }
}

/// An expression tree. Each node owns its children; transformations build new trees.
#[derive(Debug)]
pub enum Expr {
    Number(Rational),
    UnaryMinus(Box<Expr>),
    BinOp { lhs: Box<Expr>, op: Op, rhs: Box<Expr> },
    Function { name: String, args: Vec<Expr> },
    /// `coefficient * variable ^ exponent`
    Monomial { coefficient: Rational, variable: String, exponent: Rational },
    /// A named constant; its value is looked up by whoever evaluates the tree.
    Constant { name: String },
}

/// The mathematical shape of an `Expr`: names are character sequences, so two
/// trees are equal exactly when they have the same structure, names and numbers.
pub enum Term {
    Number(Rational),
    Neg(Box<Term>),
    Bin(Box<Term>, Op, Box<Term>),
    Call(Seq<char>, Seq<Term>),
    Mono(Rational, Seq<char>, Rational),
    Named(Seq<char>),
}

pub open spec fn terms_of(s: Seq<Expr>) -> Seq<Term>
    decreases s,
{
    if s.len() == 0 {
        Seq::empty()
    } else {
        seq![term_of(s[0])] + terms_of(s.subrange(1, s.len() as int))
    }
}

pub open spec fn term_of(e: Expr) -> Term
    decreases e,
{
    match e {
        Expr::Number(n) => Term::Number(n),
        Expr::UnaryMinus(inner) => Term::Neg(Box::new(term_of(*inner))),
        Expr::BinOp { lhs, op, rhs } => Term::Bin(
            Box::new(term_of(*lhs)),
            op,
            Box::new(term_of(*rhs)),
        ),
        Expr::Function { name, args } => Term::Call(name@, terms_of(args@)),
        Expr::Monomial { coefficient, variable, exponent } => Term::Mono(
            coefficient,
            variable@,
            exponent,
        ),
        Expr::Constant { name } => Term::Named(name@),
    }
}

impl View for Expr {
    type V = Term;

    open spec fn view(&self) -> Term {
        term_of(*self)
    }
}

pub proof fn lemma_terms_of(s: Seq<Expr>)
    ensures
        terms_of(s).len() == s.len(),
        forall|i: int| 0 <= i < s.len() ==> #[trigger] terms_of(s)[i] == term_of(s[i]),
    decreases s.len(),
{
    if s.len() > 0 {
        let rest = s.subrange(1, s.len() as int);
        lemma_terms_of(rest);
        assert forall|i: int| 0 <= i < s.len() implies #[trigger] terms_of(s)[i] == term_of(
            s[i],
        ) by {
            if i > 0 {
                assert(rest[i - 1] == s[i]);
            }
        }
    }
}

impl Expr {
    /// A copy of the tree.
    pub fn copy(&self) -> (r: Expr)
        ensures
            r@ == self@,
        decreases self,
    {
        match self {
            Expr::Number(n) => Expr::Number(*n),
            Expr::UnaryMinus(inner) => Expr::UnaryMinus(Box::new((**inner).copy())),
            Expr::BinOp { lhs, op, rhs } => Expr::BinOp {
                lhs: Box::new((**lhs).copy()),
                op: *op,
                rhs: Box::new((**rhs).copy()),
            },
            Expr::Function { name, args } => {
                let mut out: Vec<Expr> = Vec::new();
                let mut i: usize = 0;
                while i < args.len()
                    invariant
                        *self == (Expr::Function { name: *name, args: *args }),
                        i <= args.len(),
                        out@.len() == i,
                        forall|j: int| 0 <= j < i ==> #[trigger] term_of(out@[j]) == term_of(args@[j]),
                    decreases args.len() - i,
                {
                    proof {
                        let v = self->Function_args;
                        assert(v == *args);
                        assert(decreases_to!(*self => v));
                        assert(decreases_to!(v => v[i as int]));
                    }
                    out.push(args[i].copy());
                    i = i + 1;
                }
                proof {
                    lemma_terms_of(out@);
                    lemma_terms_of(args@);
                    assert forall|j: int| 0 <= j < out@.len() implies terms_of(out@)[j] == terms_of(
                        args@,
                    )[j] by {
                        assert(term_of(out@[j]) == term_of(args@[j]));
                    }
                    assert(terms_of(out@) =~= terms_of(args@));
                }
                Expr::Function { name: name.clone(), args: out }
            },
            Expr::Monomial { coefficient, variable, exponent } => Expr::Monomial {
                coefficient: *coefficient,
                variable: variable.clone(),
                exponent: *exponent,
            },
            Expr::Constant { name } => Expr::Constant { name: name.clone() },
        }
    }

    /// Structural equality: same shape, operators, names and numbers.
    pub fn same(&self, other: &Expr) -> (r: bool)
        ensures
            r == (self@ == other@),
        decreases self,
    {
        match (self, other) {
            (Expr::Number(a), Expr::Number(b)) => a == b,
            (Expr::UnaryMinus(a), Expr::UnaryMinus(b)) => (**a).same(&**b),
            (
                Expr::BinOp { lhs: la, op: oa, rhs: ra },
                Expr::BinOp { lhs: lb, op: ob, rhs: rb },
            ) => *oa == *ob && (**la).same(&**lb) && (**ra).same(&**rb),
            (Expr::Function { name: na, args: aa }, Expr::Function { name: nb, args: ab }) => {
                proof {
                    lemma_terms_of(aa@);
                    lemma_terms_of(ab@);
                }
                if !(*na == *nb) || aa.len() != ab.len() {
                    return false;
                }
                let mut i: usize = 0;
                while i < aa.len()
                    invariant
                        *self == (Expr::Function { name: *na, args: *aa }),
                        *other == (Expr::Function { name: *nb, args: *ab }),
                        i <= aa.len(),
                        aa.len() == ab.len(),
                        forall|j: int| 0 <= j < i ==> #[trigger] term_of(aa@[j]) == term_of(ab@[j]),
                    decreases aa.len() - i,
                {
                    proof {
                        lemma_terms_of(aa@);
                        lemma_terms_of(ab@);
                        let v = self->Function_args;
                        assert(v == *aa);
                        assert(decreases_to!(*self => v));
                        assert(decreases_to!(v => v[i as int]));
                    }
                    if !aa[i].same(&ab[i]) {
                        proof {
                            assert(terms_of(aa@)[i as int] != terms_of(ab@)[i as int]);
                            assert(terms_of(aa@) != terms_of(ab@));
                        }
                        return false;
                    }
                    i = i + 1;
                }
                proof {
                    assert forall|j: int| 0 <= j < aa@.len() implies terms_of(aa@)[j] == terms_of(
                        ab@,
                    )[j] by {
                        assert(term_of(aa@[j]) == term_of(ab@[j]));
                    }
                    assert(terms_of(aa@) =~= terms_of(ab@));
                }
                true
            },
            (
                Expr::Monomial { coefficient: ca, variable: va, exponent: ea },
                Expr::Monomial { coefficient: cb, variable: vb, exponent: eb },
            ) => ca == cb && *va == *vb && ea == eb,
            (Expr::Constant { name: a }, Expr::Constant { name: b }) => *a == *b,
            _ => false,
        }
    }

    /// The parts of a binary node.
    pub fn get_bin_op(self) -> (r: Option<(Expr, Op, Expr)>)
        ensures
            match self@ {
                Term::Bin(l, op, rr) => r matches Some(t) && t.0@ == *l && t.1 == op && t.2@ == *rr,
                _ => r is None,
            },
    {
        match self {
            Expr::BinOp { lhs, op, rhs } => Some((*lhs, op, *rhs)),
            _ => None,
        }
    }
}

} // verus!
