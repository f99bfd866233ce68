use vstd::prelude::*;
use vstd::string::StrSliceExecFns;

use crate::expr::{lemma_terms_of, terms_of, Expr, Op, Term};
use crate::rational::{abs, Rational};

verus! {

/// Relies on `String::push`: appends one character.
#[verifier::external_body]
fn push_char(s: &mut String, c: char)
    ensures
        final(s)@ == old(s)@.push(c),
{
    s.push(c)
}

fn push_str(s: &mut String, t: &String)
    ensures
        final(s)@ == old(s)@ + t@,
{
    s.append(t.as_str());
}

pub open spec fn digit(d: nat) -> char {
    (('0' as u32) + (d % 10) as u32) as char
}

/// Decimal digits of `n`, most significant first.
pub open spec fn digits(n: nat) -> Seq<char>
    decreases n,
{
    if n < 10 {
        seq![digit(n)]
    } else {
        digits(n / 10).push(digit(n % 10))
    }
}

pub open spec fn int_text(n: int) -> Seq<char> {
    if n < 0 {
        seq!['-'] + digits(abs(n))
    } else {
        digits(abs(n))
    }
}

pub open spec fn pow10(k: nat) -> nat
    decreases k,
{
    if k == 0 {
        1
    } else {
        10 * pow10((k - 1) as nat)
    }
}

/// The fewest decimal places, from `k` up to 18, that write `1 / d` exactly.
pub open spec fn places_from(d: nat, k: nat) -> Option<nat>
    decreases 19 - k,
{
    if k > 18 {
        None
    } else if pow10(k) % d == 0 {
        Some(k)
    } else {
        places_from(d, k + 1)
    }
}

pub open spec fn zeros(k: int) -> Seq<char> {
    Seq::new(if k > 0 { k as nat } else { 0 }, |i: int| '0')
}

/// How a number is written: an integer as its digits, a fraction whose
/// denominator divides a power of ten up to 10^18 as a decimal, and any other
/// as `numerator/denominator`.
pub open spec fn number_text(r: Rational) -> Seq<char> {
    if r.den == 1 {
        int_text(r.num as int)
    } else if r.den < 1 {
        int_text(r.num as int) + seq!['/'] + int_text(r.den as int)
    } else {
        match places_from(r.den as nat, 0) {
            Some(k) => {
                let d = r.den as nat;
                let m = abs(r.num as int);
                let frac = digits((m % d) * (pow10(k) / d));
                (if r.num < 0 {
                    seq!['-']
                } else {
                    Seq::empty()
                }) + digits(m / d) + seq!['.'] + zeros(k - frac.len()) + frac
            },
            None => int_text(r.num as int) + seq!['/'] + int_text(r.den as int),
        }
    }
}

pub open spec fn op_char(op: Op) -> char {
    match op {
        Op::Add => '+',
        Op::Subtract => '-',
        Op::Multiply => '*',
        Op::Divide => '/',
        Op::Modulo => '%',
        Op::Power => '^',
        Op::Equals => '=',
    }
}

/// The canonical text of a tree: every binary node in parentheses.
pub open spec fn canonical(t: Term) -> Seq<char>
    decreases t,
{
    match t {
        Term::Number(n) => number_text(n),
        Term::Neg(i) => seq!['-', '('] + canonical(*i) + seq![')'],
        Term::Bin(l, op, r) => seq!['('] + canonical(*l) + seq![op_char(op)] + canonical(*r) + seq![')'],
        Term::Call(name, args) => name + seq!['('] + canonical_list(args) + seq![')'],
        Term::Mono(c, v, e) => number_text(c) + v + seq!['^', '('] + number_text(e) + seq![')'],
        Term::Named(name) => name,
    }
}

/// Canonical texts joined by `", "`.
pub open spec fn canonical_list(s: Seq<Term>) -> Seq<char>
    decreases s,
{
    if s.len() == 0 {
        Seq::empty()
    } else if s.len() == 1 {
        canonical(s[0])
    } else {
        canonical_list(s.drop_last()) + seq![',', ' '] + canonical(s.last())
    }
}

/// The typeset text of a tree. A power shows only its exponent, as a
/// superscript; the base is left to the surrounding text.
pub open spec fn latex(t: Term) -> Seq<char>
    decreases t,
{
    match t {
        Term::Number(n) => number_text(n),
        Term::Neg(i) => seq!['-'] + latex(*i),
        Term::Bin(l, op, r) => match op {
            Op::Power => seq!['^', '{'] + latex(*r) + seq!['}'],
            Op::Divide => seq!['\\', 'f', 'r', 'a', 'c', '{'] + latex(*l) + seq!['}', '{'] + latex(*r)
                + seq!['}'],
            Op::Multiply => latex(*l) + seq!['\\', 'c', 'd', 'o', 't'] + latex(*r),
            _ => latex(*l) + seq![op_char(op)] + latex(*r),
        },
        Term::Call(name, args) => name + seq!['('] + latex_list(args) + seq![')'],
        Term::Mono(c, v, e) => (if c.num == 1 && c.den == 1 {
            Seq::empty()
        } else {
            number_text(c)
        }) + v + (if e.num == 1 && e.den == 1 {
            Seq::empty()
        } else {
            seq!['^', '{'] + number_text(e) + seq!['}']
        }),
        Term::Named(name) => name,
    }
}

pub open spec fn latex_list(s: Seq<Term>) -> Seq<char>
    decreases s,
{
    if s.len() == 0 {
        Seq::empty()
    } else if s.len() == 1 {
        latex(s[0])
    } else {
        latex_list(s.drop_last()) + seq![',', ' '] + latex(s.last())
    }
}

fn push_digits(out: &mut String, n: u64)
    ensures
        final(out)@ == old(out)@ + digits(n as nat),
    decreases n,
{
    if n >= 10 {
        push_digits(out, n / 10);
    }
    let c = char_of_digit((n % 10) as u32);
    push_char(out, c);
    proof {
        if n >= 10 {
            assert(digits(n as nat) == digits((n / 10) as nat).push(digit((n % 10) as nat)));
        }
    }
}

fn char_of_digit(d: u32) -> (c: char)
    requires
        d < 10,
    ensures
        c == digit(d as nat),
{
    if d == 0 { '0' } else if d == 1 { '1' } else if d == 2 { '2' } else if d == 3 { '3' }
    else if d == 4 { '4' } else if d == 5 { '5' } else if d == 6 { '6' } else if d == 7 { '7' }
    else if d == 8 { '8' } else { '9' }
}

fn magnitude_u64(n: i64) -> (r: u64)
    ensures
        r as nat == abs(n as int),
{
    if n < 0 {
        (-(n as i128)) as u64
    } else {
        n as u64
    }
}

fn push_int(out: &mut String, n: i64)
    ensures
        final(out)@ == old(out)@ + int_text(n as int),
{
    if n < 0 {
        push_char(out, '-');
    }
    push_digits(out, magnitude_u64(n));
    assert(final(out)@ =~= old(out)@ + int_text(n as int));
}

proof fn lemma_pow10_mono(a: nat, b: nat)
    requires
        a <= b,
    ensures
        1 <= pow10(a) <= pow10(b),
    decreases b,
{
    if b > a {
        lemma_pow10_mono(a, (b - 1) as nat);
    } else {
        lemma_pow10_pos(a);
    }
}

proof fn lemma_pow10_pos(a: nat)
    ensures
        1 <= pow10(a),
    decreases a,
{
    if a > 0 {
        lemma_pow10_pos((a - 1) as nat);
    }
}

proof fn lemma_pow10_bound(k: nat)
    requires
        k <= 18,
    ensures
        1 <= pow10(k) <= 1_000_000_000_000_000_000,
{
    reveal_with_fuel(pow10, 19);
    lemma_pow10_mono(k, 18);
}

proof fn lemma_frac_bound(m: nat, d: nat, p: nat)
    requires
        d > 0,
        p % d == 0,
        p > 0,
    ensures
        (m % d) * (p / d) < p,
{
    let q = p / d;
    assert(p == q * d) by (nonlinear_arith)
        requires
            d > 0,
            p % d == 0,
            q == p / d,
    ;
    assert(q > 0) by (nonlinear_arith)
        requires
            p == q * d,
            p > 0,
            d > 0,
    ;
    assert(m % d < d) by (nonlinear_arith)
        requires
            d > 0,
    ;
    let x = m % d;
    assert(x * q < d * q) by (nonlinear_arith)
        requires
            x < d,
            q > 0,
    ;
    assert(d * q == q * d) by (nonlinear_arith);
}

fn push_number(out: &mut String, r: Rational)
    ensures
        final(out)@ == old(out)@ + number_text(r),
{
    if r.den == 1 {
        push_int(out, r.num);
        return;
    }
    if r.den < 1 {
        push_number_fraction(out, r);
        return;
    }
    let d = r.den as u64;
    let mut k: u64 = 0;
    let mut p: u64 = 1;
    while k <= 18 && p % d != 0
        invariant
            d as nat == r.den as nat,
            d > 0,
            k <= 19,
            k <= 18 ==> p as nat == pow10(k as nat),
            places_from(d as nat, 0) == places_from(d as nat, k as nat),
        decreases 19 - k,
    {
        proof {
            lemma_pow10_bound(k as nat);
        }
        if k < 18 {
            p = p * 10;
        }
        k = k + 1;
    }
    if k > 18 {
        push_number_fraction(out, r);
        return;
    }
    let m = magnitude_u64(r.num);
    proof {
        lemma_pow10_bound(k as nat);
        lemma_frac_bound(m as nat, d as nat, p as nat);
    }
    let frac: u64 = (m % d) * (p / d);
    if r.num < 0 {
        push_char(out, '-');
    }
    push_digits(out, m / d);
    push_char(out, '.');
    let ghost base = out@;
    let mut text = String::new();
    push_digits(&mut text, frac);
    let width = text.as_str().unicode_len();
    let mut z: usize = width;
    while z < k as usize
        invariant
            width <= z,
            z <= k || z == width,
            out@ == base + zeros(z - width),
        decreases k as usize - z,
    {
        push_char(out, '0');
        z = z + 1;
        assert(out@ =~= base + zeros(z - width));
    }
    assert(zeros(z - width) =~= zeros(k - width));
    push_str(out, &text);
    assert(final(out)@ =~= old(out)@ + number_text(r));
}

fn push_number_fraction(out: &mut String, r: Rational)
    requires
        r.den != 1,
        r.den < 1 || places_from(r.den as nat, 0) is None,
    ensures
        final(out)@ == old(out)@ + number_text(r),
{
    push_int(out, r.num);
    push_char(out, '/');
    push_int(out, r.den);
    assert(final(out)@ =~= old(out)@ + number_text(r));
}

fn push_op(out: &mut String, op: Op)
    ensures
        final(out)@ == old(out)@.push(op_char(op)),
{
    let c = match op {
        Op::Add => '+',
        Op::Subtract => '-',
        Op::Multiply => '*',
        Op::Divide => '/',
        Op::Modulo => '%',
        Op::Power => '^',
        Op::Equals => '=',
    };
    push_char(out, c);
}

fn write_canonical(out: &mut String, e: &Expr)
    ensures
        final(out)@ == old(out)@ + canonical(e@),
    decreases e,
{
    let ghost start = out@;
    match e {
        Expr::Number(n) => push_number(out, *n),
        Expr::UnaryMinus(inner) => {
            push_char(out, '-');
            push_char(out, '(');
            write_canonical(out, &**inner);
            push_char(out, ')');
            assert(out@ =~= start + canonical(e@));
        },
        Expr::BinOp { lhs, op, rhs } => {
            push_char(out, '(');
            write_canonical(out, &**lhs);
            push_op(out, *op);
            write_canonical(out, &**rhs);
            push_char(out, ')');
            assert(out@ =~= start + canonical(e@));
        },
        Expr::Function { name, args } => {
            push_str(out, name);
            push_char(out, '(');
            let ghost base = out@;
            let ghost ts = terms_of(args@);
            proof {
                lemma_terms_of(args@);
                assert(ts.subrange(0, 0) =~= Seq::<Term>::empty());
            }
            let mut i: usize = 0;
            while i < args.len()
                invariant
                    *e == (Expr::Function { name: *name, args: *args }),
                    ts == terms_of(args@),
                    ts.len() == args@.len(),
                    forall|j: int| 0 <= j < args@.len() ==> #[trigger] ts[j] == term_of_at(args@, j),
                    i <= args.len(),
                    out@ == base + canonical_list(ts.subrange(0, i as int)),
                decreases args.len() - i,
            {
                proof {
                    let v = e->Function_args;
                    assert(v == *args);
                    assert(decreases_to!(*e => v));
                    assert(decreases_to!(v => v[i as int]));
                }
                let ghost before = out@;
                if i > 0 {
                    push_char(out, ',');
                    push_char(out, ' ');
                }
                write_canonical(out, &args[i]);
                proof {
                    let s1 = ts.subrange(0, i + 1);
                    assert(s1.drop_last() =~= ts.subrange(0, i as int));
                    assert(s1.last() == ts[i as int]);
                    assert(ts[i as int] == args@[i as int]@);
                    assert(out@ =~= base + canonical_list(s1));
                }
                i = i + 1;
            }
            assert(ts.subrange(0, args@.len() as int) =~= ts);
            push_char(out, ')');
            assert(out@ =~= start + canonical(e@));
        },
        Expr::Monomial { coefficient, variable, exponent } => {
            push_number(out, *coefficient);
            push_str(out, variable);
            push_char(out, '^');
            push_char(out, '(');
            push_number(out, *exponent);
            push_char(out, ')');
            assert(out@ =~= start + canonical(e@));
        },
        Expr::Constant { name } => {
            push_str(out, name);
        },
    }
}

pub open spec fn term_of_at(s: Seq<Expr>, j: int) -> Term {
    s[j]@
}

#[verifier::rlimit(60)]
fn write_latex(out: &mut String, e: &Expr)
    ensures
        final(out)@ == old(out)@ + latex(e@),
    decreases e,
{
    let ghost start = out@;
    match e {
        Expr::Number(n) => push_number(out, *n),
        Expr::UnaryMinus(inner) => {
            push_char(out, '-');
            write_latex(out, &**inner);
            assert(out@ =~= start + latex(e@));
        },
        Expr::BinOp { lhs, op, rhs } => {
            match op {
                Op::Power => {
                    push_char(out, '^');
                    push_char(out, '{');
                    write_latex(out, &**rhs);
                    push_char(out, '}');
                },
                Op::Divide => {
                    push_char(out, '\\');
                    push_char(out, 'f');
                    push_char(out, 'r');
                    push_char(out, 'a');
                    push_char(out, 'c');
                    push_char(out, '{');
                    write_latex(out, &**lhs);
                    push_char(out, '}');
                    push_char(out, '{');
                    write_latex(out, &**rhs);
                    push_char(out, '}');
                },
                Op::Multiply => {
                    write_latex(out, &**lhs);
                    push_char(out, '\\');
                    push_char(out, 'c');
                    push_char(out, 'd');
                    push_char(out, 'o');
                    push_char(out, 't');
                    write_latex(out, &**rhs);
                },
                _ => {
                    write_latex(out, &**lhs);
                    push_op(out, *op);
                    write_latex(out, &**rhs);
                },
            }
            assert(out@ =~= start + latex(e@));
        },
        Expr::Function { name, args } => {
            push_str(out, name);
            push_char(out, '(');
            let ghost base = out@;
            let ghost ts = terms_of(args@);
            proof {
                lemma_terms_of(args@);
                assert(ts.subrange(0, 0) =~= Seq::<Term>::empty());
            }
            let mut i: usize = 0;
            while i < args.len()
                invariant
                    *e == (Expr::Function { name: *name, args: *args }),
                    ts == terms_of(args@),
                    ts.len() == args@.len(),
                    forall|j: int| 0 <= j < args@.len() ==> #[trigger] ts[j] == term_of_at(args@, j),
                    i <= args.len(),
                    out@ == base + latex_list(ts.subrange(0, i as int)),
                decreases args.len() - i,
            {
                proof {
                    let v = e->Function_args;
                    assert(v == *args);
                    assert(decreases_to!(*e => v));
                    assert(decreases_to!(v => v[i as int]));
                }
                if i > 0 {
                    push_char(out, ',');
                    push_char(out, ' ');
                }
                write_latex(out, &args[i]);
                proof {
                    let s1 = ts.subrange(0, i + 1);
                    assert(s1.drop_last() =~= ts.subrange(0, i as int));
                    assert(s1.last() == ts[i as int]);
                    assert(ts[i as int] == args@[i as int]@);
                    assert(out@ =~= base + latex_list(s1));
                }
                i = i + 1;
            }
            assert(ts.subrange(0, args@.len() as int) =~= ts);
            push_char(out, ')');
            assert(out@ =~= start + latex(e@));
        },
        Expr::Monomial { coefficient, variable, exponent } => {
            if !(coefficient.num == 1 && coefficient.den == 1) {
                push_number(out, *coefficient);
            }
            push_str(out, variable);
            if !(exponent.num == 1 && exponent.den == 1) {
                push_char(out, '^');
                push_char(out, '{');
                push_number(out, *exponent);
                push_char(out, '}');
            }
            assert(out@ =~= start + latex(e@));
        },
        Expr::Constant { name } => {
            push_str(out, name);
        },
    }
}

pub open spec fn op_name(op: Op) -> Seq<char> {
    match op {
        Op::Add => "Add"@,
        Op::Subtract => "Subtract"@,
        Op::Multiply => "Multiply"@,
        Op::Divide => "Divide"@,
        Op::Modulo => "Modulo"@,
        Op::Power => "Power"@,
        Op::Equals => "Equals"@,
    }
}

/// One line per node, children indented two more spaces than their parent.
pub open spec fn outline_text(t: Term, indent: nat) -> Seq<char>
    decreases t,
{
    let pad = Seq::new(indent, |i: int| ' ');
    match t {
        Term::Number(n) => pad + "Number: "@ + number_text(n) + seq!['\n'],
        Term::Neg(i) => pad + "UnaryMinus\n"@ + outline_text(*i, child_indent(indent)),
        Term::Bin(l, op, r) => pad + "BinOp: "@ + op_name(op) + seq!['\n'] + outline_text(*l, child_indent(indent))
            + outline_text(*r, child_indent(indent)),
        Term::Call(name, args) => pad + "Function: "@ + name + seq!['\n'] + outline_list(args, child_indent(indent)),
        Term::Mono(c, v, e) => pad + "Monomial: "@ + number_text(c) + seq![' '] + v + seq!['^'] + number_text(e)
            + seq!['\n'],
        Term::Named(name) => pad + "Constant: "@ + name + seq!['\n'],
    }
}

pub open spec fn outline_list(s: Seq<Term>, indent: nat) -> Seq<char>
    decreases s,
{
    if s.len() == 0 {
        Seq::empty()
    } else {
        outline_list(s.drop_last(), indent) + outline_text(s.last(), indent)
    }
}

fn push_pad(out: &mut String, indent: usize)
    ensures
        final(out)@ == old(out)@ + Seq::new(indent as nat, |i: int| ' '),
{
    let ghost start = out@;
    let mut i: usize = 0;
    while i < indent
        invariant
            i <= indent,
            out@ == start + Seq::new(i as nat, |j: int| ' '),
        decreases indent - i,
    {
        push_char(out, ' ');
        i = i + 1;
        assert(out@ =~= start + Seq::new(i as nat, |j: int| ' '));
    }
}

fn push_op_name(out: &mut String, op: Op)
    ensures
        final(out)@ == old(out)@ + op_name(op),
{
    match op {
        Op::Add => out.append("Add"),
        Op::Subtract => out.append("Subtract"),
        Op::Multiply => out.append("Multiply"),
        Op::Divide => out.append("Divide"),
        Op::Modulo => out.append("Modulo"),
        Op::Power => out.append("Power"),
        Op::Equals => out.append("Equals"),
    }
}

#[verifier::rlimit(60)]
fn write_outline(out: &mut String, e: &Expr, indent: usize)
    ensures
        final(out)@ == old(out)@ + outline_text(e@, indent as nat),
    decreases e,
{
    let ghost start = out@;
    push_pad(out, indent);
    match e {
        Expr::Number(n) => {
            out.append("Number: ");
            push_number(out, *n);
            push_char(out, '\n');
        },
        Expr::UnaryMinus(inner) => {
            out.append("UnaryMinus\n");
            write_outline(out, &**inner, next_indent(indent));
        },
        Expr::BinOp { lhs, op, rhs } => {
            out.append("BinOp: ");
            push_op_name(out, *op);
            push_char(out, '\n');
            write_outline(out, &**lhs, next_indent(indent));
            write_outline(out, &**rhs, next_indent(indent));
        },
        Expr::Function { name, args } => {
            out.append("Function: ");
            push_str(out, name);
            push_char(out, '\n');
            let ghost base = out@;
            let ghost ts = terms_of(args@);
            proof {
                lemma_terms_of(args@);
                assert(ts.subrange(0, 0) =~= Seq::<Term>::empty());
            }
            let mut i: usize = 0;
            while i < args.len()
                invariant
                    *e == (Expr::Function { name: *name, args: *args }),
                    ts == terms_of(args@),
                    ts.len() == args@.len(),
                    forall|j: int| 0 <= j < args@.len() ==> #[trigger] ts[j] == term_of_at(args@, j),
                    i <= args.len(),
                    out@ == base + outline_list(ts.subrange(0, i as int), child_indent(indent as nat)),
                decreases args.len() - i,
            {
                proof {
                    let v = e->Function_args;
                    assert(v == *args);
                    assert(decreases_to!(*e => v));
                    assert(decreases_to!(v => v[i as int]));
                    assert(ts[i as int] == args@[i as int]@);
                }
                write_outline(out, &args[i], next_indent(indent));
                proof {
                    let s1 = ts.subrange(0, i + 1);
                    assert(s1.drop_last() =~= ts.subrange(0, i as int));
                    assert(s1.last() == ts[i as int]);
                    assert(out@ =~= base + outline_list(s1, child_indent(indent as nat)));
                }
                i = i + 1;
            }
            assert(ts.subrange(0, args@.len() as int) =~= ts);
        },
        Expr::Monomial { coefficient, variable, exponent } => {
            out.append("Monomial: ");
            push_number(out, *coefficient);
            push_char(out, ' ');
            push_str(out, variable);
            push_char(out, '^');
            push_number(out, *exponent);
            push_char(out, '\n');
        },
        Expr::Constant { name } => {
            out.append("Constant: ");
            push_str(out, name);
            push_char(out, '\n');
        },
    }
    assert(out@ =~= start + outline_text(e@, indent as nat));
}

/// The indent of a node's children: two more spaces, as far as `usize` goes.
pub open spec fn child_indent(indent: nat) -> nat {
    if indent + 2 > usize::MAX {
        usize::MAX as nat
    } else {
        indent + 2
    }
}

fn next_indent(indent: usize) -> (r: usize)
    ensures
        r as nat == child_indent(indent as nat),
{
    if indent <= usize::MAX - 2 {
        indent + 2
    } else {
        usize::MAX
    }
}

impl Op {
    /// The operator's symbol.
    pub fn to_string(&self) -> (r: String)
        ensures
            r@ == seq![op_char(*self)],
    {
        let mut out = String::new();
        push_op(&mut out, *self);
        assert(out@ =~= seq![op_char(*self)]);
        out
    }
}

impl Expr {
    /// The tree as indented lines, one per node, starting at `indent` spaces;
    /// children stand two spaces further in.
    pub fn outline(&self, indent: usize) -> (r: String)
        ensures
            r@ == outline_text(self@, indent as nat),
    {
        let mut out = String::new();
        write_outline(&mut out, self, indent);
        out
    }

    /// The canonical text: every binary node in parentheses, a monomial as
    /// `{coefficient}{variable}^({exponent})`.
    pub fn to_string(&self) -> (r: String)
        ensures
            r@ == canonical(self@),
    {
        let mut out = String::new();
        write_canonical(&mut out, self);
        out
    }

    /// The typeset text.
    pub fn as_latex(&self) -> (r: String)
        ensures
            r@ == latex(self@),
    {
        let mut out = String::new();
        write_latex(&mut out, self);
        out
    }
}

} // verus!
