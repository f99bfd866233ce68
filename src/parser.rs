use vstd::prelude::*;
use vstd::string::StrSliceExecFns;

use crate::error::ParserError;
use crate::expr::{lemma_terms_of, terms_of, Expr, Op, Term};
use crate::optimizer::bin;
use crate::rational::{quotient, Rational};

verus! {

/// A lexical unit; names are given by their place `[start, end)` in the text.
/// A number directly followed by a variable, and a variable directly followed
/// by `^` and a number, are read as one monomial.
#[derive(Debug, Clone, Copy, PartialEq, Eq, Structural)]
pub enum Token {
    /// Coefficient, the variable's place, exponent.
    Mono(Rational, usize, usize, Rational),
    Num(Rational),
    /// A known constant.
    Name(usize, usize),
    /// An identifier directly before `(`.
    Func(usize, usize),
    /// One of `+ - * / % ^ =`.
    Sym(char),
    Open,
    Close,
    Comma,
}

pub open spec fn is_operator_char(c: char) -> bool {
    c == '+' || c == '-' || c == '*' || c == '/' || c == '%' || c == '^' || c == '='
}

/// Binding strength of an operator character; `=` binds loosest.
pub open spec fn sym_prec(c: char) -> int {
    if c == '=' {
        0
    } else if c == '+' || c == '-' {
        1
    } else if c == '*' || c == '/' || c == '%' {
        2
    } else if c == '^' {
        3
    } else {
        -1
    }
}

pub open spec fn op_of(c: char) -> Op {
    if c == '=' {
        Op::Equals
    } else if c == '+' {
        Op::Add
    } else if c == '-' {
        Op::Subtract
    } else if c == '*' {
        Op::Multiply
    } else if c == '/' {
        Op::Divide
    } else if c == '%' {
        Op::Modulo
    } else {
        Op::Power
    }
}

pub open spec fn delta(t: Token) -> int {
    match t {
        Token::Open => 1,
        Token::Close => -1,
        _ => 0,
    }
}

/// Parenthesis depth just before position `k`.
pub open spec fn depth(ts: Seq<Token>, k: int) -> int
    decreases k,
{
    if k <= 0 {
        0
    } else {
        depth(ts, k - 1) + delta(ts[k - 1])
    }
}

/// A token after which an operator is binary rather than a sign.
pub open spec fn ends_operand(t: Token) -> bool {
    t is Num || t is Mono || t is Name || t is Close
}

/// Position `k` holds a binary operator of precedence `p` outside all parentheses.
pub open spec fn is_split(ts: Seq<Token>, k: int, p: int) -> bool {
    &&& 0 < k < ts.len()
    &&& ts[k] matches Token::Sym(c) && sym_prec(c) == p
    &&& ends_operand(ts[k - 1])
    &&& depth(ts, k) == 0
}

/// The last split position of precedence `p` before `n`, or -1.
pub open spec fn last_split(ts: Seq<Token>, p: int, n: int) -> int
    decreases n,
{
    if n <= 0 {
        -1
    } else if is_split(ts, n - 1, p) {
        n - 1
    } else {
        last_split(ts, p, n - 1)
    }
}

/// The first split position of precedence `p` before `n`, or -1.
pub open spec fn first_split(ts: Seq<Token>, p: int, n: int) -> int
    decreases n,
{
    if n <= 0 {
        -1
    } else if first_split(ts, p, n - 1) >= 0 {
        first_split(ts, p, n - 1)
    } else if is_split(ts, n - 1, p) {
        n - 1
    } else {
        -1
    }
}

/// Where the tree's root operator stands: the loosest binary operator outside
/// parentheses, the last of its kind for left-associative ones and the first
/// for `^`, which associates to the right; -1 if there is none.
pub open spec fn split_point(ts: Seq<Token>) -> int {
    let n = ts.len() as int;
    if last_split(ts, 0, n) >= 0 {
        last_split(ts, 0, n)
    } else if last_split(ts, 1, n) >= 0 {
        last_split(ts, 1, n)
    } else if last_split(ts, 2, n) >= 0 {
        last_split(ts, 2, n)
    } else {
        first_split(ts, 3, n)
    }
}

/// The first comma outside parentheses before `n`, or -1.
pub open spec fn first_comma(ts: Seq<Token>, n: int) -> int
    decreases n,
{
    if n <= 0 {
        -1
    } else if first_comma(ts, n - 1) >= 0 {
        first_comma(ts, n - 1)
    } else if ts[n - 1] is Comma && depth(ts, n - 1) == 0 {
        n - 1
    } else {
        -1
    }
}

/// The part `[a, b)` of the text, if it lies within it.
pub open spec fn slice(src: Seq<char>, a: usize, b: usize) -> Option<Seq<char>> {
    if a <= b <= src.len() {
        Some(src.subrange(a as int, b as int))
    } else {
        None
    }
}

pub open spec fn atom(src: Seq<char>, t: Token) -> Option<Term> {
    match t {
        Token::Num(n) => Some(Term::Number(n)),
        Token::Mono(c, a, b, e) => match slice(src, a, b) {
            Some(v) => Some(Term::Mono(c, v, e)),
            None => None,
        },
        Token::Name(a, b) => match slice(src, a, b) {
            Some(v) => Some(Term::Named(v)),
            None => None,
        },
        _ => None,
    }
}

/// The tree that a token sequence of the text `src` denotes, if it is well formed.
pub open spec fn grammar(src: Seq<char>, ts: Seq<Token>) -> Option<Term>
    decreases 2 * ts.len(),
{
    let n = ts.len() as int;
    if n == 0 {
        None
    } else {
        let k = split_point(ts);
        if 0 <= k < n {
            match (grammar(src, ts.subrange(0, k)), grammar(src, ts.subrange(k + 1, n))) {
                (Some(a), Some(b)) => Some(bin(a, op_of(ts[k]->Sym_0), b)),
                _ => None,
            }
        } else if ts[0] matches Token::Sym(c) && c == '-' {
            match grammar(src, ts.subrange(1, n)) {
                Some(a) => Some(Term::Neg(Box::new(a))),
                None => None,
            }
        } else if n == 1 {
            atom(src, ts[0])
        } else if ts[0] is Open && ts[n - 1] is Close {
            grammar(src, ts.subrange(1, n - 1))
        } else if n >= 3 && ts[0] is Func && ts[1] is Open && ts[n - 1] is Close {
            match (slice(src, ts[0]->Func_0, ts[0]->Func_1), arguments(src, ts.subrange(2, n - 1))) {
                (Some(name), Some(args)) => Some(Term::Call(name, args)),
                _ => None,
            }
        } else {
            None
        }
    }
}

/// The trees of a comma-separated argument list.
pub open spec fn arguments(src: Seq<char>, ts: Seq<Token>) -> Option<Seq<Term>>
    decreases 2 * ts.len() + 1,
{
    let n = ts.len() as int;
    if n == 0 {
        Some(Seq::empty())
    } else {
        let c = first_comma(ts, n);
        if 0 <= c < n {
            match (grammar(src, ts.subrange(0, c)), arguments(src, ts.subrange(c + 1, n))) {
                (Some(a), Some(rest)) => Some(seq![a] + rest),
                _ => None,
            }
        } else {
            match grammar(src, ts) {
                Some(a) => Some(seq![a]),
                None => None,
            }
        }
    }
}

fn char_prec(c: char) -> (r: i128)
    ensures
        r == sym_prec(c),
{
    if c == '=' {
        0
    } else if c == '+' || c == '-' {
        1
    } else if c == '*' || c == '/' || c == '%' {
        2
    } else if c == '^' {
        3
    } else {
        -1
    }
}

fn char_op(c: char) -> (r: Op)
    ensures
        r == op_of(c),
{
    if c == '=' {
        Op::Equals
    } else if c == '+' {
        Op::Add
    } else if c == '-' {
        Op::Subtract
    } else if c == '*' {
        Op::Multiply
    } else if c == '/' {
        Op::Divide
    } else if c == '%' {
        Op::Modulo
    } else {
        Op::Power
    }
}

fn token_delta(t: &Token) -> (r: i128)
    ensures
        r == delta(*t),
{
    match t {
        Token::Open => 1,
        Token::Close => -1,
        _ => 0,
    }
}

fn token_ends_operand(t: &Token) -> (r: bool)
    ensures
        r == ends_operand(*t),
{
    match t {
        Token::Num(_) | Token::Mono(..) | Token::Name(..) | Token::Close => true,
        _ => false,
    }
}

/// The precedence of an operator token, or -1 for any other token.
fn token_prec(t: &Token) -> (r: i128)
    ensures
        *t matches Token::Sym(c) ==> r == sym_prec(c),
        !(*t is Sym) ==> r == -1,
{
    match t {
        Token::Sym(c) => char_prec(*c),
        _ => -1,
    }
}

/// `split_point` of `ts[lo..hi]`.
fn split_scan(ts: &Vec<Token>, lo: usize, hi: usize) -> (k: i128)
    requires
        lo <= hi <= ts@.len(),
    ensures
        k == split_point(ts@.subrange(lo as int, hi as int)),
{
    let ghost s = ts@.subrange(lo as int, hi as int);
    let mut l0: i128 = -1;
    let mut l1: i128 = -1;
    let mut l2: i128 = -1;
    let mut f3: i128 = -1;
    let mut d: i128 = 0;
    let mut j: usize = 0;
    while j < hi - lo
        invariant
            lo <= hi <= ts@.len(),
            s == ts@.subrange(lo as int, hi as int),
            j <= hi - lo,
            -(j as int) <= d <= j as int,
            d == depth(s, j as int),
            l0 == last_split(s, 0, j as int),
            l1 == last_split(s, 1, j as int),
            l2 == last_split(s, 2, j as int),
            f3 == first_split(s, 3, j as int),
        decreases hi - lo - j,
    {
        let t = &ts[lo + j];
        assert(s[j as int] == *t);
        if j > 0 && d == 0 && token_ends_operand(&ts[lo + j - 1]) {
            assert(s[j - 1] == ts@[lo + j - 1]);
            let p = token_prec(t);
            if p == 0 {
                l0 = j as i128;
            } else if p == 1 {
                l1 = j as i128;
            } else if p == 2 {
                l2 = j as i128;
            } else if p == 3 && f3 < 0 {
                f3 = j as i128;
            }
        } else {
            proof {
                if j > 0 {
                    assert(s[j - 1] == ts@[lo + j - 1]);
                }
            }
        }
        d = d + token_delta(t);
        j = j + 1;
    }
    if l0 >= 0 {
        l0
    } else if l1 >= 0 {
        l1
    } else if l2 >= 0 {
        l2
    } else {
        f3
    }
}

/// `first_comma` of `ts[lo..hi]`.
fn comma_scan(ts: &Vec<Token>, lo: usize, hi: usize) -> (k: i128)
    requires
        lo <= hi <= ts@.len(),
    ensures
        k == first_comma(ts@.subrange(lo as int, hi as int), (hi - lo) as int),
{
    let ghost s = ts@.subrange(lo as int, hi as int);
    let mut f: i128 = -1;
    let mut d: i128 = 0;
    let mut j: usize = 0;
    while j < hi - lo
        invariant
            lo <= hi <= ts@.len(),
            s == ts@.subrange(lo as int, hi as int),
            j <= hi - lo,
            -(j as int) <= d <= j as int,
            d == depth(s, j as int),
            f == first_comma(s, j as int),
        decreases hi - lo - j,
    {
        let t = &ts[lo + j];
        assert(s[j as int] == *t);
        if f < 0 && d == 0 {
            match t {
                Token::Comma => {
                    f = j as i128;
                },
                _ => {},
            }
        }
        d = d + token_delta(t);
        j = j + 1;
    }
    f
}

fn slice_of(s: &str, n: usize, a: usize, b: usize) -> (r: Option<String>)
    requires
        n == s@.len(),
    ensures
        r matches Some(x) ==> slice(s@, a, b) == Some(x@),
        r is None ==> slice(s@, a, b) is None,
{
    if a <= b && b <= n {
        Some(s.substring_char(a, b).to_owned())
    } else {
        None
    }
}

fn atom_of(s: &str, n: usize, t: &Token) -> (r: Option<Expr>)
    requires
        n == s@.len(),
    ensures
        r matches Some(e) ==> atom(s@, *t) == Some(e@),
        r is None ==> atom(s@, *t) is None,
{
    match t {
        Token::Num(v) => Some(Expr::Number(*v)),
        Token::Mono(c, a, b, e) => match slice_of(s, n, *a, *b) {
            Some(v) => Some(Expr::Monomial { coefficient: *c, variable: v, exponent: *e }),
            None => None,
        },
        Token::Name(a, b) => match slice_of(s, n, *a, *b) {
            Some(v) => Some(Expr::Constant { name: v }),
            None => None,
        },
        _ => None,
    }
}

/// The tree of `ts[lo..hi]`.
fn parse_range(s: &str, n: usize, ts: &Vec<Token>, lo: usize, hi: usize) -> (r: Option<Expr>)
    requires
        n == s@.len(),
        lo <= hi <= ts@.len(),
    ensures
        r matches Some(e) ==> grammar(s@, ts@.subrange(lo as int, hi as int)) == Some(e@),
        r is None ==> grammar(s@, ts@.subrange(lo as int, hi as int)) is None,
    decreases 2 * (hi - lo),
{
    let ghost w = ts@.subrange(lo as int, hi as int);
    let m = hi - lo;
    if m == 0 {
        return None;
    }
    let k = split_scan(ts, lo, hi);
    if 0 <= k && k < m as i128 {
        let k = k as usize;
        assert(w.subrange(0, k as int) =~= ts@.subrange(lo as int, (lo + k) as int));
        assert(w.subrange(k + 1, m as int) =~= ts@.subrange((lo + k + 1) as int, hi as int));
        assert(w[k as int] == ts@[lo + k]);
        let a = parse_range(s, n, ts, lo, lo + k);
        let b = parse_range(s, n, ts, lo + k + 1, hi);
        let op = match &ts[lo + k] {
            Token::Sym(c) => char_op(*c),
            _ => Op::Equals,
        };
        proof {
            assert(is_split(w, k as int, sym_prec(w[k as int]->Sym_0))) by {
                lemma_split_point(w);
            }
        }
        return match (a, b) {
            (Some(a), Some(b)) => Some(Expr::BinOp { lhs: Box::new(a), op, rhs: Box::new(b) }),
            _ => None,
        };
    }
    let first_minus = match &ts[lo] {
        Token::Sym(c) => *c == '-',
        _ => false,
    };
    assert(w[0] == ts@[lo as int]);
    assert(w[m - 1] == ts@[hi - 1]);
    if first_minus {
        assert(w.subrange(1, m as int) =~= ts@.subrange(lo + 1, hi as int));
        return match parse_range(s, n, ts, lo + 1, hi) {
            Some(a) => Some(Expr::UnaryMinus(Box::new(a))),
            None => None,
        };
    }
    if m == 1 {
        return atom_of(s, n, &ts[lo]);
    }
    let open_first = match &ts[lo] {
        Token::Open => true,
        _ => false,
    };
    let close_last = match &ts[hi - 1] {
        Token::Close => true,
        _ => false,
    };
    if open_first && close_last {
        assert(w.subrange(1, m - 1) =~= ts@.subrange(lo + 1, hi - 1));
        return parse_range(s, n, ts, lo + 1, hi - 1);
    }
    if m >= 3 && close_last {
        let open_second = match &ts[lo + 1] {
            Token::Open => true,
            _ => false,
        };
        assert(w[1] == ts@[lo + 1]);
        match &ts[lo] {
            Token::Func(a, b) => {
                if open_second {
                    assert(w.subrange(2, m - 1) =~= ts@.subrange(lo + 2, hi - 1));
                    let name = slice_of(s, n, *a, *b);
                    let args = args_range(s, n, ts, lo + 2, hi - 1);
                    return match (name, args) {
                        (Some(name), Some(args)) => Some(Expr::Function { name, args }),
                        _ => None,
                    };
                }
            },
            _ => {},
        }
    }
    None
}

proof fn lemma_last_split(ts: Seq<Token>, p: int, n: int)
    ensures
        last_split(ts, p, n) >= 0 ==> is_split(ts, last_split(ts, p, n), p),
    decreases n,
{
    if n > 0 {
        lemma_last_split(ts, p, n - 1);
    }
}

proof fn lemma_first_split(ts: Seq<Token>, p: int, n: int)
    ensures
        first_split(ts, p, n) >= 0 ==> is_split(ts, first_split(ts, p, n), p),
    decreases n,
{
    if n > 0 {
        lemma_first_split(ts, p, n - 1);
    }
}

proof fn lemma_split_point(ts: Seq<Token>)
    ensures
        split_point(ts) >= 0 ==> is_split(ts, split_point(ts), sym_prec(ts[split_point(ts)]->Sym_0)),
{
    let n = ts.len() as int;
    lemma_last_split(ts, 0, n);
    lemma_last_split(ts, 1, n);
    lemma_last_split(ts, 2, n);
    lemma_first_split(ts, 3, n);
}

/// The trees of the comma-separated list `ts[lo..hi]`.
fn args_range(s: &str, n: usize, ts: &Vec<Token>, lo: usize, hi: usize) -> (r: Option<Vec<Expr>>)
    requires
        n == s@.len(),
        lo <= hi <= ts@.len(),
    ensures
        r matches Some(v) ==> arguments(s@, ts@.subrange(lo as int, hi as int)) == Some(terms_of(v@)),
        r is None ==> arguments(s@, ts@.subrange(lo as int, hi as int)) is None,
    decreases 2 * (hi - lo) + 1,
{
    let ghost w = ts@.subrange(lo as int, hi as int);
    let m = hi - lo;
    if m == 0 {
        let v: Vec<Expr> = Vec::new();
        proof {
            lemma_terms_of(v@);
            assert(terms_of(v@) =~= Seq::<Term>::empty());
        }
        return Some(v);
    }
    let c = comma_scan(ts, lo, hi);
    if 0 <= c && c < m as i128 {
        let c = c as usize;
        assert(w.subrange(0, c as int) =~= ts@.subrange(lo as int, (lo + c) as int));
        assert(w.subrange(c + 1, m as int) =~= ts@.subrange((lo + c + 1) as int, hi as int));
        let a = match parse_range(s, n, ts, lo, lo + c) {
            Some(a) => a,
            None => return None,
        };
        let mut rest = match args_range(s, n, ts, lo + c + 1, hi) {
            Some(r) => r,
            None => return None,
        };
        let ghost av = a@;
        let ghost rv = rest@;
        let mut v: Vec<Expr> = Vec::new();
        v.push(a);
        v.append(&mut rest);
        proof {
            lemma_terms_of(v@);
            lemma_terms_of(rv);
            assert(v@ =~= seq![v@[0]] + rv);
            assert(terms_of(v@) =~= seq![av] + terms_of(rv));
        }
        Some(v)
    } else {
        match parse_range(s, n, ts, lo, hi) {
            Some(a) => {
                let ghost av = a@;
                let mut v: Vec<Expr> = Vec::new();
                v.push(a);
                proof {
                    lemma_terms_of(v@);
                    assert(terms_of(v@) =~= seq![av]);
                }
                Some(v)
            },
            None => None,
        }
    }
}

pub open spec fn is_digit(c: char) -> bool {
    '0' <= c <= '9'
}

pub open spec fn is_letter(c: char) -> bool {
    ('a' <= c <= 'z') || ('A' <= c <= 'Z')
}

pub open spec fn is_space(c: char) -> bool {
    c == ' ' || c == '\t' || c == '\n' || c == '\r'
}

/// `c` is the lower-case letter `l` or its capital.
pub open spec fn same_letter(c: char, l: char) -> bool {
    c == l || (c as u32) + 32 == (l as u32)
}

/// A name of the constant table, in either case: `pi`, `tau`, `e`, `phi`.
pub open spec fn is_constant_name(s: Seq<char>) -> bool {
    ||| s.len() == 1 && same_letter(s[0], 'e')
    ||| s.len() == 2 && same_letter(s[0], 'p') && same_letter(s[1], 'i')
    ||| s.len() == 3 && same_letter(s[0], 't') && same_letter(s[1], 'a') && same_letter(s[2], 'u')
    ||| s.len() == 3 && same_letter(s[0], 'p') && same_letter(s[1], 'h') && same_letter(s[2], 'i')
}

/// The number of times `c` occurs in `s`.
pub open spec fn count_char(s: Seq<char>, c: char) -> nat
    decreases s.len(),
{
    if s.len() == 0 {
        0
    } else {
        count_char(s.drop_last(), c) + if s.last() == c {
            1nat
        } else {
            0nat
        }
    }
}

/// The first position before `n` that holds `c`, or -1.
pub open spec fn first_at(s: Seq<char>, c: char, n: int) -> int
    decreases n,
{
    if n <= 0 {
        -1
    } else if first_at(s, c, n - 1) >= 0 {
        first_at(s, c, n - 1)
    } else if s[n - 1] == c {
        n - 1
    } else {
        -1
    }
}

/// The end of the run of letters that starts at `i`.
pub open spec fn letters_end(s: Seq<char>, i: int) -> int
    decreases s.len() - i,
{
    if 0 <= i < s.len() && is_letter(s[i]) {
        letters_end(s, i + 1)
    } else {
        i
    }
}

/// The end of the run of spaces that starts at `i`.
pub open spec fn spaces_end(s: Seq<char>, i: int) -> int
    decreases s.len() - i,
{
    if 0 <= i < s.len() && is_space(s[i]) {
        spaces_end(s, i + 1)
    } else {
        i
    }
}

/// The first character after `i` that is not a space is `(`.
pub open spec fn opens_call_at(s: Seq<char>, i: int) -> bool {
    let j = spaces_end(s, i);
    0 <= j < s.len() && s[j] == '('
}

/// Reads the rest of a decimal literal that started at `i`, from `j`, with the
/// digits so far making `mant / den`. Gives the value and where it ends; absent
/// where the literal is empty or its digits or places exceed `i64`.
pub open spec fn scan_digits(s: Seq<char>, i: int, j: int, mant: int, den: int, seen: bool) -> Option<(Rational, int)>
    decreases s.len() - j,
{
    if 0 <= j < s.len() && is_digit(s[j]) {
        let d = s[j] as int - '0' as int;
        if mant * 10 + d > i64::MAX || (seen && den * 10 > i64::MAX) {
            None
        } else {
            scan_digits(s, i, j + 1, mant * 10 + d, if seen { den * 10 } else { den }, seen)
        }
    } else if 0 <= j < s.len() && s[j] == '.' && !seen && j > i {
        scan_digits(s, i, j + 1, mant, den, true)
    } else if j == i {
        None
    } else {
        match quotient(Rational { num: mant as i64, den: 1 }, Rational { num: den as i64, den: 1 }) {
            Some(v) => Some((v, j)),
            None => None,
        }
    }
}

pub open spec fn scan_literal(s: Seq<char>, i: int) -> Option<(Rational, int)> {
    scan_digits(s, i, i, 0, 1, false)
}

/// An exponent written directly after a variable as `^` and a literal; 1 if
/// there is none.
pub open spec fn exponent_at(s: Seq<char>, i: int) -> Option<(Rational, int)> {
    if 0 <= i && i + 1 < s.len() && s[i] == '^' && is_digit(s[i + 1]) {
        scan_literal(s, i + 1)
    } else {
        Some((Rational { num: 1, den: 1 }, i))
    }
}

pub open spec fn cons(t: Token, rest: Option<Seq<Token>>) -> Option<Seq<Token>> {
    match rest {
        Some(r) => Some(seq![t] + r),
        None => None,
    }
}

pub open spec fn prepend(done: Seq<Token>, rest: Option<Seq<Token>>) -> Option<Seq<Token>> {
    match rest {
        Some(r) => Some(done + r),
        None => None,
    }
}

/// A monomial token for the variable at `[a, b)`, whose exponent is read at `b`,
/// followed by the tokens after it.
pub open spec fn mono_then(s: Seq<char>, i: int, c: Rational, a: int, b: int) -> Option<Seq<Token>>
    decreases s.len() - i, 0int,
{
    match exponent_at(s, b) {
        Some((e, m)) => if i < m <= s.len() {
            cons(Token::Mono(c, a as usize, b as usize, e), lex_from(s, m))
        } else {
            None
        },
        None => None,
    }
}

/// The tokens of the text from position `i`; absent where the text holds a
/// character outside the language, an unknown name of more than one letter,
/// or a literal that does not fit.
pub open spec fn lex_from(s: Seq<char>, i: int) -> Option<Seq<Token>>
    decreases s.len() - i, 1int,
{
    if i < 0 || i >= s.len() {
        Some(Seq::empty())
    } else {
        let c = s[i];
        if is_space(c) {
            lex_from(s, i + 1)
        } else if is_digit(c) {
            match scan_literal(s, i) {
                None => None,
                Some((v, j)) => {
                    let k = letters_end(s, j);
                    if !(i < j <= s.len()) {
                        None
                    } else if k == j + 1 && !is_constant_name(s.subrange(j, k)) && !opens_call_at(s, k) {
                        mono_then(s, i, v, j, k)
                    } else {
                        cons(Token::Num(v), lex_from(s, j))
                    }
                },
            }
        } else if is_letter(c) {
            let k = letters_end(s, i);
            if !(i < k <= s.len()) {
                None
            } else if opens_call_at(s, k) {
                cons(Token::Func(i as usize, k as usize), lex_from(s, k))
            } else if is_constant_name(s.subrange(i, k)) {
                cons(Token::Name(i as usize, k as usize), lex_from(s, k))
            } else if k == i + 1 {
                mono_then(s, i, Rational { num: 1, den: 1 }, i, k)
            } else {
                None
            }
        } else if is_operator_char(c) {
            cons(Token::Sym(c), lex_from(s, i + 1))
        } else if c == '(' {
            cons(Token::Open, lex_from(s, i + 1))
        } else if c == ')' {
            cons(Token::Close, lex_from(s, i + 1))
        } else if c == ',' {
            cons(Token::Comma, lex_from(s, i + 1))
        } else {
            None
        }
    }
}

pub open spec fn lex(s: Seq<char>) -> Option<Seq<Token>> {
    lex_from(s, 0)
}

/// The tree that a text denotes, if it is well formed.
pub open spec fn parsed(s: Seq<char>) -> Option<Term> {
    match lex(s) {
        Some(ts) => grammar(s, ts),
        None => None,
    }
}

/// The equation that a text with exactly one `=` denotes: each side parsed on
/// its own.
pub open spec fn equation_of(s: Seq<char>) -> Option<Term> {
    let k = first_at(s, '=', s.len() as int);
    if count_char(s, '=') != 1 || k < 0 {
        None
    } else {
        match (parsed(s.subrange(0, k)), parsed(s.subrange(k + 1, s.len() as int))) {
            (Some(a), Some(b)) => Some(bin(a, Op::Equals, b)),
            _ => None,
        }
    }
}

fn digit_char(c: char) -> (r: bool)
    ensures
        r == is_digit(c),
{
    '0' <= c && c <= '9'
}

fn letter_char(c: char) -> (r: bool)
    ensures
        r == is_letter(c),
{
    ('a' <= c && c <= 'z') || ('A' <= c && c <= 'Z')
}

fn space_char(c: char) -> (r: bool)
    ensures
        r == is_space(c),
{
    c == ' ' || c == '\t' || c == '\n' || c == '\r'
}

fn letter_is(c: char, l: char) -> (r: bool)
    ensures
        r == same_letter(c, l),
{
    c == l || (c as u32) + 32 == (l as u32)
}

fn constant_name(s: &str) -> (r: bool)
    ensures
        r == is_constant_name(s@),
{
    let n = s.unicode_len();
    if n == 1 {
        letter_is(s.get_char(0), 'e')
    } else if n == 2 {
        letter_is(s.get_char(0), 'p') && letter_is(s.get_char(1), 'i')
    } else if n == 3 {
        let a = s.get_char(0);
        let b = s.get_char(1);
        let c = s.get_char(2);
        (letter_is(a, 't') && letter_is(b, 'a') && letter_is(c, 'u')) || (letter_is(a, 'p')
            && letter_is(b, 'h') && letter_is(c, 'i'))
    } else {
        false
    }
}

fn scan_number(s: &str, n: usize, i: usize) -> (r: Option<(Rational, usize)>)
    requires
        n == s@.len(),
        i < n,
    ensures
        r matches Some(p) ==> scan_literal(s@, i as int) == Some((p.0, p.1 as int)) && i < p.1 <= n,
        r is None ==> scan_literal(s@, i as int) is None,
{
    let mut mant: i64 = 0;
    let mut den: i64 = 1;
    let mut j = i;
    let mut seen = false;
    while j < n && (digit_char(s.get_char(j)) || (s.get_char(j) == '.' && !seen && j > i))
        invariant
            n == s@.len(),
            i <= j <= n,
            0 <= mant,
            1 <= den,
            j == i ==> !seen,
            scan_digits(s@, i as int, j as int, mant as int, den as int, seen) == scan_literal(s@, i as int),
        decreases n - j,
    {
        let c = s.get_char(j);
        if digit_char(c) {
            let d = (c as u32 - '0' as u32) as i128;
            assert(d == s@[j as int] as int - '0' as int);
            let m2: i128 = (mant as i128) * 10 + d;
            if m2 > i64::MAX as i128 || (seen && (den as i128) * 10 > i64::MAX as i128) {
                return None;
            }
            mant = m2 as i64;
            if seen {
                den = den * 10;
            }
        } else {
            seen = true;
        }
        j = j + 1;
    }
    if j == i {
        return None;
    }
    let a = Rational::from_int(mant);
    let b = Rational::from_int(den);
    assert(a == Rational { num: mant, den: 1 });
    assert(b == Rational { num: den, den: 1 });
    match a.div(&b) {
        Some(v) => Some((v, j)),
        None => None,
    }
}

fn scan_letters(s: &str, n: usize, i: usize) -> (r: usize)
    requires
        n == s@.len(),
        i <= n,
    ensures
        r as int == letters_end(s@, i as int),
        i <= r <= n,
        i < n && is_letter(s@[i as int]) ==> r > i,
{
    let mut j = i;
    while j < n && letter_char(s.get_char(j))
        invariant
            n == s@.len(),
            i <= j <= n,
            letters_end(s@, j as int) == letters_end(s@, i as int),
        decreases n - j,
    {
        j = j + 1;
    }
    j
}

fn opens_call(s: &str, n: usize, i: usize) -> (r: bool)
    requires
        n == s@.len(),
        i <= n,
    ensures
        r == opens_call_at(s@, i as int),
{
    let mut j = i;
    while j < n && space_char(s.get_char(j))
        invariant
            n == s@.len(),
            i <= j <= n,
            spaces_end(s@, j as int) == spaces_end(s@, i as int),
        decreases n - j,
    {
        j = j + 1;
    }
    j < n && s.get_char(j) == '('
}

fn scan_exponent(s: &str, n: usize, i: usize) -> (r: Option<(Rational, usize)>)
    requires
        n == s@.len(),
        i <= n,
    ensures
        r matches Some(p) ==> exponent_at(s@, i as int) == Some((p.0, p.1 as int)) && i <= p.1 <= n,
        r is None ==> exponent_at(s@, i as int) is None,
{
    if n - i > 1 && s.get_char(i) == '^' && digit_char(s.get_char(i + 1)) {
        scan_number(s, n, i + 1)
    } else {
        Some((Rational { num: 1, den: 1 }, i))
    }
}

proof fn lemma_prepend_cons(done: Seq<Token>, t: Token, rest: Option<Seq<Token>>)
    ensures
        prepend(done, cons(t, rest)) == prepend(done.push(t), rest),
{
    if let Some(r) = rest {
        assert(done + (seq![t] + r) =~= done.push(t) + r);
    }
}

/// The error for a character outside the language at `i`.
fn bad_char(s: &str, n: usize, i: usize, after_operand: bool) -> (r: ParserError)
    requires
        n == s@.len(),
        i < n,
    ensures
        r is InvalidToken || r is InvalidOperator,
{
    let text = s.substring_char(i, i + 1).to_owned();
    if after_operand {
        ParserError::InvalidOperator(text)
    } else {
        ParserError::InvalidToken(text)
    }
}

/// Splits a text into tokens.
pub fn tokenize(s: &str) -> (r: Result<Vec<Token>, ParserError>)
    ensures
        r matches Ok(ts) ==> lex(s@) == Some(ts@),
        r is Err <==> lex(s@) is None,
        r matches Err(x) ==> !(x is NoEquals) && !(x is EqualsCount),
{
    let n = s.unicode_len();
    let mut out: Vec<Token> = Vec::new();
    let mut i: usize = 0;
    while i < n
        invariant
            n == s@.len(),
            i <= n,
            lex(s@) == prepend(out@, lex_from(s@, i as int)),
        decreases n - i,
    {
        let c = s.get_char(i);
        let ghost before = out@;
        if space_char(c) {
            i = i + 1;
        } else if digit_char(c) {
            let (value, j) = match scan_number(s, n, i) {
                Some(p) => p,
                None => return Err(ParserError::InvalidToken(s.substring_char(i, i + 1).to_owned())),
            };
            let k = scan_letters(s, n, j);
            if k > j && k - j == 1 && !constant_name(s.substring_char(j, k)) && !opens_call(s, n, k) {
                let (exponent, m) = match scan_exponent(s, n, k) {
                    Some(p) => p,
                    None => {
                        assert(lex_from(s@, i as int) == mono_then(s@, i as int, value, j as int, k as int));
                        return Err(ParserError::InvalidToken(s.substring_char(j, k).to_owned()));
                    },
                };
                proof {
                    assert(lex_from(s@, i as int) == mono_then(s@, i as int, value, j as int, k as int));
                    lemma_prepend_cons(out@, Token::Mono(value, j, k, exponent), lex_from(s@, m as int));
                }
                out.push(Token::Mono(value, j, k, exponent));
                i = m;
            } else {
                proof {
                    lemma_prepend_cons(out@, Token::Num(value), lex_from(s@, j as int));
                }
                out.push(Token::Num(value));
                i = j;
            }
        } else if letter_char(c) {
            let k = scan_letters(s, n, i);
            let name = s.substring_char(i, k);
            if opens_call(s, n, k) {
                proof {
                    lemma_prepend_cons(out@, Token::Func(i, k), lex_from(s@, k as int));
                }
                out.push(Token::Func(i, k));
                i = k;
            } else if constant_name(name) {
                proof {
                    lemma_prepend_cons(out@, Token::Name(i, k), lex_from(s@, k as int));
                }
                out.push(Token::Name(i, k));
                i = k;
            } else if k - i == 1 {
                let (exponent, m) = match scan_exponent(s, n, k) {
                    Some(p) => p,
                    None => {
                        assert(lex_from(s@, i as int) == mono_then(s@, i as int, Rational { num: 1, den: 1 }, i as int, k as int));
                        return Err(ParserError::InvalidToken(name.to_owned()));
                    },
                };
                let one = Rational { num: 1, den: 1 };
                proof {
                    assert(lex_from(s@, i as int) == mono_then(s@, i as int, one, i as int, k as int));
                    lemma_prepend_cons(out@, Token::Mono(one, i, k, exponent), lex_from(s@, m as int));
                }
                out.push(Token::Mono(one, i, k, exponent));
                i = m;
            } else {
                return Err(ParserError::UnknownConstant(name.to_owned()));
            }
        } else if c == '+' || c == '-' || c == '*' || c == '/' || c == '%' || c == '^' || c == '=' {
            proof {
                lemma_prepend_cons(out@, Token::Sym(c), lex_from(s@, i + 1));
            }
            out.push(Token::Sym(c));
            i = i + 1;
        } else if c == '(' || c == ')' || c == ',' {
            let t = if c == '(' {
                Token::Open
            } else if c == ')' {
                Token::Close
            } else {
                Token::Comma
            };
            proof {
                lemma_prepend_cons(out@, t, lex_from(s@, i + 1));
            }
            out.push(t);
            i = i + 1;
        } else {
            let after_operand = out.len() > 0 && token_ends_operand(&out[out.len() - 1]);
            return Err(bad_char(s, n, i, after_operand));
        }
    }
    proof {
        assert(out@ + Seq::<Token>::empty() =~= out@);
    }
    Ok(out)
}

/// Builds the tree of the tokens of a text.
pub fn parse_tokens(s: &str, ts: &Vec<Token>) -> (r: Result<Expr, ParserError>)
    ensures
        r matches Ok(e) ==> grammar(s@, ts@) == Some(e@),
        r is Err <==> grammar(s@, ts@) is None,
        r matches Err(x) ==> x is InvalidToken,
{
    proof {
        assert(ts@.subrange(0, ts@.len() as int) =~= ts@);
    }
    let n = s.unicode_len();
    match parse_range(s, n, ts, 0, ts.len()) {
        Some(e) => Ok(e),
        None => Err(ParserError::InvalidToken(s.to_owned())),
    }
}

/// Parses an expression.
pub fn parse(s: &str) -> (r: Result<Expr, ParserError>)
    ensures
        r matches Ok(e) ==> parsed(s@) == Some(e@),
        r is Err <==> parsed(s@) is None,
        r matches Err(x) ==> !(x is NoEquals) && !(x is EqualsCount),
{
    let ts = tokenize(s)?;
    parse_tokens(s, &ts)
}

/// Parses an equation: exactly one `=`, with an expression on each side, each
/// side parsed on its own.
pub fn parse_equation(s: &str) -> (r: Result<Expr, ParserError>)
    ensures
        count_char(s@, '=') == 0 <==> r matches Err(ParserError::NoEquals),
        count_char(s@, '=') > 1 <==> r matches Err(ParserError::EqualsCount),
        count_char(s@, '=') == 1 ==> (r is Ok <==> equation_of(s@) is Some),
        r matches Ok(e) ==> equation_of(s@) == Some(e@),
{
    let n = s.unicode_len();
    let mut count: usize = 0;
    let mut at: usize = 0;
    let mut i: usize = 0;
    while i < n
        invariant
            n == s@.len(),
            i <= n,
            count == count_char(s@.subrange(0, i as int), '='),
            count <= i,
            count == 0 ==> first_at(s@, '=', i as int) == -1,
            count >= 1 ==> at < i && first_at(s@, '=', i as int) == at as int,
        decreases n - i,
    {
        let ghost prev = s@.subrange(0, i as int);
        assert(s@.subrange(0, i + 1).drop_last() =~= prev);
        if s.get_char(i) == '=' {
            if count == 0 {
                at = i;
            }
            count = count + 1;
        }
        i = i + 1;
    }
    assert(s@.subrange(0, n as int) =~= s@);
    if count == 0 {
        return Err(ParserError::NoEquals);
    }
    if count > 1 {
        return Err(ParserError::EqualsCount);
    }
    let lhs = parse(s.substring_char(0, at))?;
    let rhs = parse(s.substring_char(at + 1, n))?;
    Ok(Expr::BinOp { lhs: Box::new(lhs), op: Op::Equals, rhs: Box::new(rhs) })
}

} // verus!
