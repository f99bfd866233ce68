use algebra::error::{EvaluatorError, OptimizerError, ParserError};
use algebra::expr::{Expr, Op};
use algebra::parser::{parse, parse_equation};
use algebra::rational::Rational;
use algebra::{optimize, optimize_equation};

fn simplified(text: &str) -> String {
    parse(text)
        .unwrap()
        .optimize_expression(String::new())
        .unwrap()
        .to_string()
}

fn number(num: i64, den: i64) -> Expr {
    Expr::Number(Rational { num, den })
}

#[test]
fn simplifying_twice_changes_nothing() {
    for text in ["2*(2x^3+3)", "(3213*2)^(-1)", "x*x+x*x", "(1.5+1.5)/2*x"] {
        let once = parse(text).unwrap().optimize_expression(String::new()).unwrap();
        let again = once.copy().optimize_expression(String::new()).unwrap();
        assert!(once.same(&again));
        assert_eq!(once.to_string(), again.to_string());
    }
}

#[test]
fn node_pass_on_simplified_tree_keeps_it() {
    let once = parse("2*(2x^3+3)").unwrap().optimize_expression(String::new()).unwrap();
    assert_eq!("(4x^(3)+6)", once.optimize_node(String::new()).to_string());
}

#[test]
fn equation_without_equals_is_rejected() {
    assert!(matches!(parse_equation("x+1"), Err(ParserError::NoEquals)));
}

#[test]
fn equation_with_two_equals_is_rejected() {
    assert!(matches!(parse_equation("x=1=2"), Err(ParserError::EqualsCount)));
}

#[test]
fn folding_an_equation_is_an_error() {
    let e = parse("x=1").unwrap();
    assert!(matches!(e.merge_numbers(), Err(EvaluatorError::EqualityInEval)));
    let e = parse("x=1").unwrap();
    assert!(matches!(e.optimize_expression(String::new()), Err(OptimizerError::EqualityInTerm)));
}

#[test]
fn solving_needs_an_equation() {
    let e = parse("x+1").unwrap();
    assert!(matches!(e.optimize_equation("x".to_string()), Err(OptimizerError::NotAnEquation)));
}

#[test]
fn parse_errors() {
    assert!(matches!(parse("2$3"), Err(ParserError::InvalidOperator(t)) if t == "$"));
    assert!(matches!(parse("$"), Err(ParserError::InvalidToken(t)) if t == "$"));
    assert!(matches!(parse("foo+1"), Err(ParserError::UnknownConstant(t)) if t == "foo"));
    assert!(matches!(parse("2+"), Err(ParserError::InvalidToken(_))));
    assert!(matches!(parse("(1"), Err(ParserError::InvalidToken(_))));
}

#[test]
fn parses_precedence_and_signs() {
    assert_eq!("(2+(4*3))", parse("2+4*3").unwrap().to_string());
    assert_eq!("(3^(2^4))", parse("3^2^4").unwrap().to_string());
    assert_eq!("((3-7)-4)", parse("3-7-4").unwrap().to_string());
    assert_eq!("(-(4)^-(2))", parse("-4^-2").unwrap().to_string());
    assert_eq!("(-(3)--(7))", parse("-3--7").unwrap().to_string());
    assert_eq!("6x^(8)", parse("6x^8").unwrap().to_string());
    assert_eq!("(1x^(1)=1)", parse("x=1").unwrap().to_string());
}

#[test]
fn parses_constants_and_functions() {
    assert_eq!("PI", parse("PI").unwrap().to_string());
    assert_eq!("(2*tau)", parse("2*tau").unwrap().to_string());
    assert_eq!("max(1, (2+3))", parse("max(1, 2+3)").unwrap().to_string());
    assert_eq!("f()", parse("f()").unwrap().to_string());
    assert_eq!("3.2", parse("3.2").unwrap().to_string());
}

#[test]
fn number_text() {
    assert_eq!("1.5", number(3, 2).to_string());
    assert_eq!("-0.25", number(-1, 4).to_string());
    assert_eq!("0.125", number(1, 8).to_string());
    assert_eq!("0.05", number(1, 20).to_string());
    assert_eq!("1/3", number(1, 3).to_string());
    assert_eq!("-42", number(-42, 1).to_string());
}

#[test]
fn rational_arithmetic() {
    let half = Rational { num: 1, den: 2 };
    let third = Rational { num: 1, den: 3 };
    assert_eq!(Some(Rational { num: 5, den: 6 }), half.add(&third));
    assert_eq!(Some(Rational { num: 1, den: 6 }), half.sub(&third));
    assert_eq!(Some(Rational { num: 3, den: 2 }), half.div(&third));
    let seven = Rational { num: 7, den: 1 };
    let minus_seven = Rational { num: -7, den: 1 };
    let two = Rational { num: 2, den: 1 };
    let minus_two = Rational { num: -2, den: 1 };
    assert_eq!(Some(Rational { num: 1, den: 1 }), seven.rem(&minus_two));
    assert_eq!(Some(Rational { num: -1, den: 1 }), minus_seven.rem(&two));
    assert_eq!(Some(Rational { num: 1, den: 4 }), two.pow(&minus_two));
    assert_eq!(None, Rational { num: 0, den: 1 }.pow(&minus_two));
    assert_eq!(None, two.div(&Rational { num: 0, den: 1 }));
    assert_eq!(None, two.pow(&half));
    assert_eq!(Some(Rational { num: 2, den: 1 }), Rational { num: 4, den: 1 }.pow(&half));
    assert_eq!(Some(Rational { num: 1, den: 2 }), Rational { num: 1, den: 4 }.pow(&half));
    assert_eq!(Some(Rational { num: 8, den: 1 }), Rational { num: 4, den: 1 }.pow(&Rational { num: 3, den: 2 }));
    assert_eq!(None, Rational { num: i64::MAX, den: 1 }.add(&two));
}

#[test]
fn folding_keeps_fractions() {
    assert_eq!("3", parse("1.5+1.5").unwrap().merge_numbers().unwrap().to_string());
    assert_eq!("(1/0)", parse("1/0").unwrap().merge_numbers().unwrap().to_string());
    assert_eq!("(7/2)", parse("7/2").unwrap().merge_numbers().unwrap().to_string());
    assert_eq!("1", parse("7%3").unwrap().merge_numbers().unwrap().to_string());
    assert_eq!("43046721", parse("3^2^4").unwrap().merge_numbers().unwrap().to_string());
    assert_eq!("-(5)", parse("-(2+3)").unwrap().merge_numbers().unwrap().to_string());
    assert_eq!("2", parse("4^0.5").unwrap().merge_numbers().unwrap().to_string());
    assert_eq!("(0.25^0.5)", parse("0.25^0.5").unwrap().merge_numbers().unwrap().to_string());
    assert_eq!("(2^0.5)", parse("2^0.5").unwrap().merge_numbers().unwrap().to_string());
}

#[test]
fn monomial_sign_and_collapse() {
    let m = Expr::Monomial {
        coefficient: Rational { num: -3, den: 1 },
        variable: "x".to_string(),
        exponent: Rational { num: 2, den: 1 },
    };
    assert_eq!("-(3x^(2))", m.optimize_node(String::new()).to_string());
    assert_eq!("0", simplified("0x"));
    assert_eq!("1", simplified("x^0"));
    assert_eq!("0.5x^(1)", simplified("x/2"));
    assert_eq!("6x^(1)", simplified("2*3x"));
}

#[test]
fn typeset_output() {
    assert_eq!(Ok("8x^{8}".to_string()), optimize("2x^8+6x^8"));
    assert_eq!(Ok("\\frac{1}{3}".to_string()), optimize("3^(-1)"));
    assert_eq!(Ok("645".to_string()), optimize("0+645"));
    assert_eq!(Ok("2\\cdotPI".to_string()), optimize("2*PI"));
    assert_eq!(Ok("^{y}".to_string()), optimize("2^y"));
    assert_eq!(Ok("x^{2}=2x".to_string()), optimize_equation("x*x=x+x", "x"));
    assert_eq!(Ok("y=0".to_string()), optimize_equation("x+y=x", "y"));
    assert!(optimize_equation("x+1", "x").is_err());
    assert!(optimize("2+").is_err());
}

#[test]
fn solve_scenarios() {
    let solve = |t: &str, v: &str| {
        parse_equation(t).unwrap().optimize_equation(v.to_string()).unwrap().to_string()
    };
    assert_eq!("(1y^(1)=4x^(1))", solve("-(3x)-4y=5x-6y", "y"));
    assert_eq!("(1x^(1)=2)", solve("2x=4", "x"));
    assert_eq!("(1x^(1)=2)", solve("x+3=5", "x"));
}

#[test]
fn get_bin_op_and_precedence() {
    let e = parse("1+2").unwrap();
    let (l, op, r) = e.get_bin_op().unwrap();
    assert_eq!(Op::Add, op);
    assert_eq!("1", l.to_string());
    assert_eq!("2", r.to_string());
    assert!(parse("x").unwrap().get_bin_op().is_none());
    assert_eq!(Some(1), Op::Subtract.get_precedence());
    assert_eq!(Some(2), Op::Modulo.get_precedence());
    assert_eq!(Some(3), Op::Power.get_precedence());
    assert_eq!(None, Op::Equals.get_precedence());
}

#[test]
fn outline_lists_nodes() {
    let e = parse("-(2x^3)+max(1, PI)").unwrap();
    let expected = "BinOp: Add\n  UnaryMinus\n    Monomial: 2 x^3\n  Function: max\n    Number: 1\n    Constant: PI\n";
    assert_eq!(expected, e.outline(0));
    assert_eq!("  Number: 1.5\n", number(3, 2).outline(2));
}

#[test]
fn operator_symbols() {
    assert_eq!("+", Op::Add.to_string());
    assert_eq!("%", Op::Modulo.to_string());
    assert_eq!("=", Op::Equals.to_string());
}

#[test]
fn hoisting_keeps_the_value() {
    let hoisted = parse("(x+1)-y").unwrap().optimize_expression("x".to_string()).unwrap();
    assert_eq!("((-(1y^(1))+1)+1x^(1))", hoisted.to_string());
    let quotient = parse("(x*b)/y").unwrap().optimize_expression("x".to_string()).unwrap();
    assert_eq!("((1x^(1)*1b^(1))/1y^(1))", quotient.to_string());
}

#[test]
fn equation_texts_give_messages() {
    assert_eq!(Err("Syntax error: no equals sign found '='".to_string()), optimize_equation("x+1", "x"));
    assert_eq!(Err("Syntax error: too many equals signs".to_string()), optimize_equation("x=1=2", "x"));
}
