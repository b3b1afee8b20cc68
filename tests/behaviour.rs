use sedenion_engine::error::{EvaluatorError, ParserError, RewriteError};
use sedenion_engine::evaluator::{builtin_of, check_evaluable, Builtin};
use sedenion_engine::expr::{Expr, Op};
use sedenion_engine::number::Decimal;
use sedenion_engine::parser::{parse, parse_equation};

fn simplified(expression: &str) -> String {
    parse(expression)
        .unwrap()
        .optimize_expression(String::new())
        .unwrap()
        .to_string()
}

fn number(text: &str) -> Decimal {
    match parse(text).unwrap() {
        Expr::Number(d) => d,
        other => panic!("not a number: {:?}", other),
    }
}

#[test]
fn monomials_combine_to_a_fixpoint() {
    assert_eq!("8X^(8)", simplified("2X^8+6X^8"));
}

#[test]
fn negative_power_becomes_a_reciprocal() {
    assert_eq!("(1/(3213*2))", simplified("(3213*2)^(-1)"));
}

#[test]
fn equation_scenarios() {
    let solve = |text: &str, target: &str| {
        parse_equation(text)
            .unwrap()
            .optimize_equation(target.to_string())
            .unwrap()
            .to_string()
    };
    assert_eq!("(1X^(2)=2X^(1))", solve("X*X=X+X", "X"));
    assert_eq!("(1Y^(1)=0)", solve("X+Y=X", "Y"));
    assert_eq!("(1Y^(1)=4X^(1))", solve("-(3X)-4Y=5X-6Y", "Y"));
}

#[test]
fn unary_minus_binds_tighter_than_subtraction() {
    assert_eq!("(3-7)", parse("3-7").unwrap().to_string());
    assert_eq!("(-(3)--(7))", parse("-3--7").unwrap().to_string());
}

#[test]
fn power_is_right_associative() {
    assert_eq!("(3^(2^4))", parse("3^2^4").unwrap().to_string());
}

#[test]
fn printed_form_parses_back_to_the_same_tree() {
    for text in [
        "3+4*2/(1-5)^2^3",
        "sin(max(2, 3) / 3 * 3.1415)",
        "-3^-2",
        "3X^2",
        "B",
        "7 + max(2, min(47.94, trunc(22.54)))",
        "0.05%2",
    ] {
        let first = parse(text).unwrap();
        let again = parse(&first.to_string()).unwrap();
        assert!(first.same(&again), "{}", text);
    }
}

#[test]
fn simplifying_twice_changes_nothing() {
    for text in ["2X^8+6X^8", "(53*88*(52-52))^(-(125/125))", "3^5*3^10", "X+X", "2X-5X"] {
        let once = parse(text).unwrap().optimize_expression(String::new()).unwrap();
        let twice = once.copy().optimize_expression(String::new()).unwrap();
        assert!(once.same(&twice), "{}", text);
    }
}

#[test]
fn equation_needs_exactly_one_equals_sign() {
    assert_eq!(Err(ParserError::NoEquals), parse_equation("X+1").map(|e| e.to_string()));
    assert_eq!(Err(ParserError::EqualsCount), parse_equation("a=b=c").map(|e| e.to_string()));
}

#[test]
fn malformed_text_is_rejected() {
    assert_eq!(
        Err(ParserError::InvalidToken(String::new())),
        parse("2+").map(|e| e.to_string())
    );
    assert_eq!(
        Err(ParserError::InvalidOperator("&".to_string())),
        parse("2&3").map(|e| e.to_string())
    );
    assert_eq!(
        Err(ParserError::InvalidToken(")".to_string())),
        parse("(2+3))").map(|e| e.to_string())
    );
    assert_eq!(
        Err(ParserError::InvalidToken(String::new())),
        parse("(2+3").map(|e| e.to_string())
    );
    assert!(matches!(parse("1234567890123456789"), Err(ParserError::InvalidToken(_))));
}

#[test]
fn decimals_print_without_trailing_zeros() {
    assert_eq!("3.2", parse("3.20").unwrap().to_string());
    assert_eq!("0.05", parse("0.050").unwrap().to_string());
    assert_eq!("7", parse("7.000").unwrap().to_string());
}

#[test]
fn decimal_arithmetic_is_exact() {
    let a = number("1.5");
    let b = number("2.25");
    assert_eq!("3.75", a.checked_add(&b).unwrap().text());
    assert_eq!("-0.75", a.checked_sub(&b).unwrap().text());
    assert_eq!("3.375", a.checked_mul(&b).unwrap().text());
    assert_eq!("0.125", number("1").checked_div(&number("8")).unwrap().text());
    assert!(number("1").checked_div(&number("3")).is_none());
    assert!(number("1").checked_div(&number("0")).is_none());
    assert_eq!(Decimal::from_int(-42).text(), "-42");
    assert_eq!(number("47.94").mantissa(), 4794);
    assert_eq!(number("47.94").scale(), 2);
}

#[test]
fn monomial_divided_by_a_number() {
    assert_eq!("1.5X^(1)", simplified("6X/4"));
    assert_eq!("(1X^(1)/3)", simplified("X/3"));
}

#[test]
fn negative_coefficient_moves_out() {
    assert_eq!("-(3X^(1))", simplified("2X-5X"));
}

#[test]
fn monomial_product_and_power_rules() {
    assert_eq!("12X^(10)", simplified("2X^8*6X^2"));
    assert_eq!("1", simplified("X^0"));
    assert_eq!("0", simplified("0X"));
    assert_eq!("(2*(1+2))", simplified("(1+2)+(1+2)"));
    assert_eq!("((1+2)^2)", simplified("(1+2)*(1+2)"));
}

#[test]
fn hoisting_moves_the_target_out() {
    let e = parse_equation("Y-X+X=X")
        .unwrap()
        .optimize_equation("Y".to_string())
        .unwrap();
    assert_eq!("(1Y^(1)=1X^(1))", e.to_string());
}

#[test]
fn precedence_levels() {
    assert_eq!(Op::Add.get_precedence(), Some(1));
    assert_eq!(Op::Subtract.get_precedence(), Some(1));
    assert_eq!(Op::Multiply.get_precedence(), Some(2));
    assert_eq!(Op::Divide.get_precedence(), Some(2));
    assert_eq!(Op::Modulo.get_precedence(), Some(2));
    assert_eq!(Op::Power.get_precedence(), Some(3));
    assert_eq!(Op::Equals.get_precedence(), None);
}

#[test]
fn binary_operation_parts() {
    let (l, op, r) = parse("1+2").unwrap().get_bin_op().unwrap();
    assert_eq!(op, Op::Add);
    assert_eq!("1", l.to_string());
    assert_eq!("2", r.to_string());
    assert!(parse("7").unwrap().get_bin_op().is_none());
}

#[test]
fn evaluation_faults() {
    assert_eq!(Ok(()), check_evaluable(&parse("7 + max(2, min(47.94, trunc(22.54)))").unwrap()));
    assert_eq!(Err(EvaluatorError::EqualityInEval), check_evaluable(&parse("1+1=2").unwrap()));
    assert_eq!(
        Err(EvaluatorError::UnknownFunction("foo".to_string())),
        check_evaluable(&parse("foo(1)").unwrap())
    );
    assert_eq!(
        Err(EvaluatorError::UnknownFunction("max".to_string())),
        check_evaluable(&parse("max(1)").unwrap())
    );
    assert_eq!(
        Err(EvaluatorError::VariableInEval("X".to_string())),
        check_evaluable(&parse("1+2X").unwrap())
    );
}

#[test]
fn builtin_table() {
    assert_eq!(Some(Builtin::Sin), builtin_of(&"sin".to_string()));
    assert_eq!(Some(Builtin::Max), builtin_of(&"max".to_string()));
    assert_eq!(None, builtin_of(&"sine".to_string()));
    assert_eq!(2, Builtin::Pow.arity());
    assert_eq!(1, Builtin::Sqrt.arity());
}

#[test]
fn parenthesized_exponent_belongs_to_the_monomial() {
    assert_eq!("1X^(2)", parse("X^(2)").unwrap().to_string());
    assert_eq!("(1X^(1)^(2+1))", parse("X^(2+1)").unwrap().to_string());
}

#[test]
fn negation_distributes_only_when_solving() {
    let tree = parse("-(1+2)").unwrap();
    assert_eq!("-((1+2))", tree.optimize_node(String::new()).to_string());
    assert_eq!("-((1+2))", tree.optimize_node("X".to_string()).to_string());
    let solved = parse_equation("X=-(1+2)")
        .unwrap()
        .optimize_equation("X".to_string())
        .unwrap();
    assert_eq!("(1X^(1)=(-(1)-2))", solved.to_string());
    assert_eq!("0", parse("-0").unwrap().optimize_node(String::new()).to_string());
}

#[test]
fn division_by_zero_is_left_alone() {
    assert_eq!("(2X^(1)/0)", simplified("2X/0"));
    assert_eq!("(1/0)", simplified("(53*88*(52-52))^(-(125/125))"));
}

#[test]
fn modulo_is_kept() {
    assert_eq!("(3%2)", simplified("3%2"));
}

#[test]
fn equation_side_errors_come_through() {
    assert_eq!(
        Err(ParserError::InvalidToken(String::new())),
        parse_equation("1+=2").map(|e| e.to_string())
    );
}

#[test]
fn a_single_equals_in_parse_gives_an_equation_root() {
    assert_eq!("((1+1)=(4-2))", parse("1+1=4-2").unwrap().to_string());
}

#[test]
fn a_target_monomial_is_not_hoisted_back_and_forth() {
    let once = parse("3+Y-Y^2").unwrap().optimize_expression("Y".to_string()).unwrap();
    assert_eq!("((3+1Y^(1))-1Y^(2))", once.to_string());
    let again = once.copy().optimize_expression("Y".to_string()).unwrap();
    assert!(once.same(&again));
    assert!(once.same(&once.optimize_node("Y".to_string())));
}

#[test]
fn an_equation_without_a_fixpoint_is_reported() {
    let result = parse_equation("0=3+Y-Y^2")
        .unwrap()
        .optimize_equation("Y".to_string())
        .map(|e| e.to_string());
    assert_eq!(Err(RewriteError::NoFixpoint), result);
}

#[test]
fn several_equals_signs_are_counted() {
    assert_eq!(Err(ParserError::EqualsCount), parse("a=b=c").map(|e| e.to_string()));
    assert_eq!(Err(ParserError::EqualsCount), parse("1=2=3=4").map(|e| e.to_string()));
}

#[test]
fn call_arguments_are_simplified() {
    assert_eq!("max(2, 3)", simplified("max(0+2, 3*1)"));
}
