use calculator::eval::{evaluate, evaluate_expression, precedence};
use calculator::number::{format_ratio, parse_number};
use calculator::ratio::{apply_operator, CalcError, Ratio};

#[test]
fn unary_minus_at_start() {
    assert_eq!(evaluate("-5+3"), "-2.0000");
}

#[test]
fn unary_minus_after_operator() {
    assert_eq!(evaluate("3*-2"), "-6.0000");
}

#[test]
fn unary_minus_after_open_paren() {
    assert_eq!(evaluate("2*(-3+1)"), "-4.0000");
}

#[test]
fn division_by_zero_is_invalid() {
    assert_eq!(evaluate("5/0"), "Invalid input");
    assert_eq!(evaluate_expression("5/0"), Err(CalcError::DivisionByZero));
}

#[test]
fn division_by_zero_inside_expression() {
    assert_eq!(evaluate("1+2/(3-3)*4"), "Invalid input");
    assert_eq!(evaluate("2*3/0"), "Invalid input");
}

#[test]
fn result_reevaluates_to_itself() {
    let first = evaluate("2+2");
    assert_eq!(first, "4.0000");
    assert_eq!(evaluate(&first), "4.0000");
    let neg = evaluate("1/3-5");
    assert_eq!(neg, "-4.6667");
    assert_eq!(evaluate(&neg), neg);
}

#[test]
fn precedence_of_product() {
    assert_eq!(evaluate("2+3*4"), "14.0000");
}

#[test]
fn parentheses_override_precedence() {
    assert_eq!(evaluate("(2+3)*4"), "20.0000");
}

#[test]
fn nested_parentheses() {
    assert_eq!(evaluate("((1+2)*(3+4))/7"), "3.0000");
    assert_eq!(evaluate("2*(3*(4-1))"), "18.0000");
}

#[test]
fn division_is_left_associative() {
    assert_eq!(evaluate("10/2/5"), "1.0000");
}

#[test]
fn subtraction_is_left_associative() {
    assert_eq!(evaluate("10-3-2"), "5.0000");
}

#[test]
fn empty_input_is_invalid() {
    assert_eq!(evaluate(""), "Invalid input");
    assert_eq!(evaluate_expression(""), Err(CalcError::Unbalanced));
}

#[test]
fn flat_expression_follows_precedence() {
    assert_eq!(evaluate("1+2*3-4/8"), "6.5000");
    assert_eq!(evaluate("7-2*3*2+1"), "-4.0000");
}

#[test]
fn decimals_and_rounding() {
    assert_eq!(evaluate("2/3"), "0.6667");
    assert_eq!(evaluate("0.1+0.2"), "0.3000");
    assert_eq!(evaluate("1.23456"), "1.2346");
    assert_eq!(evaluate("0.00005"), "0.0001");
    assert_eq!(evaluate("-0.00001"), "0.0000");
    assert_eq!(evaluate(".5*4"), "2.0000");
    assert_eq!(evaluate("5."), "5.0000");
}

#[test]
fn two_points_are_malformed() {
    assert_eq!(evaluate("1.2.3+1"), "Invalid input");
    assert_eq!(evaluate_expression("1.2.3"), Err(CalcError::MalformedNumber));
}

#[test]
fn lone_sign_is_malformed() {
    assert_eq!(evaluate_expression("-"), Err(CalcError::MalformedNumber));
    assert_eq!(evaluate_expression("--5"), Err(CalcError::MalformedNumber));
}

#[test]
fn missing_operand_is_unbalanced() {
    assert_eq!(evaluate_expression("2+"), Err(CalcError::Unbalanced));
    assert_eq!(evaluate_expression("2(3)"), Err(CalcError::Unbalanced));
    assert_eq!(evaluate("*"), "Invalid input");
}

#[test]
fn unclosed_paren_is_invalid_operator() {
    assert_eq!(evaluate_expression("2*(3"), Err(CalcError::InvalidOperator));
}

#[test]
fn unmatched_close_paren_is_tolerated() {
    assert_eq!(evaluate("2+3)*4"), "20.0000");
}

#[test]
fn foreign_symbol_is_invalid_operator() {
    assert_eq!(evaluate_expression("2x3"), Err(CalcError::InvalidOperator));
}

#[test]
fn too_large_number_overflows() {
    assert_eq!(
        evaluate_expression("99999999999999999999"),
        Err(CalcError::Overflow)
    );
    assert_eq!(
        evaluate_expression("9999999999*9999999999"),
        Err(CalcError::Overflow)
    );
    assert_eq!(evaluate("999999999*999999999"), "999999998000000001.0000");
    assert_eq!(
        evaluate_expression("9000000000000000000/7"),
        Err(CalcError::Overflow)
    );
}

#[test]
fn exact_value_of_expression() {
    assert_eq!(evaluate_expression("1/4+1/4"), Ok(Ratio { num: 1, den: 2 }));
    assert_eq!(evaluate_expression("6/-4"), Ok(Ratio { num: -3, den: 2 }));
    assert_eq!(evaluate_expression("0.3"), Ok(Ratio { num: 3, den: 10 }));
    assert_eq!(evaluate_expression("0.30*1"), Ok(Ratio { num: 3, den: 10 }));
}

#[test]
fn precedence_table() {
    assert_eq!(precedence('+'), 1);
    assert_eq!(precedence('-'), 1);
    assert_eq!(precedence('*'), 2);
    assert_eq!(precedence('/'), 2);
    assert_eq!(precedence('('), 0);
}

#[test]
fn operator_application() {
    let a = Ratio { num: 1, den: 2 };
    let b = Ratio { num: 1, den: 3 };
    assert_eq!(apply_operator(a, b, '+'), Ok(Ratio { num: 5, den: 6 }));
    assert_eq!(apply_operator(a, b, '-'), Ok(Ratio { num: 1, den: 6 }));
    assert_eq!(apply_operator(a, b, '*'), Ok(Ratio { num: 1, den: 6 }));
    assert_eq!(apply_operator(a, b, '/'), Ok(Ratio { num: 3, den: 2 }));
    assert_eq!(apply_operator(a, a, '+'), Ok(Ratio { num: 1, den: 1 }));
    assert_eq!(apply_operator(a, Ratio { num: -2, den: 4 }, '/'), Ok(Ratio { num: -1, den: 1 }));
    let z = Ratio { num: 0, den: 1 };
    assert_eq!(apply_operator(a, z, '/'), Err(CalcError::DivisionByZero));
    assert_eq!(apply_operator(a, b, '('), Err(CalcError::InvalidOperator));
}

#[test]
fn number_literals() {
    assert_eq!(parse_number(&vec!['-', '1', '.', '5']), Ok(Ratio { num: -3, den: 2 }));
    assert_eq!(parse_number(&vec!['.']), Err(CalcError::MalformedNumber));
    assert_eq!(parse_number(&vec!['1', '-']), Err(CalcError::MalformedNumber));
}

#[test]
fn four_places() {
    assert_eq!(format_ratio(Ratio { num: -7, den: 2 }), "-3.5000");
    assert_eq!(format_ratio(Ratio { num: 123456789, den: 1000 }), "123456.7890");
    assert_eq!(format_ratio(Ratio { num: 0, den: 5 }), "0.0000");
}

#[test]
fn long_products_stay_in_range() {
    let mut e = String::new();
    for _ in 0..20 {
        e.push_str("0.5*");
    }
    e.push_str("1048576");
    assert_eq!(evaluate(&e), "1.0000");
}

#[test]
fn large_result_reads_back() {
    let shown = evaluate("999999999*999999999");
    assert_eq!(evaluate(&shown), shown);
    let neg = evaluate("-999999999*999999999/8");
    assert_eq!(neg, "-124999999750000000.1250");
    assert_eq!(evaluate(&neg), neg);
}

#[test]
fn long_literal_is_reduced() {
    assert_eq!(
        evaluate_expression("123456789012345.00000"),
        Ok(Ratio { num: 123456789012345, den: 1 })
    );
}

#[test]
fn division_by_zero_at_any_position() {
    for e in ["1+5/0", "5/0*2", "3/(2-2)", "4/-0", "(6/0.00)+1", "2*(1/0)"] {
        assert_eq!(evaluate(e), "Invalid input");
        assert_eq!(evaluate_expression(e), Err(CalcError::DivisionByZero));
    }
}
