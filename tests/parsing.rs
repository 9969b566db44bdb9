use unitcalc::ast::{Decimal, Expression, Number, OpType, Statement, Unit};
use unitcalc::grammar::Expected;
use unitcalc::parser::{parse, ParseError, StatementParser};

fn match_stm_exp(stm: Statement) -> Expression {
    match stm {
        Statement::Expression(exp) => *exp,
        _ => panic!(),
    }
}

fn decimal(whole: &str, fraction: &str) -> Number {
    Number::Decimal(Decimal { whole: String::from(whole), fraction: String::from(fraction) })
}

fn decimal_value(n: &Number) -> Option<f64> {
    match n {
        Number::Decimal(d) => format!("0{}.{}0", d.whole, d.fraction).parse::<f64>().ok(),
        Number::Integer(_) => None,
    }
}

fn integer(n: i64) -> Expression {
    Expression::Constant { value: Number::Integer(n), units: None }
}

fn op(op_type: OpType, lhs: Expression, rhs: Expression) -> Expression {
    Expression::Operation { op_type, lhs: Box::new(lhs), rhs: Box::new(rhs) }
}

fn unit(symbol: &str, exponent: i64) -> Unit {
    Unit(String::from(symbol), exponent)
}

fn test_operation(exp: Expression, expected_op: OpType, expected_lhs: Expression, expected_rhs: Expression) {
    match exp {
        Expression::Operation { op_type, lhs, rhs } => {
            assert_eq!(op_type, expected_op);
            assert_eq!(expected_lhs, *lhs);
            assert_eq!(expected_rhs, *rhs);
        }
        _ => panic!(),
    }
}

fn error_of(text: &str) -> ParseError {
    match parse(text) {
        Err(e) => e,
        Ok(_) => panic!(),
    }
}

#[test]
fn integer_parsing() {
    let parser = StatementParser::new();
    let result: Statement = parser.parse("32").unwrap();
    let exp = match_stm_exp(result);
    assert!(matches!(exp, Expression::Constant { value: Number::Integer(32), units: None }));
}

#[test]
fn decimal_parsing() {
    let parser = StatementParser::new();
    let result: Statement = parser.parse("32.5").unwrap();
    let exp = match_stm_exp(result);
    match exp {
        Expression::Constant { value, units: None } => {
            assert_eq!(decimal_value(&value), Some(32.5));
            assert_eq!(value, decimal("32", "5"));
        }
        _ => panic!(),
    }
}

#[test]
fn number_w_units_parsing() {
    let parser = StatementParser::new();
    let result: Statement = parser.parse("32.5 kg m_1 s_-2").unwrap();

    let exp = match_stm_exp(result);
    match exp {
        Expression::Constant { value, units } => {
            assert_eq!(decimal_value(&value), Some(32.5));

            let units = units.unwrap();

            assert_eq!(units[0], Unit(String::from("kg"), 1));
            assert_eq!(units[1], Unit(String::from("m"), 1));
            assert_eq!(units[2], Unit(String::from("s"), -2));
        }
        _ => panic!(),
    }
}

#[test]
fn function_parsing() {
    let parser = StatementParser::new();
    let result: Statement = parser.parse("atan2(2, 3)").unwrap();
    let exp = match_stm_exp(result);
    match exp {
        Expression::Function { name, arguments } => {
            assert_eq!(name, String::from("atan2"));
            assert_eq!(arguments.len(), 2);
            assert!(matches!(
                *arguments[0],
                Expression::Constant { value: Number::Integer(2), units: None }
            ));
            assert!(matches!(
                *arguments[1],
                Expression::Constant { value: Number::Integer(3), units: None }
            ));
        }
        _ => panic!(),
    }
}

#[test]
fn assignment_parsing() {
    let parser = StatementParser::new();
    let result: Statement = parser.parse("hello = 2.2").unwrap();
    let expected_name = String::from("hello");

    match result {
        Statement::Assignment { variable_name, value } => {
            assert_eq!(variable_name, expected_name);
            match *value {
                Expression::Constant { value, units: None } => {
                    assert_eq!(decimal_value(&value), Some(2.2));
                }
                _ => panic!(),
            }
        }
        _ => panic!(),
    }
}

#[test]
fn add_parsing() {
    let parser = StatementParser::new();
    let result: Statement = parser.parse("2 km_40 + 20.12 dm").unwrap();
    let exp = match_stm_exp(result);
    let expected_lhs = Expression::Constant { value: Number::Integer(2), units: Some(vec![Unit(String::from("km"), 40)]) };
    let expected_rhs = Expression::Constant { value: decimal("20", "12"), units: Some(vec![Unit(String::from("dm"), 1)]) };
    test_operation(exp, OpType::Add, expected_lhs, expected_rhs)
}

#[test]
fn factor_parsing() {
    let parser = StatementParser::new();
    let result: Statement = parser.parse("4.52 cm * 2 cm_2").unwrap();
    let exp = match_stm_exp(result);
    let expected_lhs = Expression::Constant { value: decimal("4", "52"), units: Some(vec![Unit(String::from("cm"), 1)]) };
    let expected_rhs = Expression::Constant { value: Number::Integer(2), units: Some(vec![Unit(String::from("cm"), 2)]) };
    test_operation(exp, OpType::Multiply, expected_lhs, expected_rhs)
}

#[test]
fn power_parsing() {
    let parser = StatementParser::new();
    let result: Statement = parser.parse("4.52 cm ^ 2").unwrap();
    let exp = match_stm_exp(result);
    let expected_lhs = Expression::Constant { value: decimal("4", "52"), units: Some(vec![Unit(String::from("cm"), 1)]) };
    let expected_rhs = Expression::Constant { value: Number::Integer(2), units: None };
    test_operation(exp, OpType::Power, expected_lhs, expected_rhs)
}

#[test]
fn parentheses_parsing() {
    let parser = StatementParser::new();
    let result: Statement = parser.parse("(2 + 4) * 8").unwrap();
    let exp = match_stm_exp(result);

    match exp {
        Expression::Operation { op_type, lhs, rhs } => {
            let lhs = *lhs;
            let rhs = *rhs;

            assert_eq!(lhs, op(OpType::Add, integer(2), integer(4)));
            assert_eq!(rhs, Expression::Constant { value: Number::Integer(8), units: None });
            assert_eq!(op_type, OpType::Multiply);
        }
        _ => panic!(),
    }
}

#[test]
fn precedence_parsing() {
    let parser = StatementParser::new();
    let result: Statement = parser.parse("2 + 4 * 8 - 2 ^ 21").unwrap();
    let exp = match_stm_exp(result);

    assert_eq!(
        exp,
        op(
            OpType::Subtract,
            op(OpType::Add, integer(2), op(OpType::Multiply, integer(4), integer(8))),
            op(OpType::Power, integer(2), integer(21)),
        )
    );
}

#[test]
fn integer_literal_of_largest_value() {
    assert_eq!(match_stm_exp(parse("9223372036854775807").unwrap()), integer(i64::MAX));
    assert_eq!(match_stm_exp(parse("  007 ").unwrap()), integer(7));
}

#[test]
fn integer_literal_too_large() {
    assert_eq!(
        error_of("9223372036854775808"),
        ParseError { position: 0, expected: Expected::SmallerNumber }
    );
}

#[test]
fn decimal_literal_is_normalised() {
    let a = match_stm_exp(parse("032.50").unwrap());
    let b = match_stm_exp(parse("32.5").unwrap());
    assert_eq!(a, b);
    assert_eq!(a, Expression::Constant { value: decimal("32", "5"), units: None });
    assert_eq!(
        match_stm_exp(parse("0.0").unwrap()),
        Expression::Constant { value: decimal("", ""), units: None }
    );
}

#[test]
fn decimal_point_needs_digits() {
    assert_eq!(error_of("2."), ParseError { position: 2, expected: Expected::Digit });
    assert_eq!(error_of(".5"), ParseError { position: 0, expected: Expected::Operand });
    assert_eq!(error_of("1.2.3"), ParseError { position: 3, expected: Expected::EndOfInput });
}

#[test]
fn unit_exponents_at_the_limits() {
    let exp = match_stm_exp(parse("1 s_-9223372036854775808 m_+3").unwrap());
    assert_eq!(
        exp,
        Expression::Constant {
            value: Number::Integer(1),
            units: Some(vec![unit("s", i64::MIN), unit("m", 3)]),
        }
    );
    assert_eq!(
        error_of("1 s_9223372036854775808"),
        ParseError { position: 4, expected: Expected::SmallerNumber }
    );
}

#[test]
fn repeated_units_are_kept_as_written() {
    let exp = match_stm_exp(parse("3 m_1 m_1").unwrap());
    assert_eq!(
        exp,
        Expression::Constant { value: Number::Integer(3), units: Some(vec![unit("m", 1), unit("m", 1)]) }
    );
}

#[test]
fn malformed_input_fails() {
    assert_eq!(error_of("("), ParseError { position: 1, expected: Expected::Operand });
    assert_eq!(error_of("2 +"), ParseError { position: 3, expected: Expected::Operand });
    assert_eq!(error_of("2 km_"), ParseError { position: 5, expected: Expected::Digit });
}

#[test]
fn open_endings_are_refused() {
    assert!(parse("f(1,").is_err());
    assert!(parse("3 *  ").is_err());
    assert!(parse("x = ").is_err());
    assert!(parse("(1 + 2").is_err());
    assert!(parse("4 ^\n").is_err());
    assert!(parse("(1 + 2)").is_ok());
}

#[test]
fn each_error_kind_has_an_input() {
    assert_eq!(error_of("   "), ParseError { position: 3, expected: Expected::Operand });
    assert_eq!(error_of("(2 + 4"), ParseError { position: 6, expected: Expected::CloseParen });
    assert_eq!(error_of("f(1 2)"), ParseError { position: 4, expected: Expected::CommaOrCloseParen });
    assert_eq!(error_of("2 ->"), ParseError { position: 4, expected: Expected::UnitSymbol });
    assert_eq!(error_of("2 3"), ParseError { position: 2, expected: Expected::EndOfInput });
    assert_eq!(error_of("2 \u{e9}"), ParseError { position: 2, expected: Expected::EndOfInput });
    assert_eq!(error_of("2 * )"), ParseError { position: 4, expected: Expected::Operand });
    assert_eq!(error_of("-2"), ParseError { position: 0, expected: Expected::Operand });
}

#[test]
fn floor_modulo_and_divide_group_to_the_left() {
    let exp = match_stm_exp(parse("7 // 2 % 3 / 4").unwrap());
    assert_eq!(
        exp,
        op(
            OpType::Divide,
            op(OpType::Modulo, op(OpType::Floor, integer(7), integer(2)), integer(3)),
            integer(4),
        )
    );
}

#[test]
fn power_groups_to_the_right() {
    let exp = match_stm_exp(parse("2 ^ 3 ^ 2").unwrap());
    assert_eq!(exp, op(OpType::Power, integer(2), op(OpType::Power, integer(3), integer(2))));
}

#[test]
fn conversion_wraps_the_expression() {
    match parse("x = 2 m + 3 m -> km").unwrap() {
        Statement::Assignment { variable_name, value } => {
            assert_eq!(variable_name, "x");
            let sum = op(
                OpType::Add,
                Expression::Constant { value: Number::Integer(2), units: Some(vec![unit("m", 1)]) },
                Expression::Constant { value: Number::Integer(3), units: Some(vec![unit("m", 1)]) },
            );
            assert_eq!(*value, Expression::Conversion { target_unit: unit("km", 1), value: Box::new(sum) });
        }
        _ => panic!(),
    }
}

#[test]
fn calls_and_variables() {
    let exp = match_stm_exp(parse("max(1, min(y, 3)) - f()").unwrap());
    let inner = Expression::Function {
        name: String::from("min"),
        arguments: vec![Box::new(Expression::Variable(String::from("y"))), Box::new(integer(3))],
    };
    let outer = Expression::Function {
        name: String::from("max"),
        arguments: vec![Box::new(integer(1)), Box::new(inner)],
    };
    let empty = Expression::Function { name: String::from("f"), arguments: vec![] };
    assert_eq!(exp, op(OpType::Subtract, outer, empty));
}

#[test]
fn units_stop_at_operators() {
    let exp = match_stm_exp(parse("2 km_40 - 1 dm").unwrap());
    test_operation(
        exp,
        OpType::Subtract,
        Expression::Constant { value: Number::Integer(2), units: Some(vec![unit("km", 40)]) },
        Expression::Constant { value: Number::Integer(1), units: Some(vec![unit("dm", 1)]) },
    );
}

#[test]
fn parsing_twice_gives_equal_trees() {
    let text = "a = (1.5 kg + 2) * g(3, 4 s_-1) -> lb";
    assert_eq!(parse(text), parse(text));
    assert_eq!(parse("2 +"), parse("2 +"));
}

#[test]
fn numbers_without_units_have_none() {
    let exp = match_stm_exp(parse("f(3, 4 m) ^ 2").unwrap());
    let call = Expression::Function {
        name: String::from("f"),
        arguments: vec![
            Box::new(integer(3)),
            Box::new(Expression::Constant { value: Number::Integer(4), units: Some(vec![unit("m", 1)]) }),
        ],
    };
    assert_eq!(exp, op(OpType::Power, call, integer(2)));
}
