use flow_parser::ast::{parser, Expr, Value};
use flow_parser::debug::DebugContext;
use flow_parser::literal::Decimal;

fn to_f64(d: &Decimal) -> f64 {
    format!("{}.{}", d.whole, d.fraction).parse().unwrap()
}

#[test]
fn ast_parse_int() {
    let file = DebugContext::new().get_file_id("");
    let result = parser(file).parse("5");

    match result.unwrap() {
        Expr::Value(Value::Integer(x), _) => assert_eq!(x, 5),
        _ => assert!(false),
    }
}

#[test]
fn parse_float() {
    let file = DebugContext::new().get_file_id("");
    let result = parser(file).parse("5.0");

    match result.unwrap() {
        Expr::Value(Value::Double(x), _) => assert_eq!(to_f64(&x), 5.0),
        _ => assert!(false),
    }
}

#[test]
fn parse_var() {
    let file = DebugContext::new().get_file_id("");
    let result = parser(file).parse("x");

    match result.unwrap() {
        Expr::Var(name, _) => assert_eq!(name.as_str(), "x"),
        _ => assert!(false),
    }
}

#[test]
fn parse_unary() {
    let file = DebugContext::new().get_file_id("");
    let result = parser(file).parse("-5");

    match result.unwrap() {
        Expr::Neg(_, _) => (),
        _ => assert!(false),
    }
}

#[test]
fn parse_repeated_unary() {
    let file = DebugContext::new().get_file_id("");
    let result = parser(file).parse("-----5");

    match result.unwrap() {
        Expr::Neg(_, _) => (),
        _ => assert!(false),
    }
}

#[test]
fn parse_product() {
    let file = DebugContext::new().get_file_id("");
    let result = parser(file).parse("5 * 5");

    match result.unwrap() {
        Expr::Mul(_, _, _) => (),
        _ => assert!(false),
    }
}

#[test]
fn parse_sum() {
    let file = DebugContext::new().get_file_id("");
    let result = parser(file).parse("5+x");

    match result.unwrap() {
        Expr::Add(_, _, _) => (),
        _ => assert!(false),
    }
}

#[test]
fn parse_let() {
    let file = DebugContext::new().get_file_id("");
    let result = parser(file).parse("let x = 5.0; x");

    match result.unwrap() {
        Expr::Let { name, rhs, then, debug: _ } => {
            assert_eq!(name.as_str(), "x");
            match *rhs {
                Expr::Value(Value::Double(x), _) => assert_eq!(to_f64(&x), 5.0),
                _ => assert!(false),
            }
            match *then {
                Expr::Var(name, _) => assert_eq!(name.as_str(), "x"),
                _ => assert!(false),
            }
        }
        _ => assert!(false),
    }
}

#[test]
fn parse_let_with_semicolon() {
    let file = DebugContext::new().get_file_id("");
    let result = parser(file).parse("let x = 5.0; x;");

    match result.unwrap() {
        Expr::Let { name, rhs, then, debug: _ } => {
            assert_eq!(name.as_str(), "x");
            match *rhs {
                Expr::Value(Value::Double(x), _) => assert_eq!(to_f64(&x), 5.0),
                _ => assert!(false),
            }
            match *then {
                Expr::Var(name, _) => assert_eq!(name.as_str(), "x"),
                _ => assert!(false),
            }
        }
        _ => assert!(false),
    }
}

#[test]
fn parse_test_program0() {
    let file = DebugContext::new().get_file_id("");
    let result = parser(file).parse(
        "
            let x = 5.0;
            let y=3;
            x*y+2
        ",
    );
    result.unwrap();
}
