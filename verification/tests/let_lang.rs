use flow_parser::let_lang::{parser, Expr, Value};

#[test]
fn lib_parse_int() {
    let result = parser().parse("5");

    match result.unwrap() {
        Expr::Value(Value::Integer(x), _) => assert_eq!(x, 5),
        _ => assert!(false),
    }
}

#[test]
fn let_lang_parse_float() {
    let result = parser().parse("5.0");

    match result.unwrap() {
        Expr::Value(Value::Double(x), _) => {
            assert_eq!(x.whole, "5");
            assert_eq!(x.fraction, "0");
        },
        _ => assert!(false),
    }
}

#[test]
fn let_lang_let_chain() {
    let result = parser().parse(" let x = 5; let y = x; y ");

    match result.unwrap() {
        Expr::Let { name, rhs, then, debug } => {
            assert_eq!(name, "x");
            assert_eq!(debug.span, 1..25);
            match *rhs {
                Expr::Value(Value::Integer(5), d) => assert_eq!(d.span, 9..10),
                _ => assert!(false),
            }
            match *then {
                Expr::Let { name, then, .. } => {
                    assert_eq!(name, "y");
                    match *then {
                        Expr::Var(n, d) => {
                            assert_eq!(n, "y");
                            assert_eq!(d.span, 23..24);
                        },
                        _ => assert!(false),
                    }
                },
                _ => assert!(false),
            }
        },
        _ => assert!(false),
    }
}

#[test]
fn let_lang_parenthesis_after_space() {
    // A parenthesised atom must start right where the atom does.
    let errors = parser().parse("let x = (5); x").unwrap_err();
    assert_eq!(errors[0].span, 8..9);
    match parser().parse("let x =(5); x").unwrap() {
        Expr::Let { rhs, .. } => match *rhs {
            Expr::Value(Value::Integer(5), d) => assert_eq!(d.span, 8..9),
            _ => assert!(false),
        },
        _ => assert!(false),
    }
}

#[test]
fn let_lang_rejects_operators() {
    let result = parser().parse("1 + 2");
    let errors = result.unwrap_err();
    assert_eq!(errors.len(), 1);
    assert_eq!(errors[0].span, 2..3);
    assert_eq!(errors[0].reason, "found '+'");
}

#[test]
fn let_lang_overflow() {
    assert!(parser().try_parse("99999999999999999999").is_none());
}
