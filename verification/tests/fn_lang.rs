use flow_parser::fn_lang::{parser, Expr, Value};

#[test]
fn fn_lang_arithmetic_precedence() {
    match parser().parse("1 + 2 * -3").unwrap() {
        Expr::Add(a, b) => {
            assert!(matches!(*a, Expr::Value(Value::Integer(1))));
            match *b {
                Expr::Mul(c, d) => {
                    assert!(matches!(*c, Expr::Value(Value::Integer(2))));
                    match *d {
                        Expr::Neg(e) => assert!(matches!(*e, Expr::Value(Value::Integer(3)))),
                        _ => assert!(false),
                    }
                },
                _ => assert!(false),
            }
        },
        _ => assert!(false),
    }
}

#[test]
fn fn_lang_left_nesting() {
    match parser().parse("8 - 2 - 1").unwrap() {
        Expr::Sub(a, b) => {
            assert!(matches!(*a, Expr::Sub(_, _)));
            assert!(matches!(*b, Expr::Value(Value::Integer(1))));
        },
        _ => assert!(false),
    }
}

#[test]
fn fn_lang_function_declaration_and_call() {
    match parser().parse("fn add(x, y,) = x + y; let z = add(1, 2.5,); z").unwrap() {
        Expr::Fn { name, args, body, then } => {
            assert_eq!(name, "add");
            assert_eq!(args, vec!["x".to_string(), "y".to_string()]);
            assert!(matches!(*body, Expr::Add(_, _)));
            match *then {
                Expr::Let { name, rhs, then } => {
                    assert_eq!(name, "z");
                    match *rhs {
                        Expr::Call(f, xs) => {
                            assert_eq!(f, "add");
                            assert_eq!(xs.len(), 2);
                            match &xs[1] {
                                Expr::Value(Value::Double(d)) => {
                                    assert_eq!(d.whole, "2");
                                    assert_eq!(d.fraction, "5");
                                },
                                _ => assert!(false),
                            }
                        },
                        _ => assert!(false),
                    }
                    assert!(matches!(*then, Expr::Var(_)));
                },
                _ => assert!(false),
            }
        },
        _ => assert!(false),
    }
}

#[test]
fn fn_lang_call_without_arguments() {
    match parser().parse("f()").unwrap() {
        Expr::Call(f, xs) => {
            assert_eq!(f, "f");
            assert!(xs.is_empty());
        },
        _ => assert!(false),
    }
}

#[test]
fn fn_lang_syntax_error() {
    let errors = parser().parse("let x = ;").unwrap_err();
    assert_eq!(errors.len(), 1);
    assert_eq!(errors[0].span, 8..9);
    assert_eq!(errors[0].reason, "found ';'");
}
