use flow_parser::abt::{Builtin, Expr, IdCounter, Type, Value, VarId};
use flow_parser::naive::{reduce, EvalContextImpl};

/// Reduces `e` step by step until it is a value.
fn eval(e: &Expr, counter: &mut IdCounter) -> Value {
    let ctx = EvalContextImpl::new();
    let mut e = e.clone();
    loop {
        if let Expr::Value(v, _) = e {
            return v;
        }
        e = reduce(&ctx, &e, counter);
    }
}

#[test]
fn test_let_binding() {
    let mut vars = IdCounter::new();
    let v0 = VarId::new(&mut vars);

    let expr = Expr::Let {
        bind: vec![(v0, Expr::Value(Value::Unit, None))],
        expr: Box::new(Expr::Var(v0, None)),
        debug: None,
    };

    let value = eval(&expr, &mut vars);

    println!("{:?}", value);

    assert_eq!(value, Value::Unit);
}

#[test]
fn test_builtin_addi() {
    let mut vars = IdCounter::new();
    let v0 = VarId::new(&mut vars);
    let v1 = VarId::new(&mut vars);
    let v2 = VarId::new(&mut vars);
    let v3 = VarId::new(&mut vars);

    let expr = Expr::Let {
        bind: vec![
            (
                v0,
                Expr::Value(
                    Value::Function {
                        params: Vec::from([(v2, Type::Integer), (v3, Type::Integer)]),
                        body: Box::new(Expr::Builtin(Builtin::AddI(v2, v3))),
                    },
                    None,
                ),
            ),
            (v1, Expr::Value(Value::Integer(1), None)),
            (v2, Expr::Value(Value::Integer(2), None)),
        ],
        expr: Box::new(Expr::Call { func: v0, args: Vec::from([Expr::Var(v1, None), Expr::Var(v2, None)]), debug: None }),
        debug: None,
    };

    let value = eval(&expr, &mut vars);

    println!("{:?}", value);

    assert_eq!(value, Value::Integer(3));
}

#[test]
fn test_nested_function() {
    let mut vars = IdCounter::new();
    let v0 = VarId::new(&mut vars);
    let v1 = VarId::new(&mut vars);
    let v2 = VarId::new(&mut vars);
    let v3 = VarId::new(&mut vars);

    let expr = Expr::Let {
        bind: vec![
            (
                v0,
                Expr::Value(
                    Value::Function {
                        params: Vec::from([(v2, Type::Integer), (v3, Type::Integer)]),
                        body: Box::new(Expr::Builtin(Builtin::AddI(v2, v3))),
                    },
                    None,
                ),
            ),
            (v1, Expr::Value(Value::Integer(1), None)),
            (v2, Expr::Value(Value::Integer(2), None)),
        ],
        expr: Box::new(Expr::Call {
            func: v0,
            args: Vec::from([
                Expr::Call { func: v0, args: Vec::from([Expr::Var(v1, None), Expr::Var(v2, None)]), debug: None },
                Expr::Var(v2, None),
            ]),
            debug: None,
        }),
        debug: None,
    };

    let value = eval(&expr, &mut vars);

    println!("{:?}", value);

    assert_eq!(value, Value::Integer(5));
}
