use flow_parser::abt::{Expr, FieldId, IdCounter, Type, TypeId, Value, VarId};
use flow_parser::literal::Decimal;
use flow_parser::typecheck::{typecheck, TypecheckContext};

#[test]
fn test_unit() {
    let ctx = TypecheckContext::new();
    let e = Expr::Value(Value::Unit, None);

    let t = typecheck(&ctx, &e);
    assert!(t.is_some());
    assert_eq!(t.unwrap(), Type::Unit);
}

#[test]
fn test_integer() {
    let ctx = TypecheckContext::new();
    let e = Expr::Value(Value::Integer(42), None);

    let t = typecheck(&ctx, &e);
    assert!(t.is_some());
    assert_eq!(t.unwrap(), Type::Integer);
}

#[test]
fn test_double() {
    let ctx = TypecheckContext::new();
    let e = Expr::Value(Value::Double(Decimal::new("3", "14")), None);

    let t = typecheck(&ctx, &e);
    assert!(t.is_some());
    assert_eq!(t.unwrap(), Type::Double);
}

#[test]
fn test_string() {
    let ctx = TypecheckContext::new();
    let e = Expr::Value(Value::String("hello".to_string()), None);

    let t = typecheck(&ctx, &e);
    assert!(t.is_some());
    assert_eq!(t.unwrap(), Type::String);
}

#[test]
fn test_function() {
    let mut types = IdCounter::new();
    let mut ctx = TypecheckContext::new();
    let e = Expr::Value(
        Value::Function { params: vec![], body: Box::new(Expr::Value(Value::Integer(42), None)) },
        None,
    );

    // Function type with no parameters and returns an Integer
    let t0 = TypeId::new(&mut types);
    let func_type = Type::Function(&[], Type::Integer);
    ctx.add_type(t0, func_type.clone());

    let t = typecheck(&ctx, &e);
    assert!(t.is_some());
    assert_eq!(t.unwrap(), func_type);
}

#[test]
fn test_enum() {
    let mut types = IdCounter::new();
    let mut fields = IdCounter::new();
    let mut ctx = TypecheckContext::new();
    // Define an Enum type with a field "Variant" of Integer
    let f0 = FieldId::new(&mut fields);
    let t0 = TypeId::new(&mut types);
    let enum_type = Type::Enum { kinds: vec![(f0, Type::Integer)].into_iter().collect() };
    ctx.add_type(t0, enum_type.clone());

    // Create an expression representing an instance of the enum
    let e = Expr::Value(Value::Enum { field: f0, value: Box::new(Value::Integer(42)) }, None);

    let t = typecheck(&ctx, &e);
    assert!(t.is_some());
    assert_eq!(t.unwrap(), enum_type);
}

#[test]
fn test_struct() {
    let mut types = IdCounter::new();
    let mut fields = IdCounter::new();
    let mut ctx = TypecheckContext::new();
    let f0 = FieldId::new(&mut fields);
    let f1 = FieldId::new(&mut fields);
    let t0 = TypeId::new(&mut types);
    let struct_type = Type::Struct { fields: vec![(f0, Type::Integer), (f1, Type::Integer)].into_iter().collect() };
    ctx.add_type(t0, struct_type.clone());

    // Create an expression representing an instance of the struct
    let e = Expr::Value(
        Value::Struct {
            fields: vec![(f0, Box::new(Value::Integer(42))), (f1, Box::new(Value::Integer(99)))],
        },
        None,
    );

    let t = typecheck(&ctx, &e);
    assert!(t.is_some());
    assert_eq!(t.unwrap(), struct_type);
}

#[test]
fn test_var() {
    let mut vars = IdCounter::new();
    let mut ctx = TypecheckContext::new();

    // Define a variable with type Integer
    let var_id = VarId::new(&mut vars);
    let var_type = Type::Integer;
    ctx.add_var(var_id, var_type.clone());

    // Create an expression representing the variable
    let e = Expr::Var(var_id, None);

    let t = typecheck(&ctx, &e);
    assert!(t.is_some());
    assert_eq!(t.unwrap(), var_type);
}

#[test]
fn test_let() {
    let mut vars = IdCounter::new();
    let mut ctx = TypecheckContext::new();
    // Define a variable with type Integer
    let v0 = VarId::new(&mut vars);
    let var_type = Type::Integer;
    ctx.add_var(v0, var_type.clone());

    // Create an expression representing the variable in a let binding
    let e = Expr::Let {
        bind: vec![(v0, Expr::Value(Value::Integer(42), None))],
        expr: Box::new(Expr::Var(v0, None)),
        debug: None,
    };

    let t = typecheck(&ctx, &e);
    assert!(t.is_some());
    assert_eq!(t.unwrap(), var_type);
}

#[test]
fn test_call() {
    let mut vars = IdCounter::new();
    let mut ctx = TypecheckContext::new();
    // Define a function with no parameters and returns an Integer
    let v0 = VarId::new(&mut vars);
    let func_type = Type::Function(&[], Type::Integer);
    ctx.add_var(v0, func_type);

    // Create an expression representing the function call
    let e = Expr::Call { func: v0, args: vec![], debug: None };

    let t = typecheck(&ctx, &e);
    assert!(t.is_some());
    assert_eq!(t.unwrap(), Type::Integer);
}
