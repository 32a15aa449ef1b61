use flow_parser::abt::{self, Builtin, FieldId, IdCounter, Type, TypeId, VarId};
use flow_parser::ast::{self, parser, ParseContext};
use flow_parser::debug::{DebugContext, DebugInfo, Error, FileId, Site};
use flow_parser::grammar::{can_continue_identifier, can_start_identifier, SyntaxError};
use flow_parser::literal::Decimal;
use flow_parser::naive::{reduce, try_reduce, EvalContext, EvalContextImpl};
use flow_parser::translation::{
    translate, try_translate, OperatorType, TranslationContext, TranslationError,
};
use flow_parser::typecheck::{try_typecheck, typecheck, TypeMismatch, TypecheckContext};

fn site(file: usize, a: usize, b: usize) -> DebugInfo {
    DebugInfo::new(Site::new(FileId(file), a..b))
}

// The file table.

#[test]
fn file_ids_are_stable() {
    let mut d = DebugContext::new();
    let a = d.get_file_id("a.flow");
    let b = d.get_file_id("b.flow");
    let a2 = d.get_file_id("a.flow");
    assert_eq!(a, FileId(0));
    assert_eq!(b, FileId(1));
    assert_eq!(a2, a);
    assert_eq!(d.len(), 2);
    assert_eq!(d.get_file_path(&b), Some("b.flow".to_string()));
    assert_eq!(d.get_file_path(&FileId(7)), None);
}

#[test]
fn parse_records_the_file() {
    let mut ctx = ParseContext::new();
    let e = ast::parse(&mut ctx, "main.flow", "1 + x".to_string()).unwrap();
    assert!(matches!(e, ast::Expr::Add(_, _, _)));
    assert_eq!(ctx.files().get(&0), Some(&"1 + x".to_string()));
    assert_eq!(ctx.dbg().get_file_path(&FileId(0)), Some("main.flow".to_string()));
}

#[test]
fn parse_reports_a_site_error() {
    let mut ctx = ParseContext::new();
    ctx.add_file("other.flow", "x".to_string());
    match ast::parse(&mut ctx, "main.flow", "5 +".to_string()) {
        Err(Error::Site(errors)) => {
            assert_eq!(errors.len(), 1);
            assert_eq!(errors[0].site().file(), FileId(1));
            assert_eq!(errors[0].site().span(), &(3..3));
            assert_eq!(errors[0].reason(), "found end of input");
        },
        _ => assert!(false),
    }
}

#[test]
fn try_parse_detects_overflow() {
    let mut ctx = ParseContext::new();
    assert!(ast::try_parse(&mut ctx, "big.flow", "9223372036854775808".to_string()).is_none());
    let file = DebugContext::new().get_file_id("");
    match parser(file).parse("9223372036854775807").unwrap() {
        ast::Expr::Value(ast::Value::Integer(x), _) => assert_eq!(x, i64::MAX),
        _ => assert!(false),
    }
}

#[test]
fn error_from_string_is_simple() {
    match Error::from("no such file".to_string()) {
        Error::Simple(m) => assert_eq!(m, "no such file"),
        _ => assert!(false),
    }
}

#[test]
fn site_errors_follow_syntax_errors() {
    let errors = vec![SyntaxError { span: 4..5, reason: "found 'x'".to_string() }];
    match Error::from_parse_errors(FileId(3), errors) {
        Error::Site(es) => {
            assert_eq!(es.len(), 1);
            assert_eq!(es[0].site().file(), FileId(3));
            assert_eq!(es[0].site().span(), &(4..5));
            assert_eq!(es[0].reason(), "found 'x'");
        },
        _ => assert!(false),
    }
}

// The parser.

#[test]
fn integer_literal_spans_the_input() {
    match parser(FileId(2)).parse("12345").unwrap() {
        ast::Expr::Value(ast::Value::Integer(x), d) => {
            assert_eq!(x, 12345);
            assert_eq!(d.site().file(), FileId(2));
            assert_eq!(d.site().span(), &(0..5));
        },
        _ => assert!(false),
    }
}

#[test]
fn spans_are_byte_offsets() {
    match parser(FileId(0)).parse("é + 1").unwrap() {
        ast::Expr::Add(a, b, d) => {
            assert_eq!(d.site().span(), &(0..6));
            assert_eq!(a.debug_info().site().span(), &(0..2));
            assert_eq!(b.debug_info().site().span(), &(5..6));
        },
        _ => assert!(false),
    }
}

#[test]
fn let_requires_a_keyword_boundary() {
    match parser(FileId(0)).parse("letx").unwrap() {
        ast::Expr::Var(n, _) => assert_eq!(n, "letx"),
        _ => assert!(false),
    }
}

#[test]
fn negation_only_at_the_front() {
    let errors = parser(FileId(0)).parse("1 + -2").unwrap_err();
    assert_eq!(errors.len(), 1);
    assert_eq!(errors[0].span, 4..5);
    assert_eq!(errors[0].reason, "found '-'");
}

#[test]
fn leading_zero_is_a_token_of_its_own() {
    let errors = parser(FileId(0)).parse("05").unwrap_err();
    assert_eq!(errors[0].span, 1..2);
    assert_eq!(errors[0].reason, "found '5'");
}

// Decimals and values.

#[test]
fn decimals_compare_as_numbers() {
    assert!(Decimal::new("05", "10").same_number(&Decimal::new("5", "1")));
    assert!(!Decimal::new("5", "1").same_number(&Decimal::new("5", "2")));
    assert_eq!(abt::Value::Double(Decimal::new("0", "50")), abt::Value::Double(Decimal::new("0", "5")));
}

#[test]
fn value_equality() {
    let mut fields = IdCounter::new();
    let f0 = FieldId::new(&mut fields);
    let f1 = FieldId::new(&mut fields);
    let a = abt::Value::Struct { fields: vec![(f0, Box::new(abt::Value::Integer(1))), (f1, Box::new(abt::Value::Unit))] };
    let b = abt::Value::Struct { fields: vec![(f1, Box::new(abt::Value::Unit)), (f0, Box::new(abt::Value::Integer(1)))] };
    let c = abt::Value::Struct { fields: vec![(f1, Box::new(abt::Value::Unit)), (f0, Box::new(abt::Value::Integer(2)))] };
    assert_eq!(a, b);
    assert_ne!(a, c);
    let g = abt::Value::Function { params: vec![], body: Box::new(abt::Expr::Value(abt::Value::Unit, None)) };
    assert_ne!(g, g.clone());
    assert_ne!(abt::Value::Integer(1), abt::Value::Unit);
}

// Identifiers and the bound tree.

#[test]
fn fresh_ids_differ() {
    let mut c = IdCounter::new();
    let a = VarId::new(&mut c);
    let b = VarId::new(&mut c);
    assert_ne!(a, b);
    assert_eq!(b.index(), 1);
}

#[test]
fn builtin_addition_type() {
    let mut c = IdCounter::new();
    let t = Builtin::AddI(VarId::new(&mut c), VarId::new(&mut c)).get_type();
    assert_eq!(t, Type::Function(&[Type::Integer, Type::Integer], Type::Integer));
}

#[test]
fn let_hides_its_variables() {
    let mut c = IdCounter::new();
    let v0 = VarId::new(&mut c);
    let v1 = VarId::new(&mut c);
    let e = abt::Expr::Let {
        bind: vec![(v0, abt::Expr::Var(v1, None))],
        expr: Box::new(abt::Expr::Call { func: v0, args: vec![abt::Expr::Var(v1, None)], debug: None }),
        debug: None,
    };
    assert_eq!(e.unbound_variables(), vec![v1]);
}

// The type checker.

#[test]
fn field_owners_and_references() {
    let mut types = IdCounter::new();
    let mut fields = IdCounter::new();
    let mut vars = IdCounter::new();
    let mut ctx = TypecheckContext::new();
    let f0 = FieldId::new(&mut fields);
    let t0 = TypeId::new(&mut types);
    let s = Type::Struct { fields: vec![(f0, Type::Double)] };
    ctx.add_type(t0, s.clone());
    assert_eq!(ctx.get_field_owner(&f0), Some(t0));
    assert_eq!(ctx.resolve_type(&t0), Some(s.clone()));
    let v = VarId::new(&mut vars);
    ctx.add_var(v, Type::Ref(t0));
    assert_eq!(ctx.get_var_type(&v), Some(s));
    let e = abt::Expr::Builtin(Builtin::ExtractField(v, f0));
    assert_eq!(typecheck(&ctx, &e), Some(Type::Double));
}

#[test]
fn record_types_compare_as_maps() {
    let mut fields = IdCounter::new();
    let f0 = FieldId::new(&mut fields);
    let f1 = FieldId::new(&mut fields);
    let a = Type::Struct { fields: vec![(f0, Type::Integer), (f1, Type::Double)] };
    let b = Type::Struct { fields: vec![(f1, Type::Double), (f0, Type::Integer)] };
    let c = Type::Struct { fields: vec![(f0, Type::Unit), (f1, Type::Double), (f0, Type::Integer)] };
    let d = Type::Struct { fields: vec![(f0, Type::Integer)] };
    assert!(a.equals(&b));
    assert!(a == c);
    assert!(a != d);
    assert!(!a.identical(&b));
    assert!(Type::Enum { kinds: vec![(f0, Type::Integer)] } != Type::Struct { fields: vec![(f0, Type::Integer)] });
}

#[test]
fn a_field_lookup_takes_the_last_entry() {
    let mut fields = IdCounter::new();
    let mut vars = IdCounter::new();
    let mut ctx = TypecheckContext::new();
    let f0 = FieldId::new(&mut fields);
    let v = VarId::new(&mut vars);
    ctx.add_var(v, Type::Struct { fields: vec![(f0, Type::Unit), (f0, Type::Integer)] });
    let e = abt::Expr::Builtin(Builtin::ExtractField(v, f0));
    assert_eq!(typecheck(&ctx, &e), Some(Type::Integer));
}

#[test]
fn an_argument_matches_a_reordered_record_parameter() {
    let mut fields = IdCounter::new();
    let mut vars = IdCounter::new();
    let mut ctx = TypecheckContext::new();
    let f0 = FieldId::new(&mut fields);
    let f1 = FieldId::new(&mut fields);
    let f = VarId::new(&mut vars);
    let x = VarId::new(&mut vars);
    let p = Type::Struct { fields: vec![(f0, Type::Integer), (f1, Type::Unit)] };
    let q = Type::Struct { fields: vec![(f1, Type::Unit), (f0, Type::Integer)] };
    ctx.add_var(f, Type::Function(&[p], Type::String));
    ctx.add_var(x, q);
    let e = abt::Expr::Call { func: f, args: vec![abt::Expr::Var(x, None)], debug: None };
    assert_eq!(typecheck(&ctx, &e), Some(Type::String));
}

#[test]
fn argument_mismatch_stops_the_checker() {
    let mut vars = IdCounter::new();
    let mut ctx = TypecheckContext::new();
    let f = VarId::new(&mut vars);
    ctx.add_var(f, Type::Function(&[Type::Integer], Type::Unit));
    let e = abt::Expr::Call { func: f, args: vec![abt::Expr::Value(abt::Value::Unit, None)], debug: None };
    match try_typecheck(&ctx, &e) {
        Err(TypeMismatch::Argument { arg, param }) => {
            assert_eq!(arg, Type::Unit);
            assert_eq!(param, Type::Integer);
        },
        _ => assert!(false),
    }
}

// Lowering.

#[test]
fn lowering_a_let_takes_a_fresh_identifier() {
    let ctx = TranslationContext::new();
    let mut counter = IdCounter::new();
    let e = ast::Expr::Let {
        name: "x".to_string(),
        rhs: Box::new(ast::Expr::Value(ast::Value::Integer(5), site(0, 8, 9))),
        then: Box::new(ast::Expr::Var("x".to_string(), site(0, 11, 12))),
        debug: site(0, 0, 12),
    };
    match translate(&ctx, &e, &mut counter).unwrap() {
        abt::Expr::Let { bind, expr, debug } => {
            assert_eq!(bind.len(), 1);
            assert_eq!(bind[0].0, VarId(0));
            assert!(matches!(bind[0].1, abt::Expr::Value(abt::Value::Integer(5), Some(_))));
            match *expr {
                abt::Expr::Var(v, Some(d)) => {
                    assert_eq!(v, VarId(0));
                    assert_eq!(d.site().span(), &(11..12));
                },
                _ => assert!(false),
            }
            assert!(debug.is_none());
        },
        _ => assert!(false),
    }
    assert_eq!(VarId::new(&mut counter), VarId(1));
}

#[test]
fn lowering_an_unknown_name_fails() {
    let ctx = TranslationContext::new();
    let mut counter = IdCounter::new();
    let e = ast::Expr::Var("y".to_string(), site(0, 3, 4));
    match translate(&ctx, &e, &mut counter) {
        Err(TranslationError::UnknownVariable(n, s)) => {
            assert_eq!(n, "y");
            assert_eq!(s.span(), &(3..4));
        },
        _ => assert!(false),
    }
}

#[test]
fn lowering_an_addition_needs_an_operator() {
    let ctx = TranslationContext::new();
    let mut counter = IdCounter::new();
    let e = ast::Expr::Add(
        Box::new(ast::Expr::Value(ast::Value::Integer(1), site(0, 0, 1))),
        Box::new(ast::Expr::Value(ast::Value::Integer(2), site(0, 4, 5))),
        site(0, 0, 5),
    );
    assert_eq!(ctx.get_op(&OperatorType::Add(Type::Integer, Type::Integer)), None);
    match translate(&ctx, &e, &mut counter) {
        Err(TranslationError::UndefinedOperation { op, a, b, ta, tb }) => {
            assert_eq!(op, "+");
            assert_eq!(a.unwrap().span(), &(0..1));
            assert_eq!(b.unwrap().span(), &(4..5));
            assert_eq!(ta, Some(Type::Integer));
            assert_eq!(tb, Some(Type::Integer));
        },
        _ => assert!(false),
    }
}

#[test]
fn lowering_stops_on_negation() {
    let ctx = TranslationContext::new();
    let mut counter = IdCounter::new();
    let e = ast::Expr::Neg(Box::new(ast::Expr::Value(ast::Value::Integer(1), site(0, 1, 2))), site(0, 0, 2));
    assert!(try_translate(&ctx, &e, &mut counter).is_none());
}

#[test]
fn names_in_scope() {
    let mut ctx = TranslationContext::new();
    let x = "x".to_string();
    assert_eq!(ctx.set_var(&x, VarId(4)), None);
    assert_eq!(ctx.set_var(&x, VarId(5)), Some(VarId(4)));
    assert_eq!(ctx.get_var(&x), Some(VarId(5)));
    assert_eq!(ctx.get_var(&"z".to_string()), None);
}

// The evaluator.

#[test]
fn a_variable_reduces_to_its_value() {
    let mut ctx = EvalContextImpl::new();
    let mut counter = IdCounter::new();
    let v = VarId::new(&mut counter);
    ctx.set_var(&v, abt::Value::Integer(7));
    assert_eq!(ctx.var(&v), Some(abt::Value::Integer(7)));
    match reduce(&ctx, &abt::Expr::Var(v, None), &mut counter) {
        abt::Expr::Value(x, None) => assert_eq!(x, abt::Value::Integer(7)),
        _ => assert!(false),
    }
}

#[test]
fn a_let_of_a_value_reduces_in_one_step() {
    let ctx = EvalContextImpl::new();
    let mut counter = IdCounter::new();
    let v = VarId::new(&mut counter);
    let e = abt::Expr::Let {
        bind: vec![(v, abt::Expr::Value(abt::Value::String("s".to_string()), None))],
        expr: Box::new(abt::Expr::Var(v, None)),
        debug: None,
    };
    match reduce(&ctx, &e, &mut counter) {
        abt::Expr::Value(x, None) => assert_eq!(x, abt::Value::String("s".to_string())),
        _ => assert!(false),
    }
}

#[test]
fn the_evaluator_stops_where_it_must() {
    let mut ctx = EvalContextImpl::new();
    let mut counter = IdCounter::new();
    let a = VarId::new(&mut counter);
    let b = VarId::new(&mut counter);
    assert!(try_reduce(&ctx, &abt::Expr::Var(a, None), &mut counter).is_none());
    ctx.set_var(&a, abt::Value::Integer(i64::MAX));
    ctx.set_var(&b, abt::Value::Integer(1));
    assert!(try_reduce(&ctx, &abt::Expr::Builtin(Builtin::AddI(a, b)), &mut counter).is_none());
    ctx.set_var(&a, abt::Value::Integer(41));
    match try_reduce(&ctx, &abt::Expr::Builtin(Builtin::AddI(a, b)), &mut counter) {
        Some(abt::Expr::Value(x, _)) => assert_eq!(x, abt::Value::Integer(42)),
        _ => assert!(false),
    }
}

#[test]
fn a_lowered_literal_has_its_type() {
    let ctx = TranslationContext::new();
    let mut counter = IdCounter::new();
    let e = ast::Expr::Value(ast::Value::Double(Decimal::new("2", "5")), site(0, 0, 3));
    let x = translate(&ctx, &e, &mut counter).unwrap();
    assert_eq!(typecheck(ctx.get_typechecking_context(), &x), Some(Type::Double));
}

#[test]
fn a_lowered_program_is_closed() {
    let mut ctx = ParseContext::new();
    let e = ast::parse(&mut ctx, "p.flow", "let x = 1; let y = x; y".to_string()).unwrap();
    let tctx = TranslationContext::new();
    let mut counter = IdCounter::new();
    let x = translate(&tctx, &e, &mut counter).unwrap();
    assert!(x.unbound_variables().is_empty());
}

#[test]
fn a_call_renames_only_parameters_in_scope() {
    let mut ctx = EvalContextImpl::new();
    let mut counter = IdCounter::new();
    let f = VarId::new(&mut counter);
    let p = VarId::new(&mut counter);
    let a = VarId::new(&mut counter);
    ctx.set_var(
        &f,
        abt::Value::Function { params: vec![(p, Type::Integer)], body: Box::new(abt::Expr::Var(p, None)) },
    );
    ctx.set_var(&a, abt::Value::Integer(9));
    let call = abt::Expr::Call { func: f, args: vec![abt::Expr::Var(a, None)], debug: None };
    match reduce(&ctx, &call, &mut counter) {
        abt::Expr::Let { bind, expr, .. } => {
            // `p` has no value in the context, so it keeps its name and no identifier is taken.
            assert_eq!(bind.len(), 2);
            assert_eq!(bind[0].0, a);
            assert_eq!(bind[1].0, p);
            assert!(matches!(*expr, abt::Expr::Var(v, None) if v == p));
        },
        _ => assert!(false),
    }
    assert_eq!(VarId::new(&mut counter), VarId(3));
}

#[test]
fn renaming_a_let_apart_keeps_what_it_uses() {
    let mut ctx = EvalContextImpl::new();
    let mut counter = IdCounter::new();
    let f = VarId::new(&mut counter);
    let p = VarId::new(&mut counter);
    let x = VarId::new(&mut counter);
    let a = VarId::new(&mut counter);
    ctx.set_var(
        &f,
        abt::Value::Function { params: vec![(p, Type::Integer)], body: Box::new(abt::Expr::Var(p, None)) },
    );
    ctx.set_var(&x, abt::Value::Integer(1));
    ctx.set_var(&a, abt::Value::Integer(2));
    let arg = abt::Expr::Let {
        bind: vec![(x, abt::Expr::Value(abt::Value::Integer(5), None))],
        expr: Box::new(abt::Expr::Builtin(Builtin::AddI(x, a))),
        debug: None,
    };
    assert_eq!(arg.unbound_variables(), vec![a]);
    let call = abt::Expr::Call { func: f, args: vec![arg], debug: None };
    match reduce(&ctx, &call, &mut counter) {
        abt::Expr::Let { bind, .. } => {
            let renamed: Vec<&abt::Expr> = bind.iter().map(|(_, e)| e).filter(|e| matches!(e, abt::Expr::Let { .. })).collect();
            assert_eq!(renamed.len(), 1);
            match renamed[0] {
                abt::Expr::Let { bind: inner, expr, .. } => {
                    assert_eq!(inner.len(), 1);
                    assert!(inner[0].0 != x);
                    assert!(matches!(**expr, abt::Expr::Builtin(Builtin::AddI(y, b)) if y == inner[0].0 && b == a));
                },
                _ => assert!(false),
            }
            assert_eq!(renamed[0].unbound_variables(), vec![a]);
        },
        _ => assert!(false),
    }
}

#[test]
fn white_space_of_every_kind_pads_an_expression() {
    let mut ctx = ParseContext::new();
    let e = ast::parse(&mut ctx, "w.flow", "\u{2003}\t5\u{3000}\n".to_string()).unwrap();
    assert!(matches!(e, ast::Expr::Value(ast::Value::Integer(5), _)));
}

#[test]
fn a_let_of_values_reduces_as_its_body() {
    let ctx = EvalContextImpl::new();
    let mut counter = IdCounter::new();
    let a = VarId::new(&mut counter);
    let b = VarId::new(&mut counter);
    let e = abt::Expr::Let {
        bind: vec![
            (a, abt::Expr::Value(abt::Value::Integer(2), None)),
            (b, abt::Expr::Value(abt::Value::Integer(3), None)),
            (a, abt::Expr::Value(abt::Value::Integer(4), None)),
        ],
        expr: Box::new(abt::Expr::Builtin(Builtin::AddI(a, b))),
        debug: None,
    };
    match reduce(&ctx, &e, &mut counter) {
        abt::Expr::Value(x, None) => assert_eq!(x, abt::Value::Integer(7)),
        _ => assert!(false),
    }
}

#[test]
fn renaming_a_let_apart_keeps_its_type() {
    let mut ctx = EvalContextImpl::new();
    let mut counter = IdCounter::new();
    let f = VarId::new(&mut counter);
    let p = VarId::new(&mut counter);
    let x = VarId::new(&mut counter);
    ctx.set_var(
        &f,
        abt::Value::Function { params: vec![(p, Type::Integer)], body: Box::new(abt::Expr::Var(p, None)) },
    );
    ctx.set_var(&x, abt::Value::String("outer".to_string()));
    let arg = abt::Expr::Let {
        bind: vec![(x, abt::Expr::Value(abt::Value::Integer(5), None))],
        expr: Box::new(abt::Expr::Var(x, None)),
        debug: None,
    };
    let mut tctx = TypecheckContext::new();
    tctx.add_var(x, Type::String);
    assert_eq!(typecheck(&tctx, &arg), Some(Type::Integer));
    let call = abt::Expr::Call { func: f, args: vec![arg], debug: None };
    match reduce(&ctx, &call, &mut counter) {
        abt::Expr::Let { bind, .. } => {
            let renamed: Vec<&abt::Expr> = bind.iter().map(|(_, e)| e).filter(|e| matches!(e, abt::Expr::Let { .. })).collect();
            assert_eq!(renamed.len(), 1);
            match renamed[0] {
                abt::Expr::Let { bind: inner, .. } => assert!(inner[0].0 != x),
                _ => assert!(false),
            }
            assert_eq!(typecheck(&tctx, renamed[0]), Some(Type::Integer));
        },
        _ => assert!(false),
    }
}

#[test]
fn identifier_classes_for_ascii() {
    assert!(can_start_identifier('x'));
    assert!(can_start_identifier('_'));
    assert!(!can_start_identifier('5'));
    assert!(!can_start_identifier('-'));
    assert!(can_continue_identifier('5'));
    assert!(!can_continue_identifier('+'));
}
