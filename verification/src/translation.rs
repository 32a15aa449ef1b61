//! Lowering the surface syntax to the bound tree: names become
//! variable identifiers, and operators become calls of the functions that
//! implement them for the operands' types.
use vstd::prelude::*;
use crate::abt::{self, canon, debug_of, view_types, IdCounter, SpecType, Type, VarId};
use crate::ast;
use crate::debug::{DebugInfo, Site};
use crate::literal::Decimal;
use crate::typecheck::{opt_view, tc, try_typecheck, SpecContext, TypecheckContext};

verus! {

/// The operations that the surface syntax writes with operators, by the types
/// of their operands.
#[derive(Debug, Hash)]
pub enum OperatorType {
    Neg(Type),
    Add(Type, Type),
    Sub(Type, Type),
    Mul(Type, Type),
    Div(Type, Type),
}

/// The model of an [`OperatorType`]: its types in canonical form, so that two
/// operations on the same types have the same model.
pub enum SpecOperatorType {
    Neg(SpecType),
    Add(SpecType, SpecType),
    Sub(SpecType, SpecType),
    Mul(SpecType, SpecType),
    Div(SpecType, SpecType),
}

impl View for OperatorType {
    type V = SpecOperatorType;

    open spec fn view(&self) -> SpecOperatorType {
        match self {
            OperatorType::Neg(a) => SpecOperatorType::Neg(canon(a@)),
            OperatorType::Add(a, b) => SpecOperatorType::Add(canon(a@), canon(b@)),
            OperatorType::Sub(a, b) => SpecOperatorType::Sub(canon(a@), canon(b@)),
            OperatorType::Mul(a, b) => SpecOperatorType::Mul(canon(a@), canon(b@)),
            OperatorType::Div(a, b) => SpecOperatorType::Div(canon(a@), canon(b@)),
        }
    }
}

impl OperatorType {
    /// Whether the two are the same operation on the same types.
    pub fn equals(&self, other: &OperatorType) -> (r: bool)
        ensures
            r == (self@ == other@),
    {
        match (self, other) {
            (OperatorType::Neg(a1), OperatorType::Neg(a2)) => a1.equals(a2),
            (OperatorType::Add(a1, b1), OperatorType::Add(a2, b2)) => a1.equals(a2) && b1.equals(b2),
            (OperatorType::Sub(a1, b1), OperatorType::Sub(a2, b2)) => a1.equals(a2) && b1.equals(b2),
            (OperatorType::Mul(a1, b1), OperatorType::Mul(a2, b2)) => a1.equals(a2) && b1.equals(b2),
            (OperatorType::Div(a1, b1), OperatorType::Div(a2, b2)) => a1.equals(a2) && b1.equals(b2),
            _ => false,
        }
    }

    /// A copy of this operation.
    pub fn copy(&self) -> (r: OperatorType)
        ensures
            r@ == self@,
    {
        match self {
            OperatorType::Neg(a) => OperatorType::Neg(a.copy()),
            OperatorType::Add(a, b) => OperatorType::Add(a.copy(), b.copy()),
            OperatorType::Sub(a, b) => OperatorType::Sub(a.copy(), b.copy()),
            OperatorType::Mul(a, b) => OperatorType::Mul(a.copy(), b.copy()),
            OperatorType::Div(a, b) => OperatorType::Div(a.copy(), b.copy()),
        }
    }
}

impl Clone for OperatorType {
    fn clone(&self) -> (r: OperatorType)
        ensures
            r@ == self@,
    {
        self.copy()
    }
}

impl PartialEq for OperatorType {
    fn eq(&self, other: &OperatorType) -> (r: bool) {
        self.equals(other)
    }
}

impl vstd::std_specs::cmp::PartialEqSpecImpl for OperatorType {
    open spec fn obeys_eq_spec() -> bool {
        true
    }

    open spec fn eq_spec(&self, other: &OperatorType) -> bool {
        self@ == other@
    }
}

impl Eq for OperatorType {}

/// The value bound to key `k` by the latest entry for it, if any.
pub open spec fn latest<K, V>(es: Seq<(K, V)>, k: K) -> Option<V>
    decreases es.len(),
{
    if es.len() == 0 {
        None
    } else if es.last().0 == k {
        Some(es.last().1)
    } else {
        latest(es.drop_last(), k)
    }
}

/// The map that a list of entries stands for: each key bound by its latest entry.
pub open spec fn entries_map<K, V>(es: Seq<(K, V)>) -> Map<K, V> {
    Map::new(|k: K| latest(es, k) is Some, |k: K| latest(es, k)->Some_0)
}

/// Adding an entry binds its key and leaves the other keys as they were.
pub proof fn lemma_entries_push<K, V>(es: Seq<(K, V)>, k: K, v: V)
    ensures
        entries_map(es.push((k, v))) == entries_map(es).insert(k, v),
{
    let n = es.push((k, v));
    assert(n.drop_last() =~= es);
    assert forall|x: K| #[trigger] latest(n, x) == (if x == k { Some(v) } else { latest(es, x) }) by {}
    assert(entries_map(n) =~= entries_map(es).insert(k, v));
}

/// The model of a [`TranslationContext`].
pub struct SpecTranslationContext {
    /// What the type checker knows.
    pub types: SpecContext,
    /// The identifier that each name in scope stands for.
    pub vars: Map<Seq<char>, VarId>,
    /// The function that implements each operation.
    pub ops: Map<SpecOperatorType, VarId>,
}

impl SpecTranslationContext {
    /// The context with `name` standing for `id`.
    pub open spec fn with_var(self, name: Seq<char>, id: VarId) -> SpecTranslationContext {
        SpecTranslationContext { vars: self.vars.insert(name, id), ..self }
    }
}

/// What lowering knows: the type checker's context, the identifiers of
/// the names in scope, and the functions that implement the operators.
pub struct TranslationContext {
    typechecking_context: TypecheckContext,
    scoped_vars: Vec<(String, VarId)>,
    operators: Vec<(OperatorType, VarId)>,
}

pub open spec fn view_vars(vs: Seq<(String, VarId)>) -> Seq<(Seq<char>, VarId)> {
    Seq::new(vs.len(), |i: int| (vs[i].0@, vs[i].1))
}

pub open spec fn view_ops(os: Seq<(OperatorType, VarId)>) -> Seq<(SpecOperatorType, VarId)> {
    Seq::new(os.len(), |i: int| (os[i].0@, os[i].1))
}

impl View for TranslationContext {
    type V = SpecTranslationContext;

    closed spec fn view(&self) -> SpecTranslationContext {
        SpecTranslationContext {
            types: self.typechecking_context@,
            vars: entries_map(view_vars(self.scoped_vars@)),
            ops: entries_map(view_ops(self.operators@)),
        }
    }
}

impl TranslationContext {
    pub fn new() -> (r: Self)
        ensures
            r@.types.types == Map::<usize, SpecType>::empty(),
            r@.types.vars == Map::<usize, SpecType>::empty(),
            r@.types.owners == Map::<usize, abt::TypeId>::empty(),
            r@.vars == Map::<Seq<char>, VarId>::empty(),
            r@.ops == Map::<SpecOperatorType, VarId>::empty(),
    {
        let r = TranslationContext {
            typechecking_context: TypecheckContext::new(),
            scoped_vars: Vec::new(),
            operators: Vec::new(),
        };
        assert(r@.vars =~= Map::<Seq<char>, VarId>::empty());
        assert(r@.ops =~= Map::<SpecOperatorType, VarId>::empty());
        r
    }

    pub fn get_typechecking_context(&self) -> (r: &TypecheckContext)
        ensures
            r@ == self@.types,
    {
        &self.typechecking_context
    }

    /// An identifier that no earlier call on the same counter handed out.
    pub fn fresh_var(&mut self, counter: &mut IdCounter) -> (r: VarId)
        ensures
            final(self)@ == old(self)@,
            r.0 == old(counter).next_id(),
            final(counter).next_id() == old(counter).next_id().wrapping_add(1),
    {
        VarId::new(counter)
    }

    /// Lets `name` stand for `id`; gives back what it stood for before, if anything.
    pub fn set_var(&mut self, name: &String, id: VarId) -> (r: Option<VarId>)
        ensures
            final(self)@ == old(self)@.with_var(name@, id),
            r == old(self)@.vars.get(name@),
    {
        let r = self.get_var(name);
        let ghost before = view_vars(self.scoped_vars@);
        self.scoped_vars.push((name.clone(), id));
        proof {
            assert(view_vars(self.scoped_vars@) =~= before.push((name@, id)));
            lemma_entries_push(before, name@, id);
        }
        r
    }

    /// The identifier that `name` stands for, if any.
    pub fn get_var(&self, name: &String) -> (r: Option<VarId>)
        ensures
            r == self@.vars.get(name@),
    {
        let ghost vs = view_vars(self.scoped_vars@);
        let mut i = self.scoped_vars.len();
        assert(vs.subrange(0, i as int) =~= vs);
        while i > 0
            invariant
                i <= self.scoped_vars@.len(),
                vs == view_vars(self.scoped_vars@),
                latest(vs, name@) == latest(vs.subrange(0, i as int), name@),
            decreases i,
        {
            proof {
                let t = vs.subrange(0, i as int);
                assert(t.drop_last() =~= vs.subrange(0, i - 1));
                assert(t.last() == vs[i - 1]);
            }
            if self.scoped_vars[i - 1].0 == *name {
                return Some(self.scoped_vars[i - 1].1);
            }
            i = i - 1;
        }
        assert(vs.subrange(0, 0) =~= Seq::<(Seq<char>, VarId)>::empty());
        None
    }

    /// The function that implements `op`, if any.
    pub fn get_op(&self, op: &OperatorType) -> (r: Option<VarId>)
        ensures
            r == self@.ops.get(op@),
    {
        let ghost os = view_ops(self.operators@);
        let mut i = self.operators.len();
        assert(os.subrange(0, i as int) =~= os);
        while i > 0
            invariant
                i <= self.operators@.len(),
                os == view_ops(self.operators@),
                latest(os, op@) == latest(os.subrange(0, i as int), op@),
            decreases i,
        {
            proof {
                let t = os.subrange(0, i as int);
                assert(t.drop_last() =~= os.subrange(0, i - 1));
                assert(t.last() == os[i - 1]);
            }
            if self.operators[i - 1].0.equals(op) {
                return Some(self.operators[i - 1].1);
            }
            i = i - 1;
        }
        assert(os.subrange(0, 0) =~= Seq::<(SpecOperatorType, VarId)>::empty());
        None
    }

    /// A copy of this context.
    pub fn copy(&self) -> (r: Self)
        ensures
            r@ == self@,
    {
        let mut vs: Vec<(String, VarId)> = Vec::new();
        let mut i: usize = 0;
        while i < self.scoped_vars.len()
            invariant
                i <= self.scoped_vars@.len(),
                vs@.len() == i,
                forall|k: int| #![trigger vs@[k]] 0 <= k < i ==> vs@[k].0@ == self.scoped_vars@[k].0@ && vs@[k].1 == self.scoped_vars@[k].1,
            decreases self.scoped_vars@.len() - i,
        {
            vs.push((self.scoped_vars[i].0.clone(), self.scoped_vars[i].1));
            i = i + 1;
        }
        let mut os: Vec<(OperatorType, VarId)> = Vec::new();
        let mut j: usize = 0;
        while j < self.operators.len()
            invariant
                j <= self.operators@.len(),
                os@.len() == j,
                forall|k: int| #![trigger os@[k]] 0 <= k < j ==> os@[k].0@ == self.operators@[k].0@ && os@[k].1 == self.operators@[k].1,
            decreases self.operators@.len() - j,
        {
            os.push((self.operators[j].0.copy(), self.operators[j].1));
            j = j + 1;
        }
        assert(view_vars(vs@) =~= view_vars(self.scoped_vars@));
        assert(view_ops(os@) =~= view_ops(self.operators@));
        TranslationContext { typechecking_context: self.typechecking_context.copy(), scoped_vars: vs, operators: os }
    }
}

impl Clone for TranslationContext {
    fn clone(&self) -> (r: Self)
        ensures
            r@ == self@,
    {
        self.copy()
    }
}

/// Why an expression cannot be lowered.
#[derive(Debug)]
pub enum TranslationError {
    /// No function implements the operator `op` for the operands' types: where
    /// the operands came from and their types, where known.
    UndefinedOperation { op: &'static str, a: Option<Site>, b: Option<Site>, ta: Option<Type>, tb: Option<Type> },
    /// A name that stands for nothing, and where it was written.
    UnknownVariable(String, Site),
}

/// The model of a [`TranslationError`].
pub enum SpecTranslationError {
    UndefinedOperation {
        op: Seq<char>,
        a: Option<Site>,
        b: Option<Site>,
        ta: Option<SpecType>,
        tb: Option<SpecType>,
    },
    UnknownVariable(Seq<char>, Site),
}

impl View for TranslationError {
    type V = SpecTranslationError;

    open spec fn view(&self) -> SpecTranslationError {
        match self {
            TranslationError::UndefinedOperation { op, a, b, ta, tb } => SpecTranslationError::UndefinedOperation {
                op: op@,
                a: *a,
                b: *b,
                ta: opt_view(*ta),
                tb: opt_view(*tb),
            },
            TranslationError::UnknownVariable(n, s) => SpecTranslationError::UnknownVariable(n@, *s),
        }
    }
}

/// The site of an optional debug info.
pub open spec fn site_of(d: Option<DebugInfo>) -> Option<Site> {
    match d {
        Some(d) => Some(d.site),
        None => None,
    }
}

/// The error for operator `op` on the lowered operands `x` and `y` of types `tx` and `ty`.
pub open spec fn undefined(
    op: Seq<char>,
    x: abt::SpecExpr,
    y: abt::SpecExpr,
    tx: Option<SpecType>,
    ty: Option<SpecType>,
) -> SpecTranslationError {
    SpecTranslationError::UndefinedOperation {
        op,
        a: site_of(debug_of(x)),
        b: site_of(debug_of(y)),
        ta: tx,
        tb: ty,
    }
}

impl TranslationError {
    /// The error for operator `op` on the operands `e0` and `e1` of types `t0` and `t1`.
    fn undefined_operation(op: &'static str, e0: &abt::Expr, e1: &abt::Expr, t0: Option<Type>, t1: Option<Type>) -> (r: Self)
        ensures
            r@ == undefined(op@, e0@, e1@, opt_view(t0), opt_view(t1)),
    {
        let a = match e0.debug_info() {
            Some(d) => Some(d.site().copy()),
            None => None,
        };
        let b = match e1.debug_info() {
            Some(d) => Some(d.site().copy()),
            None => None,
        };
        TranslationError::UndefinedOperation { op, a, b, ta: t0, tb: t1 }
    }
}

/// The value of the bound tree for a value of the surface syntax.
pub open spec fn value_of(v: ast::SpecValue) -> abt::SpecValue {
    match v {
        ast::SpecValue::Integer(i) => abt::SpecValue::Integer(i),
        ast::SpecValue::Double(d) => abt::SpecValue::Double(d),
        ast::SpecValue::String(s) => abt::SpecValue::String(s),
    }
}

/// The model of what lowering returns.
pub open spec fn result_view(r: Result<abt::Expr, TranslationError>) -> Result<abt::SpecExpr, SpecTranslationError> {
    match r {
        Ok(e) => Ok(e@),
        Err(e) => Err(e@),
    }
}

/// The lowering of `e` in context `c` when the counter of identifiers stands
/// at `next`: the result and where the counter stands after it.
///
/// `None` stands for an input on which lowering stops instead of
/// returning: a negation, subtraction, multiplication, division, function, enum
/// or struct, which it does not lower yet, or an operand on which the type
/// checker stops.
pub open spec fn tr(c: SpecTranslationContext, e: ast::SpecExpr, next: usize) -> Option<(Result<abt::SpecExpr, SpecTranslationError>, usize)>
    decreases e,
{
    match e {
        ast::SpecExpr::Value(v, d) => Some((Ok(abt::SpecExpr::Value(value_of(v), Some(d))), next)),
        ast::SpecExpr::Var(n, d) => match c.vars.get(n) {
            Some(id) => Some((Ok(abt::SpecExpr::Var(id, Some(d))), next)),
            None => Some((Err(SpecTranslationError::UnknownVariable(n, d.site)), next)),
        },
        ast::SpecExpr::Add(a, b, _) => match tr(c, *a, next) {
            None => None,
            Some((Err(err), n1)) => Some((Err(err), n1)),
            Some((Ok(x), n1)) => match tr(c, *b, n1) {
                None => None,
                Some((Err(err), n2)) => Some((Err(err), n2)),
                Some((Ok(y), n2)) => match (tc(c.types, x), tc(c.types, y)) {
                    (Some(tx), Some(ty)) => match (tx, ty) {
                        (Some(t0), Some(t1)) => match c.ops.get(SpecOperatorType::Add(canon(t0), canon(t1))) {
                            Some(op) => Some((Ok(abt::SpecExpr::Call { func: op, args: seq![x, y], debug: None }), n2)),
                            None => Some((Err(undefined("+"@, x, y, tx, ty)), n2)),
                        },
                        _ => Some((Err(undefined("+"@, x, y, tx, ty)), n2)),
                    },
                    _ => None,
                },
            },
        },
        ast::SpecExpr::Let { name, rhs, then, .. } => match tr(c, *rhs, next) {
            None => None,
            Some((Err(err), n1)) => Some((Err(err), n1)),
            Some((Ok(x), n1)) => match tr(c.with_var(name, VarId(n1)), *then, n1.wrapping_add(1)) {
                None => None,
                Some((Err(err), n2)) => Some((Err(err), n2)),
                Some((Ok(y), n2)) => Some(
                    (Ok::<abt::SpecExpr, SpecTranslationError>(abt::SpecExpr::Let { bind: seq![(VarId(n1), x)], expr: Box::new(y), debug: None }), n2),
                ),
            },
        },
        _ => None,
    }
}

/// Lowers `ast` in `ctx` as [`translate`] does; `None` where lowering stops
/// instead of returning (see [`tr`]).
pub fn try_translate(ctx: &TranslationContext, ast: &ast::Expr, counter: &mut IdCounter) -> (r: Option<
    Result<abt::Expr, TranslationError>,
>)
    ensures
        match r {
            Some(res) => tr(ctx@, ast@, old(counter).next_id()) == Some((result_view(res), final(counter).next_id())),
            None => tr(ctx@, ast@, old(counter).next_id()) is None,
        },
    decreases ast,
{
    match ast {
        ast::Expr::Value(value, debug_info) => {
            let v = match value {
                ast::Value::Integer(v) => abt::Value::Integer(*v),
                ast::Value::Double(v) => abt::Value::Double(v.copy()),
                ast::Value::String(v) => abt::Value::String(v.clone()),
            };
            assert(v@ == value_of(value@));
            let r = abt::Expr::Value(v, Some(debug_info.copy()));
            assert(r@ == abt::SpecExpr::Value(value_of(value@), Some(*debug_info)));
            Some(Ok(r))
        },
        ast::Expr::Var(v, debug_info) => match ctx.get_var(v) {
            Some(id) => Some(Ok(abt::Expr::Var(id, Some(debug_info.copy())))),
            None => Some(Err(TranslationError::UnknownVariable(v.clone(), debug_info.site().copy()))),
        },
        ast::Expr::Add(e0, e1, _) => {
            let e0 = match try_translate(ctx, e0, counter) {
                Some(Ok(e)) => e,
                other => {
                    return other;
                },
            };
            let e1 = match try_translate(ctx, e1, counter) {
                Some(Ok(e)) => e,
                other => {
                    return other;
                },
            };
            let t0 = match try_typecheck(ctx.get_typechecking_context(), &e0) {
                Ok(t) => t,
                Err(_) => {
                    return None;
                },
            };
            let t1 = match try_typecheck(ctx.get_typechecking_context(), &e1) {
                Ok(t) => t,
                Err(_) => {
                    return None;
                },
            };
            if t0.is_none() || t1.is_none() {
                return Some(Err(TranslationError::undefined_operation("+", &e0, &e1, t0, t1)));
            }
            let t0 = t0.unwrap();
            let t1 = t1.unwrap();
            match ctx.get_op(&OperatorType::Add(t0.copy(), t1.copy())) {
                Some(op) => {
                    let ghost x = e0@;
                    let ghost y = e1@;
                    let args = vec![e0, e1];
                    assert(abt::view_exprs(args@) =~= seq![x, y]);
                    Some(Ok(abt::Expr::Call { func: op, args, debug: None }))
                },
                None => Some(Err(TranslationError::undefined_operation("+", &e0, &e1, Some(t0), Some(t1)))),
            }
        },
        ast::Expr::Let { name, rhs, then, .. } => {
            let rhs = match try_translate(ctx, rhs, counter) {
                Some(Ok(e)) => e,
                other => {
                    return other;
                },
            };
            let var_id = VarId::new(counter);
            let mut subctx = ctx.clone();
            subctx.set_var(name, var_id);
            let then = match try_translate(&subctx, then, counter) {
                Some(Ok(e)) => e,
                other => {
                    return other;
                },
            };
            let ghost x = rhs@;
            let bind = vec![(var_id, rhs)];
            assert(abt::view_binds(bind@) =~= seq![(var_id, x)]);
            Some(Ok(abt::Expr::Let { bind, expr: Box::new(then), debug: None }))
        },
        _ => None,
    }
}

/// Lowers `ast` in `ctx`, taking fresh identifiers for the names that it
/// binds from `counter`.
pub fn translate(ctx: &TranslationContext, ast: &ast::Expr, counter: &mut IdCounter) -> (r: Result<abt::Expr, TranslationError>)
    requires
        tr(ctx@, ast@, old(counter).next_id()) is Some,
    ensures
        tr(ctx@, ast@, old(counter).next_id()) == Some((result_view(r), final(counter).next_id())),
{
    try_translate(ctx, ast, counter).unwrap()
}

/// Law: after `name` is made to stand for `id`, it stands for `id`, and every
/// other name stands for what it stood for before.
pub proof fn lemma_scope_read_back(c: SpecTranslationContext, name: Seq<char>, id: VarId)
    ensures
        c.with_var(name, id).vars.get(name) == Some(id),
        forall|other: Seq<char>| other != name ==> #[trigger] c.with_var(name, id).vars.get(other) == c.vars.get(other),
{
}

/// The type of a literal of the surface syntax.
pub open spec fn literal_type(v: ast::SpecValue) -> SpecType {
    match v {
        ast::SpecValue::Integer(_) => SpecType::Integer,
        ast::SpecValue::Double(_) => SpecType::Double,
        ast::SpecValue::String(_) => SpecType::String,
    }
}

/// Law: a literal lowers to a value of the bound tree whose type is the
/// literal's, taking no identifier.
pub proof fn lemma_lowered_literal_type(c: SpecTranslationContext, v: ast::SpecValue, d: DebugInfo, next: usize)
    ensures
        tr(c, ast::SpecExpr::Value(v, d), next) matches Some((Ok(x), n)) && n == next && tc(c.types, x) == Some(
            Some(literal_type(v)),
        ),
{
}

/// Law: in the body of a `let`, its name stands for the identifier taken for
/// it: the body `name` alone lowers to that identifier.
pub proof fn lemma_let_scoping(
    c: SpecTranslationContext,
    name: Seq<char>,
    rhs: ast::SpecExpr,
    d: DebugInfo,
    debug: DebugInfo,
    next: usize,
)
    requires
        tr(c, rhs, next) matches Some((Ok(_), _)),
    ensures
        ({
            let (x, n1) = (tr(c, rhs, next)->Some_0.0->Ok_0, tr(c, rhs, next)->Some_0.1);
            tr(c, ast::SpecExpr::Let { name, rhs: Box::new(rhs), then: Box::new(ast::SpecExpr::Var(name, d)), debug }, next)
                == Some((
                Ok::<abt::SpecExpr, SpecTranslationError>(abt::SpecExpr::Let {
                    bind: seq![(VarId(n1), x)],
                    expr: Box::new(abt::SpecExpr::Var(VarId(n1), Some(d))),
                    debug: None,
                }),
                n1.wrapping_add(1),
            ))
        }),
{
    let (x, n1) = (tr(c, rhs, next)->Some_0.0->Ok_0, tr(c, rhs, next)->Some_0.1);
    let c1 = c.with_var(name, VarId(n1));
    assert(c1.vars.get(name) == Some(VarId(n1)));
    let body = ast::SpecExpr::Var(name, d);
    assert(tr(c1, body, n1.wrapping_add(1)) == Some((
        Ok::<abt::SpecExpr, SpecTranslationError>(abt::SpecExpr::Var(VarId(n1), Some(d))),
        n1.wrapping_add(1),
    )));
    let e = ast::SpecExpr::Let { name, rhs: Box::new(rhs), then: Box::new(body), debug };
    assert(tr(c, e, next) == match tr(c1, body, n1.wrapping_add(1)) {
        Some((Ok(y), n2)) => Some(
            (Ok::<abt::SpecExpr, SpecTranslationError>(abt::SpecExpr::Let { bind: seq![(VarId(n1), x)], expr: Box::new(y), debug: None }), n2),
        ),
        _ => None,
    });
}


/// Whether `v` is the identifier of a name in scope or of an operator's function.
pub open spec fn known_id(c: SpecTranslationContext, v: VarId) -> bool {
    (exists|n: Seq<char>| #[trigger] c.vars.get(n) == Some(v)) || (exists|o: SpecOperatorType| #[trigger] c.ops.get(o) == Some(v))
}

/// Law: what lowering produces uses from outside only the identifiers of the
/// names in scope and of the operators' functions.
pub proof fn lemma_lowered_free_vars(c: SpecTranslationContext, e: ast::SpecExpr, next: usize)
    requires
        tr(c, e, next) matches Some((Ok(_), _)),
    ensures
        forall|i: int|
            0 <= i < abt::unbound(tr(c, e, next)->Some_0.0->Ok_0).len() ==> known_id(
                c,
                #[trigger] abt::unbound(tr(c, e, next)->Some_0.0->Ok_0)[i],
            ),
    decreases e,
{
    let x = tr(c, e, next)->Some_0.0->Ok_0;
    match e {
        ast::SpecExpr::Value(_, _) => {},
        ast::SpecExpr::Var(n, d) => {
            let id = c.vars.get(n)->Some_0;
            assert(abt::unbound(x) == seq![id]);
            assert(c.vars.get(n) == Some(id));
        },
        ast::SpecExpr::Add(a, b, _) => {
            let (xa, n1) = (tr(c, *a, next)->Some_0.0->Ok_0, tr(c, *a, next)->Some_0.1);
            let xb = tr(c, *b, n1)->Some_0.0->Ok_0;
            lemma_lowered_free_vars(c, *a, next);
            lemma_lowered_free_vars(c, *b, n1);
            let tx = tc(c.types, xa)->Some_0->Some_0;
            let ty = tc(c.types, xb)->Some_0->Some_0;
            let op = c.ops.get(SpecOperatorType::Add(canon(tx), canon(ty)))->Some_0;
            assert(x == abt::SpecExpr::Call { func: op, args: seq![xa, xb], debug: None });
            let args = seq![xa, xb];
            assert(args.drop_first() =~= seq![xb]);
            assert(seq![xb].drop_first() =~= Seq::<abt::SpecExpr>::empty());
            assert(abt::unbound_all(Seq::<abt::SpecExpr>::empty()) == Seq::<VarId>::empty());
            assert(seq![xb][0] == xb);
            assert(abt::unbound_all(seq![xb]) == abt::unbound(xb) + Seq::<VarId>::empty());
            assert(abt::unbound(xb) + Seq::<VarId>::empty() =~= abt::unbound(xb));
            assert(args[0] == xa);
            assert(abt::unbound_all(args) == abt::unbound(xa) + abt::unbound_all(seq![xb]));
            assert(abt::unbound(x) =~= seq![op] + (abt::unbound(xa) + abt::unbound(xb)));
            assert(c.ops.get(SpecOperatorType::Add(canon(tx), canon(ty))) == Some(op));
            assert forall|i: int| 0 <= i < abt::unbound(x).len() implies known_id(c, #[trigger] abt::unbound(x)[i]) by {
                if i == 0 {
                } else if i < 1 + abt::unbound(xa).len() {
                    assert(abt::unbound(x)[i] == abt::unbound(xa)[i - 1]);
                } else {
                    assert(abt::unbound(x)[i] == abt::unbound(xb)[i - 1 - abt::unbound(xa).len()]);
                }
            }
        },
        ast::SpecExpr::Let { name, rhs, then, .. } => {
            let (xr, n1) = (tr(c, *rhs, next)->Some_0.0->Ok_0, tr(c, *rhs, next)->Some_0.1);
            let c1 = c.with_var(name, VarId(n1));
            let y = tr(c1, *then, n1.wrapping_add(1))->Some_0.0->Ok_0;
            lemma_lowered_free_vars(c1, *then, n1.wrapping_add(1));
            let bind = seq![(VarId(n1), xr)];
            assert(x == abt::SpecExpr::Let { bind, expr: Box::new(y), debug: None });
            abt::lemma_let_unbound(bind, y, None);
            assert forall|i: int| 0 <= i < abt::unbound(x).len() implies known_id(c, #[trigger] abt::unbound(x)[i]) by {
                let v = abt::unbound(x)[i];
                assert(!abt::binds_var(bind, v));
                assert(bind[0].0 == VarId(n1));
                assert(v != VarId(n1));
                assert(abt::unbound(y).contains(v));
                let k = choose|k: int| 0 <= k < abt::unbound(y).len() && abt::unbound(y)[k] == v;
                assert(known_id(c1, abt::unbound(y)[k]));
                if exists|n2: Seq<char>| #[trigger] c1.vars.get(n2) == Some(v) {
                    let n2 = choose|n2: Seq<char>| #[trigger] c1.vars.get(n2) == Some(v);
                    assert(n2 != name);
                    assert(c.vars.get(n2) == Some(v));
                } else {
                    let o = choose|o: SpecOperatorType| #[trigger] c1.ops.get(o) == Some(v);
                    assert(c.ops.get(o) == Some(v));
                }
            }
        },
        _ => {},
    }
}

/// Law: lowering in a context with no names and no operators yields an
/// expression that uses no variable from outside.
pub proof fn lemma_lowered_closed(c: SpecTranslationContext, e: ast::SpecExpr, next: usize)
    requires
        c.vars == Map::<Seq<char>, VarId>::empty(),
        c.ops == Map::<SpecOperatorType, VarId>::empty(),
        tr(c, e, next) matches Some((Ok(_), _)),
    ensures
        abt::unbound(tr(c, e, next)->Some_0.0->Ok_0).len() == 0,
{
    lemma_lowered_free_vars(c, e, next);
    let u = abt::unbound(tr(c, e, next)->Some_0.0->Ok_0);
    if u.len() > 0 {
        assert(known_id(c, u[0]));
        if exists|n: Seq<char>| #[trigger] c.vars.get(n) == Some(u[0]) {
            let n = choose|n: Seq<char>| #[trigger] c.vars.get(n) == Some(u[0]);
            assert(c.vars.get(n) is None);
        } else {
            let o = choose|o: SpecOperatorType| #[trigger] c.ops.get(o) == Some(u[0]);
            assert(c.ops.get(o) is None);
        }
    }
}


/// Law: lowering a `let` lowers its right-hand side first and returns its
/// error as it is; otherwise it takes the next identifier for the name, lowers
/// the body with the name standing for that identifier (hiding any outer
/// binding of the name), returns the body's error as it is, and else binds the
/// identifier to the lowered right-hand side around the lowered body.
pub proof fn lemma_let_lowering(
    c: SpecTranslationContext,
    name: Seq<char>,
    rhs: ast::SpecExpr,
    then: ast::SpecExpr,
    debug: DebugInfo,
    next: usize,
)
    ensures
        ({
            let e = ast::SpecExpr::Let { name, rhs: Box::new(rhs), then: Box::new(then), debug };
            &&& tr(c, rhs, next) matches Some((Err(err), n1)) ==> tr(c, e, next) == Some((
                Err::<abt::SpecExpr, SpecTranslationError>(err),
                n1,
            ))
            &&& tr(c, rhs, next) matches Some((Ok(x), n1)) ==> {
                let c1 = c.with_var(name, VarId(n1));
                &&& c1.vars.get(name) == Some(VarId(n1))
                &&& tr(c, e, next) == match tr(c1, then, n1.wrapping_add(1)) {
                    None => None,
                    Some((Err(err), n2)) => Some((Err(err), n2)),
                    Some((Ok(y), n2)) => Some(
                        (
                            Ok::<abt::SpecExpr, SpecTranslationError>(
                                abt::SpecExpr::Let { bind: seq![(VarId(n1), x)], expr: Box::new(y), debug: None },
                            ),
                            n2,
                        ),
                    ),
                }
            }
        }),
{
}

/// Law: lowering `a + b` lowers `a`, then `b`, returning the first error as it
/// is; with both lowered, and their types (as the type checker finds them in
/// the context) both known, it is a call of the function that implements `+`
/// on those types, and where there is none, or a type is missing, the error
/// names the operation, its operands and their types; where the type checker
/// stops on an operand, so does lowering.
pub proof fn lemma_add_lowering(c: SpecTranslationContext, a: ast::SpecExpr, b: ast::SpecExpr, d: DebugInfo, next: usize)
    ensures
        ({
            let e = ast::SpecExpr::Add(Box::new(a), Box::new(b), d);
            &&& tr(c, a, next) matches Some((Err(err), n1)) ==> tr(c, e, next) == Some((
                Err::<abt::SpecExpr, SpecTranslationError>(err),
                n1,
            ))
            &&& tr(c, a, next) matches Some((Ok(x), n1)) ==> {
                &&& tr(c, b, n1) matches Some((Err(err), n2)) ==> tr(c, e, next) == Some((
                    Err::<abt::SpecExpr, SpecTranslationError>(err),
                    n2,
                ))
                &&& tr(c, b, n1) matches Some((Ok(y), n2)) ==> {
                    match (tc(c.types, x), tc(c.types, y)) {
                        (Some(Some(t0)), Some(Some(t1))) => tr(c, e, next) == Some((
                            match c.ops.get(SpecOperatorType::Add(canon(t0), canon(t1))) {
                                Some(op) => Ok(abt::SpecExpr::Call { func: op, args: seq![x, y], debug: None }),
                                None => Err(undefined("+"@, x, y, Some(t0), Some(t1))),
                            },
                            n2,
                        )),
                        (Some(tx), Some(ty)) => tr(c, e, next) == Some((
                            Err::<abt::SpecExpr, SpecTranslationError>(undefined("+"@, x, y, tx, ty)),
                            n2,
                        )),
                        _ => tr(c, e, next) is None,
                    }
                }
            }
        }),
{
}

} // verus!
