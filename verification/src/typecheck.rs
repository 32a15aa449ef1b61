//! Type synthesis for the bound tree.
use vstd::prelude::*;
use std::collections::HashMap;
use crate::debug::DebugInfo;
use crate::abt::{
    canon, copy_types, view_binds, view_entries, view_exprs, view_params, view_types, Builtin, Expr,
    FieldId, SpecExpr, SpecType, SpecValue, Type, TypeId, Value, VarId,
};

verus! {

broadcast use vstd::std_specs::hash::group_hash_axioms;

/// What the type checker knows: named types, the types of variables, and which
/// named type each field belongs to.
pub struct TypecheckContext {
    type_references: HashMap<usize, Type>,
    known_var_types: HashMap<usize, Type>,
    field_owners: HashMap<usize, TypeId>,
}

/// The model of a [`TypecheckContext`], keyed by the identifiers' numbers.
pub struct SpecContext {
    pub types: Map<usize, SpecType>,
    pub vars: Map<usize, SpecType>,
    pub owners: Map<usize, TypeId>,
}

impl View for TypecheckContext {
    type V = SpecContext;

    closed spec fn view(&self) -> SpecContext {
        SpecContext {
            types: self.type_references@.map_values(|t: Type| t@),
            vars: self.known_var_types@.map_values(|t: Type| t@),
            owners: self.field_owners@,
        }
    }
}

impl SpecContext {
    /// The context with variable `v` given type `t`.
    pub open spec fn with_var(self, v: VarId, t: SpecType) -> SpecContext {
        SpecContext { vars: self.vars.insert(v.0, t), ..self }
    }

    /// The named type `id`, if it is known.
    pub open spec fn resolve(self, id: TypeId) -> Option<SpecType> {
        self.types.index_opt(id.0)
    }

    /// The type that owns field `f`, if any.
    pub open spec fn owner(self, f: FieldId) -> Option<TypeId> {
        self.owners.index_opt(f.0)
    }

    /// The type of variable `v`: a reference to a named type is resolved once.
    pub open spec fn var_type(self, v: VarId) -> Option<SpecType> {
        match self.vars.index_opt(v.0) {
            Some(SpecType::Ref(id)) => self.resolve(id),
            t => t,
        }
    }

    /// The context with the parameters added in order, a later one overriding an earlier one.
    pub open spec fn with_params(self, ps: Seq<(VarId, SpecType)>) -> SpecContext
        decreases ps.len(),
    {
        if ps.len() == 0 {
            self
        } else {
            self.with_var(ps[0].0, ps[0].1).with_params(ps.drop_first())
        }
    }
}

/// The type of the last entry for field `f`, if there is one: the type that
/// a map built from the entries binds `f` to.
pub open spec fn lookup_field(es: Seq<(FieldId, SpecType)>, f: FieldId) -> Option<SpecType>
    decreases es.len(),
{
    if es.len() == 0 {
        None
    } else if es.last().0 == f {
        Some(es.last().1)
    } else {
        lookup_field(es.drop_last(), f)
    }
}

/// The type of the builtin integer addition.
pub open spec fn addi_type() -> SpecType {
    SpecType::Function {
        params: seq![SpecType::Integer, SpecType::Integer],
        ret: Box::new(SpecType::Integer),
    }
}

/// Whether every field of a struct value belongs to the same owner as the first.
pub open spec fn same_owners(c: SpecContext, fs: Seq<(FieldId, SpecValue)>) -> bool {
    forall|i: int| 0 <= i < fs.len() ==> #[trigger] c.owner(fs[i].0) == c.owner(fs[0].0)
}

/// The type synthesised for `e` in context `c`.
///
/// `Some(t)` is what the checker returns (`t` itself may be `None`, for an
/// expression without a type); `None` stands for an input on which the checker
/// stops with a type mismatch instead of returning.
pub open spec fn tc(c: SpecContext, e: SpecExpr) -> Option<Option<SpecType>>
    decreases e,
{
    match e {
        SpecExpr::Value(v, _) => match v {
            SpecValue::Unit => Some(Some(SpecType::Unit)),
            SpecValue::Integer(_) => Some(Some(SpecType::Integer)),
            SpecValue::Double(_) => Some(Some(SpecType::Double)),
            SpecValue::String(_) => Some(Some(SpecType::String)),
            SpecValue::Function { params, body } => match tc(c.with_params(params), *body) {
                None => None,
                Some(None) => Some(None),
                Some(Some(ret)) => Some(
                    Some(
                        SpecType::Function {
                            params: Seq::new(params.len(), |i: int| params[i].1),
                            ret: Box::new(ret),
                        },
                    ),
                ),
            },
            SpecValue::Enum { field, .. } => match c.owner(field) {
                Some(id) => Some(c.resolve(id)),
                None => Some(None),
            },
            SpecValue::Struct { fields } => if fields.len() > 0 && same_owners(c, fields) {
                match c.owner(fields[0].0) {
                    Some(id) => Some(c.resolve(id)),
                    None => Some(None),
                }
            } else {
                Some(None)
            },
        },
        SpecExpr::Var(v, _) => Some(c.var_type(v)),
        SpecExpr::Let { bind, expr, .. } => match tc_binds(c, bind) {
            None => None,
            Some(sub) => tc(sub, *expr),
        },
        SpecExpr::Call { func, args, .. } => match c.var_type(func) {
            Some(SpecType::Function { params, ret }) => match tc_args(c, args, params) {
                None => None,
                Some(true) => Some(Some(*ret)),
                Some(false) => Some(None),
            },
            _ => None,
        },
        SpecExpr::Builtin(Builtin::AddI(_, _)) => Some(Some(addi_type())),
        SpecExpr::Builtin(Builtin::ExtractField(v, f)) => match c.var_type(v) {
            None => Some(None),
            Some(SpecType::Enum { kinds }) => Some(lookup_field(kinds, f)),
            Some(SpecType::Struct { fields }) => Some(lookup_field(fields, f)),
            Some(SpecType::Ref(id)) => match c.resolve(id) {
                Some(SpecType::Enum { kinds }) => Some(lookup_field(kinds, f)),
                Some(SpecType::Struct { fields }) => Some(lookup_field(fields, f)),
                _ => None,
            },
            _ => None,
        },
    }
}

/// The context after checking the bindings in order, each one seeing those before
/// it; `None` when a binding has no type or the checker stops on one.
pub open spec fn tc_binds(c: SpecContext, bs: Seq<(VarId, SpecExpr)>) -> Option<SpecContext>
    decreases bs,
{
    if bs.len() == 0 {
        Some(c)
    } else {
        match tc(c, bs[0].1) {
            Some(Some(t)) => tc_binds(c.with_var(bs[0].0, t), bs.drop_first()),
            _ => None,
        }
    }
}

/// Checks the arguments against the parameters pairwise, as far as both go:
/// `Some(true)` when all agree, `Some(false)` when an argument has no type
/// (before any disagreement), `None` when one disagrees or the checker stops.
pub open spec fn tc_args(c: SpecContext, args: Seq<SpecExpr>, params: Seq<SpecType>) -> Option<bool>
    decreases args,
{
    if args.len() == 0 || params.len() == 0 {
        Some(true)
    } else {
        match tc(c, args[0]) {
            None => None,
            Some(None) => Some(false),
            Some(Some(t)) => if canon(t) == canon(params[0]) {
                tc_args(c, args.drop_first(), params.drop_first())
            } else {
                None
            },
        }
    }
}


/// The model of an optional type.
pub open spec fn opt_view(t: Option<Type>) -> Option<SpecType> {
    match t {
        Some(t) => Some(t@),
        None => None,
    }
}

/// Why the checker stops on an expression.
#[derive(Debug)]
pub enum TypeMismatch {
    /// A `Let` binding has no type.
    UnknownType,
    /// A called variable has no type.
    UnknownFunctionType,
    /// An argument's type differs from the parameter's.
    Argument { arg: Type, param: Type },
    /// A called variable's type is not a function type.
    NotAFunction(Type),
    /// A field is taken from a value whose type is neither a struct nor an enum.
    NotStructOrEnum(Type),
    /// A reference to a named type that is not known.
    Unresolved(Type),
}

fn copy_opt(t: Option<&Type>) -> (r: Option<Type>)
    ensures
        opt_view(r) == match t {
            Some(t) => Some(t@),
            None => None::<SpecType>,
        },
{
    match t {
        Some(t) => Some(t.copy()),
        None => None,
    }
}

impl TypecheckContext {
    pub fn new() -> (r: Self)
        ensures
            r@.types == Map::<usize, SpecType>::empty(),
            r@.vars == Map::<usize, SpecType>::empty(),
            r@.owners == Map::<usize, TypeId>::empty(),
    {
        let r = Self {
            type_references: HashMap::new(),
            known_var_types: HashMap::new(),
            field_owners: HashMap::new(),
        };
        assert(r@.types =~= Map::empty());
        assert(r@.vars =~= Map::empty());
        r
    }

    /// A copy of this context.
    pub fn copy(&self) -> (r: Self)
        ensures
            r@ == self@,
    {
        Self {
            type_references: self.type_references.clone(),
            known_var_types: self.known_var_types.clone(),
            field_owners: self.field_owners.clone(),
        }
    }

    /// Names type `t` as `id`; every field of an enum or struct type is owned by `id`.
    pub fn add_type(&mut self, id: TypeId, t: Type)
        ensures
            final(self)@.types == old(self)@.types.insert(id.0, t@),
            final(self)@.vars == old(self)@.vars,
            final(self)@.owners == match t@ {
                SpecType::Enum { kinds } => owned_fields(old(self)@.owners, kinds, id),
                SpecType::Struct { fields } => owned_fields(old(self)@.owners, fields, id),
                _ => old(self)@.owners,
            },
    {
        let ghost t_view = t@;
        match &t {
            Type::Enum { kinds } => {
                self.own_fields(kinds, id);
            },
            Type::Struct { fields } => {
                self.own_fields(fields, id);
            },
            _ => {},
        }
        self.type_references.insert(id.0, t);
        assert(self@.types =~= old(self)@.types.insert(id.0, t_view));
    }

    fn own_fields(&mut self, es: &Vec<(FieldId, Type)>, id: TypeId)
        ensures
            final(self)@.types == old(self)@.types,
            final(self)@.vars == old(self)@.vars,
            final(self)@.owners == owned_fields(old(self)@.owners, view_entries(es@), id),
    {
        let ghost es_view = view_entries(es@);
        assert(es_view.subrange(0, es_view.len() as int) =~= es_view);
        let mut i: usize = 0;
        while i < es.len()
            invariant
                i <= es.len(),
                es_view == view_entries(es@),
                self@.types == old(self)@.types,
                self@.vars == old(self)@.vars,
                owned_fields(old(self)@.owners, es_view, id)
                    == owned_fields(self@.owners, es_view.subrange(i as int, es_view.len() as int), id),
            decreases es.len() - i,
        {
            let ghost before = self@.owners;
            self.field_owners.insert(es[i].0.0, id);
            proof {
                let rest = es_view.subrange(i as int, es_view.len() as int);
                assert(rest.drop_first() =~= es_view.subrange(i + 1, es_view.len() as int));
                assert(rest[0].0 == es@[i as int].0);
            }
            i = i + 1;
        }
        assert(es_view.subrange(es.len() as int, es_view.len() as int) =~= Seq::empty());
    }

    pub fn add_var(&mut self, var_id: VarId, var_type: Type)
        ensures
            final(self)@ == old(self)@.with_var(var_id, var_type@),
    {
        let ghost tv = var_type@;
        self.known_var_types.insert(var_id.0, var_type);
        assert(self@.vars =~= old(self)@.vars.insert(var_id.0, tv));
    }

    pub fn get_var_type(&self, var: &VarId) -> (r: Option<Type>)
        ensures
            opt_view(r) == self@.var_type(*var),
    {
        let t = self.known_var_types.get(&var.0);
        match t {
            Some(Type::Ref(tid)) => self.resolve_type(tid),
            _ => copy_opt(t),
        }
    }

    pub fn get_field_owner(&self, field: &FieldId) -> (r: Option<TypeId>)
        ensures
            r == self@.owner(*field),
    {
        match self.field_owners.get(&field.0) {
            Some(id) => Some(*id),
            None => None,
        }
    }

    pub fn resolve_type(&self, t: &TypeId) -> (r: Option<Type>)
        ensures
            opt_view(r) == self@.resolve(*t),
    {
        copy_opt(self.type_references.get(&t.0))
    }
}

impl Clone for TypecheckContext {
    fn clone(&self) -> (r: Self)
        ensures
            r@ == self@,
    {
        self.copy()
    }
}

/// The owner map after each field of `es`, in order, is given to `id`.
pub open spec fn owned_fields(owners: Map<usize, TypeId>, es: Seq<(FieldId, SpecType)>, id: TypeId) -> Map<usize, TypeId>
    decreases es.len(),
{
    if es.len() == 0 {
        owners
    } else {
        owned_fields(owners.insert(es[0].0.0, id), es.drop_first(), id)
    }
}


/// The type of the last entry for field `f`, if there is one.
fn lookup_entry(es: &Vec<(FieldId, Type)>, f: FieldId) -> (r: Option<Type>)
    ensures
        opt_view(r) == lookup_field(view_entries(es@), f),
{
    let ghost ev = view_entries(es@);
    let mut i: usize = es.len();
    assert(ev.subrange(0, ev.len() as int) =~= ev);
    while i > 0
        invariant
            i <= es.len(),
            ev == view_entries(es@),
            lookup_field(ev, f) == lookup_field(ev.subrange(0, i as int), f),
        decreases i,
    {
        proof {
            let t = ev.subrange(0, i as int);
            assert(t.drop_last() =~= ev.subrange(0, i - 1));
            assert(t.last() == ev[i - 1]);
        }
        if es[i - 1].0.0 == f.0 {
            return Some(es[i - 1].1.copy());
        }
        i = i - 1;
    }
    assert(ev.subrange(0, 0) =~= Seq::<(FieldId, SpecType)>::empty());
    None
}

fn same_owner(a: Option<TypeId>, b: Option<TypeId>) -> (r: bool)
    ensures
        r == (a == b),
{
    match (a, b) {
        (Some(x), Some(y)) => x.0 == y.0,
        (None, None) => true,
        _ => false,
    }
}

/// The type of `expr` in `ctx`, or why the checker stops on it.
#[verifier::loop_isolation(false)]
pub fn try_typecheck(ctx: &TypecheckContext, expr: &Expr) -> (r: Result<Option<Type>, TypeMismatch>)
    ensures
        match tc(ctx@, expr@) {
            None => r is Err,
            Some(t) => r is Ok && opt_view(r->Ok_0) == t,
        },
    decreases expr,
{
    match expr {
        Expr::Value(value, _) => match value {
            Value::Unit => Ok(Some(Type::Unit)),
            Value::Integer(_) => Ok(Some(Type::Integer)),
            Value::Double(_) => Ok(Some(Type::Double)),
            Value::String(_) => Ok(Some(Type::String)),
            Value::Function { params, body } => {
                let ghost pv = view_params(params@);
                let mut sub = ctx.copy();
                assert(pv.subrange(0, pv.len() as int) =~= pv);
                let mut i: usize = 0;
                while i < params.len()
                    invariant
                        i <= params.len(),
                        pv == view_params(params@),
                        ctx@.with_params(pv) == sub@.with_params(pv.subrange(i as int, pv.len() as int)),
                    decreases params.len() - i,
                {
                    proof {
                        let rest = pv.subrange(i as int, pv.len() as int);
                        assert(rest.drop_first() =~= pv.subrange(i + 1, pv.len() as int));
                        assert(rest[0] == pv[i as int]);
                    }
                    sub.add_var(params[i].0, params[i].1.copy());
                    i = i + 1;
                }
                assert(pv.subrange(pv.len() as int, pv.len() as int) =~= Seq::empty());
                assert(sub@ == ctx@.with_params(pv));
                assert(expr@ == SpecExpr::Value(value@, expr@->Value_1));
                assert(value@ == SpecValue::Function { params: pv, body: Box::new(body@) });
                let ret = try_typecheck(&sub, body)?;
                match ret {
                    None => Ok(None),
                    Some(ret) => {
                        let mut ps: Vec<Type> = Vec::new();
                        let mut j: usize = 0;
                        while j < params.len()
                            invariant
                                j <= params.len(),
                                ps@.len() == j,
                                forall|k: int| #![trigger ps@[k]] 0 <= k < j ==> ps@[k]@ == params@[k].1@,
                            decreases params.len() - j,
                        {
                            ps.push(params[j].1.copy());
                            j = j + 1;
                        }
                        assert(view_types(ps@) =~= Seq::new(pv.len(), |k: int| pv[k].1));
                        Ok(Some(Type::Function { params: ps, ret: Box::new(ret) }))
                    },
                }
            },
            Value::Enum { field, .. } => match ctx.get_field_owner(field) {
                Some(tid) => Ok(ctx.resolve_type(&tid)),
                None => Ok(None),
            },
            Value::Struct { fields } => {
                let ghost fv = crate::abt::view_fields(fields@);
                if fields.len() > 0 {
                    let first = ctx.get_field_owner(&fields[0].0);
                    let mut i: usize = 0;
                    while i < fields.len()
                        invariant
                            i <= fields.len(),
                            fields.len() > 0,
                            fv == crate::abt::view_fields(fields@),
                            first == ctx@.owner(fv[0].0),
                            forall|j: int| 0 <= j < i ==> #[trigger] ctx@.owner(fv[j].0) == first,
                        decreases fields.len() - i,
                    {
                        assert(fv[i as int].0 == fields@[i as int].0);
                        if !same_owner(ctx.get_field_owner(&fields[i].0), first) {
                            assert(!same_owners(ctx@, fv));
                            assert(value@ == SpecValue::Struct { fields: fv });
                            return Ok(None);
                        }
                        i = i + 1;
                    }
                    assert(same_owners(ctx@, fv));
                    match first {
                        Some(tid) => Ok(ctx.resolve_type(&tid)),
                        None => Ok(None),
                    }
                } else {
                    Ok(None)
                }
            },
        },
        Expr::Var(var_id, _) => Ok(ctx.get_var_type(var_id)),
        Expr::Let { bind, expr: body, .. } => {
            let ghost bv = view_binds(bind@);
            let mut sub = ctx.copy();
            assert(bv.subrange(0, bv.len() as int) =~= bv);
            let mut i: usize = 0;
            while i < bind.len()
                invariant
                    i <= bind.len(),
                    bv == view_binds(bind@),
                    tc_binds(ctx@, bv) == tc_binds(sub@, bv.subrange(i as int, bv.len() as int)),
                decreases bind.len() - i,
            {
                proof {
                    let rest = bv.subrange(i as int, bv.len() as int);
                    assert(rest.drop_first() =~= bv.subrange(i + 1, bv.len() as int));
                    assert(rest[0] == bv[i as int]);
                }
                let t = try_typecheck(&sub, &bind[i].1)?;
                match t {
                    Some(t) => sub.add_var(bind[i].0, t),
                    None => return Err(TypeMismatch::UnknownType),
                }
                i = i + 1;
            }
            assert(bv.subrange(bv.len() as int, bv.len() as int) =~= Seq::empty());
            try_typecheck(&sub, body)
        },
        Expr::Call { func, args, .. } => {
            let ft = match ctx.get_var_type(func) {
                Some(t) => t,
                None => return Err(TypeMismatch::UnknownFunctionType),
            };
            match ft {
                Type::Function { params, ret } => {
                    let ghost av = view_exprs(args@);
                    let ghost pv = view_types(params@);
                    assert(av.subrange(0, av.len() as int) =~= av);
                    assert(pv.subrange(0, pv.len() as int) =~= pv);
                    let mut i: usize = 0;
                    while i < args.len() && i < params.len()
                        invariant
                            i <= args.len(),
                            i <= params.len(),
                            av == view_exprs(args@),
                            pv == view_types(params@),
                            tc_args(ctx@, av, pv) == tc_args(
                                ctx@,
                                av.subrange(i as int, av.len() as int),
                                pv.subrange(i as int, pv.len() as int),
                            ),
                        decreases args.len() - i,
                    {
                        proof {
                            let ra = av.subrange(i as int, av.len() as int);
                            let rp = pv.subrange(i as int, pv.len() as int);
                            assert(ra.drop_first() =~= av.subrange(i + 1, av.len() as int));
                            assert(rp.drop_first() =~= pv.subrange(i + 1, pv.len() as int));
                            assert(ra[0] == av[i as int]);
                            assert(rp[0] == pv[i as int]);
                        }
                        match try_typecheck(ctx, &args[i])? {
                            Some(t) => {
                                if !t.equals(&params[i]) {
                                    return Err(TypeMismatch::Argument { arg: t, param: params[i].copy() });
                                }
                            },
                            None => return Ok(None),
                        }
                        i = i + 1;
                    }
                    proof {
                        if i == args.len() {
                            assert(av.subrange(i as int, av.len() as int).len() == 0);
                        } else {
                            assert(pv.subrange(i as int, pv.len() as int).len() == 0);
                        }
                    }
                    Ok(Some(*ret))
                },
                other => Err(TypeMismatch::NotAFunction(other)),
            }
        },
        Expr::Builtin(Builtin::AddI(_, _)) => {
            let r = Type::Function(&[Type::Integer, Type::Integer], Type::Integer);
            assert(view_types(seq![Type::Integer, Type::Integer]) =~= seq![SpecType::Integer, SpecType::Integer]);
            Ok(Some(r))
        },
        Expr::Builtin(Builtin::ExtractField(v, f)) => {
            let t = match ctx.get_var_type(v) {
                Some(t) => t,
                None => return Ok(None),
            };
            match t {
                Type::Enum { kinds } => Ok(lookup_entry(&kinds, *f)),
                Type::Struct { fields } => Ok(lookup_entry(&fields, *f)),
                Type::Ref(type_id) => match ctx.resolve_type(&type_id) {
                    Some(t) => match t {
                        Type::Enum { kinds } => Ok(lookup_entry(&kinds, *f)),
                        Type::Struct { fields } => Ok(lookup_entry(&fields, *f)),
                        other => Err(TypeMismatch::NotStructOrEnum(other)),
                    },
                    None => Err(TypeMismatch::Unresolved(Type::Ref(type_id))),
                },
                other => Err(TypeMismatch::NotStructOrEnum(other)),
            }
        },
    }
}

/// Whether the checker returns on `expr` in `ctx` rather than stopping with a mismatch.
pub open spec fn typechecks(ctx: SpecContext, expr: SpecExpr) -> bool {
    tc(ctx, expr) is Some
}

/// The type of `expr` in `ctx`: `None` for an expression without a type.
pub fn typecheck(ctx: &TypecheckContext, expr: &Expr) -> (r: Option<Type>)
    requires
        typechecks(ctx@, expr@),
    ensures
        Some(opt_view(r)) == tc(ctx@, expr@),
{
    match try_typecheck(ctx, expr) {
        Ok(t) => t,
        Err(_) => None,
    }
}


/// Law: after a variable is given a type, looking it up gives that type back
/// (a reference to a named type is resolved).
pub proof fn lemma_var_type_read_back(c: SpecContext, v: VarId, t: SpecType)
    ensures
        c.with_var(v, t).var_type(v) == match t {
            SpecType::Ref(id) => c.resolve(id),
            _ => Some(t),
        },
        forall|w: VarId| w.0 != v.0 ==> #[trigger] c.with_var(v, t).var_type(w) == c.var_type(w),
{
    assert forall|w: VarId| w.0 != v.0 implies #[trigger] c.with_var(v, t).var_type(w) == c.var_type(w) by {
        assert(c.with_var(v, t).vars.index_opt(w.0) == c.vars.index_opt(w.0));
    }
}

/// Giving the fields of `es` to `id` makes `id` the owner of each of them and
/// leaves the other fields' owners alone.
proof fn lemma_owned_fields(owners: Map<usize, TypeId>, es: Seq<(FieldId, SpecType)>, id: TypeId)
    ensures
        forall|i: int| 0 <= i < es.len() ==> #[trigger] owned_fields(owners, es, id).index_opt(es[i].0.0) == Some(id),
        forall|k: usize|
            (forall|i: int| 0 <= i < es.len() ==> #[trigger] es[i].0.0 != k) ==> #[trigger] owned_fields(owners, es, id).index_opt(k)
                == owners.index_opt(k),
    decreases es.len(),
{
    if es.len() > 0 {
        let rest = es.drop_first();
        let o1 = owners.insert(es[0].0.0, id);
        lemma_owned_fields(o1, rest, id);
        assert forall|i: int| 0 <= i < es.len() implies #[trigger] owned_fields(owners, es, id).index_opt(es[i].0.0) == Some(id) by {
            if i > 0 {
                assert(rest[i - 1] == es[i]);
            } else {
                if exists|j: int| 0 <= j < rest.len() && rest[j].0.0 == es[0].0.0 {
                    let j = choose|j: int| 0 <= j < rest.len() && rest[j].0.0 == es[0].0.0;
                    assert(owned_fields(o1, rest, id).index_opt(rest[j].0.0) == Some(id));
                } else {
                    assert forall|j: int| 0 <= j < rest.len() implies #[trigger] rest[j].0.0 != es[0].0.0 by {}
                    assert(o1.index_opt(es[0].0.0) == Some(id));
                }
            }
        }
        assert forall|k: usize|
            (forall|i: int| 0 <= i < es.len() ==> #[trigger] es[i].0.0 != k) implies #[trigger] owned_fields(owners, es, id).index_opt(k)
                == owners.index_opt(k) by {
            assert forall|i: int| 0 <= i < rest.len() implies #[trigger] rest[i].0.0 != k by {
                assert(rest[i] == es[i + 1]);
            }
            assert(es[0].0.0 != k);
            assert(o1.index_opt(k) == owners.index_opt(k));
        }
    }
}

/// Whether `t` is an enum or struct type with an entry for field `f`.
pub open spec fn has_field(t: SpecType, f: FieldId) -> bool {
    match t {
        SpecType::Enum { kinds } => exists|i: int| 0 <= i < kinds.len() && #[trigger] kinds[i].0 == f,
        SpecType::Struct { fields } => exists|i: int| 0 <= i < fields.len() && #[trigger] fields[i].0 == f,
        _ => false,
    }
}

/// Law: after a type is named, resolving the name gives the type back, and
/// each field of an enum or struct type belongs to it; other fields keep
/// their owners.
pub proof fn lemma_type_read_back(c: SpecContext, id: TypeId, t: SpecType)
    ensures
        ({
            let owners = match t {
                SpecType::Enum { kinds } => owned_fields(c.owners, kinds, id),
                SpecType::Struct { fields } => owned_fields(c.owners, fields, id),
                _ => c.owners,
            };
            let d = SpecContext { types: c.types.insert(id.0, t), vars: c.vars, owners };
            &&& d.resolve(id) == Some(t)
            &&& (forall|f: FieldId| #[trigger] has_field(t, f) ==> d.owner(f) == Some(id))
            &&& (forall|f: FieldId| !(#[trigger] has_field(t, f)) ==> d.owner(f) == c.owner(f))
        }),
{
    match t {
        SpecType::Enum { kinds } => lemma_owned_fields(c.owners, kinds, id),
        SpecType::Struct { fields } => lemma_owned_fields(c.owners, fields, id),
        _ => {},
    }
    let owners = match t {
        SpecType::Enum { kinds } => owned_fields(c.owners, kinds, id),
        SpecType::Struct { fields } => owned_fields(c.owners, fields, id),
        _ => c.owners,
    };
    assert forall|f: FieldId| #[trigger] has_field(t, f) implies owners.index_opt(f.0) == Some(id) by {
        match t {
            SpecType::Enum { kinds } => {
                let i = choose|i: int| 0 <= i < kinds.len() && kinds[i].0 == f;
                assert(owned_fields(c.owners, kinds, id).index_opt(kinds[i].0.0) == Some(id));
            },
            SpecType::Struct { fields } => {
                let i = choose|i: int| 0 <= i < fields.len() && fields[i].0 == f;
                assert(owned_fields(c.owners, fields, id).index_opt(fields[i].0.0) == Some(id));
            },
            _ => {},
        }
    }
    assert forall|f: FieldId| !(#[trigger] has_field(t, f)) implies owners.index_opt(f.0) == c.owners.index_opt(f.0) by {
        match t {
            SpecType::Enum { kinds } => {
                assert forall|i: int| 0 <= i < kinds.len() implies #[trigger] kinds[i].0.0 != f.0 by {
                    assert(kinds[i].0 != f);
                }
            },
            SpecType::Struct { fields } => {
                assert forall|i: int| 0 <= i < fields.len() implies #[trigger] fields[i].0.0 != f.0 by {
                    assert(fields[i].0 != f);
                }
            },
            _ => {},
        }
    }
}


/// Law: a struct value has a type only when it has fields that all belong to
/// the same named type, which is known; that type is the value's type.
pub proof fn lemma_struct_value_type(c: SpecContext, fields: Seq<(FieldId, SpecValue)>, d: Option<DebugInfo>, t: SpecType)
    requires
        tc(c, SpecExpr::Value(SpecValue::Struct { fields }, d)) == Some(Some(t)),
    ensures
        fields.len() > 0,
        forall|i: int| 0 <= i < fields.len() ==> #[trigger] c.owner(fields[i].0) == c.owner(fields[0].0),
        c.owner(fields[0].0) matches Some(id) && c.resolve(id) == Some(t),
{
}


/// Law: a struct value with at least one field, all of whose fields belong to
/// the same named type, has that type (as far as it is known); one with a field
/// that belongs to no type or to another type than its first field's has none.
pub proof fn lemma_struct_value_typed(c: SpecContext, fields: Seq<(FieldId, SpecValue)>, d: Option<DebugInfo>, id: TypeId)
    requires
        fields.len() > 0,
        c.owner(fields[0].0) == Some(id),
    ensures
        (forall|i: int| 0 <= i < fields.len() ==> #[trigger] c.owner(fields[i].0) == Some(id))
            ==> tc(c, SpecExpr::Value(SpecValue::Struct { fields }, d)) == Some(c.resolve(id)),
        (exists|i: int| 0 <= i < fields.len() && #[trigger] c.owner(fields[i].0) != Some(id))
            ==> tc(c, SpecExpr::Value(SpecValue::Struct { fields }, d)) == Some(None::<SpecType>),
{
}

/// Law: an enum value has the named type that its field belongs to, as far as
/// it is known, and no type where the field belongs to none.
pub proof fn lemma_enum_value_typed(c: SpecContext, field: FieldId, value: SpecValue, d: Option<DebugInfo>)
    ensures
        tc(c, SpecExpr::Value(SpecValue::Enum { field, value: Box::new(value) }, d)) == match c.owner(field) {
            Some(id) => Some(c.resolve(id)),
            None => Some(None::<SpecType>),
        },
{
}

/// Law: a binding of a `let` sees the bindings before it, and the body sees
/// them all: in `let x = d, y = x in y`, where `d` has a type that is not a
/// reference to a named type, `y` and the whole `let` have the type of `d`.
pub proof fn lemma_let_sees_earlier(
    c: SpecContext,
    x: VarId,
    y: VarId,
    d: SpecExpr,
    dx: Option<DebugInfo>,
    dy: Option<DebugInfo>,
    debug: Option<DebugInfo>,
    t: SpecType,
)
    requires
        tc(c, d) == Some(Some(t)),
        !(t is Ref),
    ensures
        tc(c, SpecExpr::Let { bind: seq![(x, d), (y, SpecExpr::Var(x, dx))], expr: Box::new(SpecExpr::Var(y, dy)), debug })
            == Some(Some(t)),
{
    let bs = seq![(x, d), (y, SpecExpr::Var(x, dx))];
    let c1 = c.with_var(x, t);
    assert(bs[0] == (x, d));
    assert(bs.drop_first() =~= seq![(y, SpecExpr::Var(x, dx))]);
    assert(c1.vars.contains_key(x.0));
    assert(c1.vars[x.0] == t);
    assert(c1.vars.index_opt(x.0) == Some(t));
    assert(c1.var_type(x) == Some(t));
    assert(tc(c1, SpecExpr::Var(x, dx)) == Some(Some(t)));
    let c2 = c1.with_var(y, t);
    let b2 = seq![(y, SpecExpr::Var(x, dx))];
    assert(b2[0] == (y, SpecExpr::Var(x, dx)));
    assert(b2.drop_first() =~= Seq::<(VarId, SpecExpr)>::empty());
    assert(tc_binds(c1, b2) == tc_binds(c2, b2.drop_first()));
    assert(tc_binds(c, bs) == Some(c2));
    assert(c2.vars.contains_key(y.0));
    assert(c2.vars[y.0] == t);
    assert(c2.vars.index_opt(y.0) == Some(t));
    assert(c2.var_type(y) == Some(t));
    assert(tc(c2, SpecExpr::Var(y, dy)) == Some(Some(t)));
}

/// Whether the first `j` arguments all have types, each the same type as its
/// parameter.
pub open spec fn args_agree(c: SpecContext, args: Seq<SpecExpr>, params: Seq<SpecType>, j: int) -> bool {
    forall|i: int|
        0 <= i < j ==> match #[trigger] tc(c, args[i]) {
            Some(Some(t)) => canon(t) == canon(params[i]),
            _ => false,
        }
}

/// Checking arguments that agree with their parameters goes on with the rest.
proof fn lemma_tc_args_skip(c: SpecContext, args: Seq<SpecExpr>, params: Seq<SpecType>, j: int)
    requires
        0 <= j <= args.len(),
        j <= params.len(),
        args_agree(c, args, params, j),
    ensures
        tc_args(c, args, params) == tc_args(c, args.skip(j), params.skip(j)),
    decreases j,
{
    if j > 0 {
        let a1 = args.drop_first();
        let p1 = params.drop_first();
        assert(match tc(c, args[0]) {
            Some(Some(t)) => canon(t) == canon(params[0]),
            _ => false,
        });
        assert forall|i: int| 0 <= i < j - 1 implies match #[trigger] tc(c, a1[i]) {
            Some(Some(t)) => canon(t) == canon(p1[i]),
            _ => false,
        } by {
            assert(a1[i] == args[i + 1]);
            assert(p1[i] == params[i + 1]);
            assert(match tc(c, args[i + 1]) {
                Some(Some(t)) => canon(t) == canon(params[i + 1]),
                _ => false,
            });
        }
        lemma_tc_args_skip(c, a1, p1, j - 1);
        assert(a1.skip(j - 1) =~= args.skip(j));
        assert(p1.skip(j - 1) =~= params.skip(j));
    } else {
        assert(args.skip(0) =~= args);
        assert(params.skip(0) =~= params);
    }
}

/// Law: the checker stops on a call of what is not known as a function. A call
/// of a function has its return type when each argument, as far as the
/// parameters go (their numbers are not compared), has its parameter's type.
/// Where an argument before which all agree has no type, the call has none;
/// where it has another type than its parameter, the checker stops.
pub proof fn lemma_call_type(c: SpecContext, func: VarId, args: Seq<SpecExpr>, debug: Option<DebugInfo>, j: int)
    ensures
        !(c.var_type(func) is Some && c.var_type(func)->Some_0 is Function)
            ==> tc(c, SpecExpr::Call { func, args, debug }) is None,
        c.var_type(func) matches Some(SpecType::Function { params, ret }) ==> {
            &&& (args_agree(c, args, params, if args.len() < params.len() { args.len() as int } else { params.len() as int })
                ==> tc(c, SpecExpr::Call { func, args, debug }) == Some(Some(*ret)))
            &&& (0 <= j < args.len() && j < params.len() && args_agree(c, args, params, j) && tc(c, args[j]) == Some(None::<SpecType>)
                ==> tc(c, SpecExpr::Call { func, args, debug }) == Some(None::<SpecType>))
            &&& (0 <= j < args.len() && j < params.len() && args_agree(c, args, params, j)
                && (tc(c, args[j]) is None || (tc(c, args[j]) matches Some(Some(t)) && canon(t) != canon(params[j])))
                ==> tc(c, SpecExpr::Call { func, args, debug }) is None)
        },
{
    if let Some(SpecType::Function { params, ret }) = c.var_type(func) {
        let n = if args.len() < params.len() { args.len() as int } else { params.len() as int };
        if args_agree(c, args, params, n) {
            lemma_tc_args_skip(c, args, params, n);
            assert(args.skip(n).len() == 0 || params.skip(n).len() == 0);
        }
        if 0 <= j < args.len() && j < params.len() && args_agree(c, args, params, j) {
            lemma_tc_args_skip(c, args, params, j);
            assert(args.skip(j)[0] == args[j]);
            assert(params.skip(j)[0] == params[j]);
        }
    }
}


/// Law: a function value is typed by typing its body with the parameters
/// added to the context in order (a later one overriding an earlier one); its
/// type takes the parameters' types in order and the body's type as the
/// return type, and it has none where the body has none.
pub proof fn lemma_function_value_type(
    c: SpecContext,
    params: Seq<(VarId, SpecType)>,
    body: SpecExpr,
    d: Option<DebugInfo>,
)
    ensures
        tc(c, SpecExpr::Value(SpecValue::Function { params, body: Box::new(body) }, d)) == match tc(
            c.with_params(params),
            body,
        ) {
            None => None,
            Some(None) => Some(None),
            Some(Some(ret)) => Some(
                Some(SpecType::Function { params: Seq::new(params.len(), |i: int| params[i].1), ret: Box::new(ret) }),
            ),
        },
{
}

} // verus!
