//! A naive evaluator for the bound tree: one reduction step at a time.
use vstd::prelude::*;
use std::collections::HashMap;
use crate::debug::DebugInfo;
use crate::abt::{
    binds_contains, binds_var, fresh, fresh_all, opt_cat_fresh, unbound, view_binds, view_exprs, view_params, Builtin, Expr, IdCounter,
    SpecExpr, SpecType, SpecValue, Type, Value, VarId,
};

verus! {

broadcast use vstd::std_specs::hash::group_hash_axioms;

/// The variables that an evaluation can see, and their values.
pub trait EvalContext {
    /// The value of each variable, by variable number.
    spec fn vars_view(&self) -> Map<usize, SpecValue>;

    /// The value of `var_id`, if it has one.
    fn var(&self, var_id: &VarId) -> (r: Option<Value>)
        ensures
            match r {
                Some(v) => self.vars_view().get(var_id.0) == Some(v@),
                None => !self.vars_view().contains_key(var_id.0),
            },
    ;

    /// Gives `var_id` the value `value`.
    fn set_var(&mut self, var_id: &VarId, value: Value)
        ensures
            final(self).vars_view() == old(self).vars_view().insert(var_id.0, value@),
    ;

    /// A context of its own with the same variables.
    fn scoped(&self) -> (r: EvalContextImpl)
        ensures
            r@ == self.vars_view(),
    ;
}

/// The variables of an evaluation, by variable number.
pub struct EvalContextImpl {
    vars: HashMap<usize, Value>,
}

impl View for EvalContextImpl {
    type V = Map<usize, SpecValue>;

    closed spec fn view(&self) -> Map<usize, SpecValue> {
        self.vars@.map_values(|v: Value| v@)
    }
}

impl EvalContextImpl {
    pub fn new() -> (r: Self)
        ensures
            r@ == Map::<usize, SpecValue>::empty(),
    {
        let r = Self { vars: HashMap::new() };
        assert(r@ =~= Map::<usize, SpecValue>::empty());
        r
    }

    /// A copy of this context.
    pub fn copy(&self) -> (r: Self)
        ensures
            r@ == self@,
    {
        Self { vars: self.vars.clone() }
    }
}

impl EvalContext for EvalContextImpl {
    open spec fn vars_view(&self) -> Map<usize, SpecValue> {
        self@
    }

    fn var(&self, var_id: &VarId) -> (r: Option<Value>) {
        match self.vars.get(&var_id.0) {
            Some(v) => Some(v.copy()),
            None => None,
        }
    }

    fn set_var(&mut self, var_id: &VarId, value: Value) {
        let ghost w = value@;
        self.vars.insert(var_id.0, value);
        assert(self@ =~= old(self)@.insert(var_id.0, w));
    }

    fn scoped(&self) -> (r: EvalContextImpl) {
        self.copy()
    }
}


/// `bs` with `v` bound to `e`: the first entry for `v` takes the new
/// definition, or a new entry is added at the end.
pub open spec fn ins(bs: Seq<(VarId, SpecExpr)>, v: VarId, e: SpecExpr) -> Seq<(VarId, SpecExpr)>
    decreases bs.len(),
{
    if bs.len() == 0 {
        seq![(v, e)]
    } else if bs[0].0 == v {
        seq![(v, e)] + bs.drop_first()
    } else {
        seq![bs[0]] + ins(bs.drop_first(), v, e)
    }
}

/// The context with each binding whose definition is a value giving that value
/// to its variable, in order.
pub open spec fn with_values(c: Map<usize, SpecValue>, bs: Seq<(VarId, SpecExpr)>) -> Map<usize, SpecValue>
    decreases bs.len(),
{
    if bs.len() == 0 {
        c
    } else {
        let c1 = match bs[0].1 {
            SpecExpr::Value(v, _) => c.insert(bs[0].0.0, v),
            _ => c,
        };
        with_values(c1, bs.drop_first())
    }
}

/// Whether every variable of `vs` has a value in `c`.
pub open spec fn all_known(c: Map<usize, SpecValue>, vs: Seq<VarId>) -> bool {
    forall|i: int| 0 <= i < vs.len() ==> c.contains_key(#[trigger] vs[i].0)
}

/// The bindings of a `Let` reduced in context `c`, in order, onto `acc`: a
/// binding whose free variables all have values is reduced (and counted in
/// `reduced`), any other is dropped; `unresolved` counts the dropped ones and
/// those that did not reduce to a value. `None` where a reduction stops.
pub open spec fn red_binds(
    c: Map<usize, SpecValue>,
    bs: Seq<(VarId, SpecExpr)>,
    acc: Seq<(VarId, SpecExpr)>,
    reduced: nat,
    unresolved: nat,
    next: usize,
) -> Option<(Seq<(VarId, SpecExpr)>, nat, nat, usize)>
    decreases bs,
{
    if bs.len() == 0 {
        Some((acc, reduced, unresolved, next))
    } else if all_known(c, unbound(bs[0].1)) {
        match red(c, bs[0].1, next) {
            None => None,
            Some((x, n)) => red_binds(
                c,
                bs.drop_first(),
                ins(acc, bs[0].0, x),
                reduced + 1,
                if x is Value { unresolved } else { unresolved + 1 },
                n,
            ),
        }
    } else {
        red_binds(c, bs.drop_first(), acc, reduced, unresolved + 1, next)
    }
}

/// The bindings that pass the context's value of each of `vs` in.
pub open spec fn env_binds(c: Map<usize, SpecValue>, vs: Seq<VarId>, bs: Seq<(VarId, SpecExpr)>) -> Option<Seq<(VarId, SpecExpr)>>
    decreases vs.len(),
{
    if vs.len() == 0 {
        Some(bs)
    } else {
        match c.get(vs[0].0) {
            Some(v) => env_binds(c, vs.drop_first(), ins(bs, vs[0], SpecExpr::Value(v, None))),
            None => None,
        }
    }
}

/// As [`env_binds`], for those of `vs` that are not bound yet.
pub open spec fn missing_binds(c: Map<usize, SpecValue>, vs: Seq<VarId>, bs: Seq<(VarId, SpecExpr)>) -> Option<Seq<(VarId, SpecExpr)>>
    decreases vs.len(),
{
    if vs.len() == 0 {
        Some(bs)
    } else if binds_var(bs, vs[0]) {
        missing_binds(c, vs.drop_first(), bs)
    } else {
        match c.get(vs[0].0) {
            Some(v) => missing_binds(c, vs.drop_first(), ins(bs, vs[0], SpecExpr::Value(v, None))),
            None => None,
        }
    }
}

/// The bindings of a call: for each parameter and its argument in turn, the
/// values of the argument's free variables, then the argument for the parameter.
pub open spec fn call_binds(
    c: Map<usize, SpecValue>,
    params: Seq<(VarId, SpecType)>,
    args: Seq<SpecExpr>,
    bs: Seq<(VarId, SpecExpr)>,
) -> Option<Seq<(VarId, SpecExpr)>>
    decreases args.len(),
{
    if args.len() == 0 || params.len() == 0 {
        Some(bs)
    } else {
        match env_binds(c, unbound(args[0]), bs) {
            Some(b1) => call_binds(c, params.drop_first(), args.drop_first(), ins(b1, params[0].0, args[0])),
            None => None,
        }
    }
}

/// Whether a variable has a value in `c`.
pub open spec fn in_ctx(c: Map<usize, SpecValue>) -> spec_fn(VarId) -> bool {
    |v: VarId| c.contains_key(v.0)
}

/// One reduction step of `e` in context `c`, with the counter of fresh
/// identifiers at `next`: the new expression and the counter after it.
///
/// A value stays as it is; a variable becomes its value. A `Let` first gives
/// its value bindings to their variables, then reduces the bindings whose
/// free variables all have values: if every binding became a value, the step
/// goes on with the body in the outer context extended by them; else the
/// `Let` stays with the reduced bindings. A call renames the function's
/// parameters and the arguments' own bindings apart from the context and
/// becomes a `Let` of the function's body. Integer addition adds.
///
/// `None` stands for an input on which the evaluator stops instead: an unknown
/// variable, a `Let` none of whose bindings can be reduced, a call of what is
/// not a function or with the wrong number of arguments, an addition of what
/// is not an integer or that overflows, a field extraction, or an enum or
/// struct value met in renaming.
pub open spec fn red(c: Map<usize, SpecValue>, e: SpecExpr, next: usize) -> Option<(SpecExpr, usize)>
    decreases e,
{
    match e {
        SpecExpr::Value(_, _) => Some((e, next)),
        SpecExpr::Var(id, _) => match c.get(id.0) {
            Some(v) => Some((SpecExpr::Value(v, None), next)),
            None => None,
        },
        SpecExpr::Let { bind, expr, .. } => match red_binds(with_values(c, bind), bind, Seq::empty(), 0, 0, next) {
            None => None,
            Some((bs, reduced, unresolved, n)) => if unresolved > 0 {
                if reduced == 0 {
                    None
                } else {
                    Some((SpecExpr::Let { bind: bs, expr, debug: None }, n))
                }
            } else {
                red(with_values(c, bs), *expr, n)
            },
        },
        SpecExpr::Call { func, args, .. } => match c.get(func.0) {
            None => None,
            Some(f) => {
                match fresh(SpecExpr::Value(f, None), in_ctx(c), next) {
                    Some((SpecExpr::Value(SpecValue::Function { params, body }, _), n1)) => match fresh_all(args, in_ctx(c), n1) {
                        Some((xs, n2)) => if xs.len() != params.len() {
                            None
                        } else {
                            match call_binds(c, params, xs, Seq::empty()) {
                                Some(b1) => match missing_binds(c, unbound(*body), b1) {
                                    Some(b2) => Some((SpecExpr::Let { bind: b2, expr: body, debug: None }, n2)),
                                    None => None,
                                },
                                None => None,
                            }
                        },
                        None => None,
                    },
                    _ => None,
                }
            },
        },
        SpecExpr::Builtin(Builtin::AddI(a, b)) => match (c.get(a.0), c.get(b.0)) {
            (Some(SpecValue::Integer(x)), Some(SpecValue::Integer(y))) => if i64::MIN <= x + y <= i64::MAX {
                Some((SpecExpr::Value(SpecValue::Integer((x + y) as i64), None), next))
            } else {
                None
            },
            _ => None,
        },
        SpecExpr::Builtin(Builtin::ExtractField(_, _)) => None,
    }
}


/// The first entry for `v`, where it is not preceded by another for `v`, takes `e`.
proof fn lemma_ins_first(s: Seq<(VarId, SpecExpr)>, i: int, v: VarId, e: SpecExpr)
    requires
        0 <= i < s.len(),
        s[i].0 == v,
        forall|j: int| 0 <= j < i ==> #[trigger] s[j].0 != v,
    ensures
        ins(s, v, e) == s.update(i, (v, e)),
    decreases i,
{
    if i == 0 {
        assert(ins(s, v, e) =~= s.update(0, (v, e)));
    } else {
        let t = s.drop_first();
        assert forall|j: int| 0 <= j < i - 1 implies #[trigger] t[j].0 != v by {
            assert(t[j] == s[j + 1]);
        }
        assert(s[0].0 != v);
        lemma_ins_first(t, i - 1, v, e);
        assert(ins(s, v, e) =~= s.update(i, (v, e)));
    }
}

/// Without an entry for `v`, one is added at the end.
proof fn lemma_ins_absent(s: Seq<(VarId, SpecExpr)>, v: VarId, e: SpecExpr)
    requires
        forall|j: int| 0 <= j < s.len() ==> #[trigger] s[j].0 != v,
    ensures
        ins(s, v, e) == s.push((v, e)),
    decreases s.len(),
{
    if s.len() == 0 {
        assert(ins(s, v, e) =~= s.push((v, e)));
    } else {
        let t = s.drop_first();
        assert forall|j: int| 0 <= j < t.len() implies #[trigger] t[j].0 != v by {
            assert(t[j] == s[j + 1]);
        }
        assert(s[0].0 != v);
        lemma_ins_absent(t, v, e);
        assert(ins(s, v, e) =~= s.push((v, e)));
    }
}

/// Binds `v` to `e` in `bs` (see [`ins`]).
fn ins_bind(bs: &mut Vec<(VarId, Expr)>, v: VarId, e: Expr)
    ensures
        view_binds(final(bs)@) == ins(view_binds(old(bs)@), v, e@),
{
    let ghost old_v = view_binds(bs@);
    let ghost ev = e@;
    let mut i: usize = 0;
    while i < bs.len()
        invariant
            i <= bs@.len(),
            old_v == view_binds(bs@),
            bs@ == old(bs)@,
            ev == e@,
            forall|j: int| 0 <= j < i ==> #[trigger] old_v[j].0 != v,
        decreases bs@.len() - i,
    {
        assert(old_v[i as int].0 == bs@[i as int].0);
        if bs[i].0.0 == v.0 {
            proof {
                lemma_ins_first(old_v, i as int, v, ev);
            }
            let ghost pre = bs@;
            let entry = (v, e);
            bs.set(i, entry);
            assert(bs@ == pre.update(i as int, entry));
            assert forall|k: int| 0 <= k < bs@.len() implies #[trigger] view_binds(bs@)[k] == old_v.update(i as int, (v, ev))[k] by {
                if k != i {
                    assert(bs@[k] == pre[k]);
                }
            }
            assert(view_binds(bs@) =~= old_v.update(i as int, (v, ev)));
            return;
        }
        i = i + 1;
    }
    proof {
        lemma_ins_absent(old_v, v, ev);
    }
    bs.push((v, e));
    assert(view_binds(bs@) =~= old_v.push((v, ev)));
}

/// Gives each binding's value, where its definition is one, to its variable, in order.
fn set_values(ctx: &mut EvalContextImpl, bs: &Vec<(VarId, Expr)>)
    ensures
        final(ctx)@ == with_values(old(ctx)@, view_binds(bs@)),
{
    let ghost bv = view_binds(bs@);
    let mut i: usize = 0;
    assert(bv.subrange(0, bv.len() as int) =~= bv);
    while i < bs.len()
        invariant
            i <= bs@.len(),
            bv == view_binds(bs@),
            with_values(old(ctx)@, bv) == with_values(ctx@, bv.subrange(i as int, bv.len() as int)),
        decreases bs@.len() - i,
    {
        proof {
            let t = bv.subrange(i as int, bv.len() as int);
            assert(t.drop_first() =~= bv.subrange(i + 1, bv.len() as int));
            assert(t[0] == bv[i as int]);
        }
        match &bs[i].1 {
            Expr::Value(v, _) => {
                ctx.set_var(&bs[i].0, v.copy());
            },
            _ => {},
        }
        i = i + 1;
    }
    assert(bv.subrange(i as int, bv.len() as int) =~= Seq::<(VarId, SpecExpr)>::empty());
}

/// Whether every variable of `vs` has a value in `ctx`.
fn known_all(ctx: &EvalContextImpl, vs: &Vec<VarId>) -> (r: bool)
    ensures
        r == all_known(ctx@, vs@),
{
    let mut i: usize = 0;
    while i < vs.len()
        invariant
            i <= vs@.len(),
            forall|j: int| 0 <= j < i ==> ctx@.contains_key(#[trigger] vs@[j].0),
        decreases vs@.len() - i,
    {
        if ctx.var(&vs[i]).is_none() {
            return false;
        }
        i = i + 1;
    }
    true
}

/// Binds each of `vs` to its value in `ctx` (see [`env_binds`]).
fn pass_env(ctx: &EvalContextImpl, vs: &Vec<VarId>, bs: &mut Vec<(VarId, Expr)>) -> (r: bool)
    ensures
        r == env_binds(ctx@, vs@, view_binds(old(bs)@)) is Some,
        r ==> env_binds(ctx@, vs@, view_binds(old(bs)@)) == Some(view_binds(final(bs)@)),
{
    let mut i: usize = 0;
    assert(vs@.subrange(0, vs@.len() as int) =~= vs@);
    while i < vs.len()
        invariant
            i <= vs@.len(),
            env_binds(ctx@, vs@, view_binds(old(bs)@)) == env_binds(ctx@, vs@.subrange(i as int, vs@.len() as int), view_binds(bs@)),
        decreases vs@.len() - i,
    {
        proof {
            let t = vs@.subrange(i as int, vs@.len() as int);
            assert(t.drop_first() =~= vs@.subrange(i + 1, vs@.len() as int));
            assert(t[0] == vs@[i as int]);
        }
        match ctx.var(&vs[i]) {
            Some(v) => ins_bind(bs, vs[i], Expr::Value(v, None)),
            None => {
                return false;
            },
        }
        i = i + 1;
    }
    assert(vs@.subrange(i as int, vs@.len() as int) =~= Seq::<VarId>::empty());
    true
}

/// Binds each of `vs` that is not bound yet to its value in `ctx` (see [`missing_binds`]).
fn pass_missing(ctx: &EvalContextImpl, vs: &Vec<VarId>, bs: &mut Vec<(VarId, Expr)>) -> (r: bool)
    ensures
        r == missing_binds(ctx@, vs@, view_binds(old(bs)@)) is Some,
        r ==> missing_binds(ctx@, vs@, view_binds(old(bs)@)) == Some(view_binds(final(bs)@)),
{
    let mut i: usize = 0;
    assert(vs@.subrange(0, vs@.len() as int) =~= vs@);
    while i < vs.len()
        invariant
            i <= vs@.len(),
            missing_binds(ctx@, vs@, view_binds(old(bs)@)) == missing_binds(ctx@, vs@.subrange(i as int, vs@.len() as int), view_binds(bs@)),
        decreases vs@.len() - i,
    {
        proof {
            let t = vs@.subrange(i as int, vs@.len() as int);
            assert(t.drop_first() =~= vs@.subrange(i + 1, vs@.len() as int));
            assert(t[0] == vs@[i as int]);
        }
        if !binds_contains(bs, vs[i]) {
            match ctx.var(&vs[i]) {
                Some(v) => ins_bind(bs, vs[i], Expr::Value(v, None)),
                None => {
                    return false;
                },
            }
        }
        i = i + 1;
    }
    assert(vs@.subrange(i as int, vs@.len() as int) =~= Seq::<VarId>::empty());
    true
}


/// Binds, for each parameter and its argument in turn, the values of the
/// argument's free variables and then the argument (see [`call_binds`]).
fn pass_args(ctx: &EvalContextImpl, params: &Vec<(VarId, Type)>, xs: &Vec<Expr>, bs: &mut Vec<(VarId, Expr)>) -> (r: bool)
    requires
        xs@.len() == params@.len(),
    ensures
        r == call_binds(ctx@, view_params(params@), view_exprs(xs@), view_binds(old(bs)@)) is Some,
        r ==> call_binds(ctx@, view_params(params@), view_exprs(xs@), view_binds(old(bs)@)) == Some(view_binds(final(bs)@)),
{
    let ghost pv = view_params(params@);
    let ghost xv = view_exprs(xs@);
    let mut i: usize = 0;
    assert(pv.subrange(0, pv.len() as int) =~= pv);
    assert(xv.subrange(0, xv.len() as int) =~= xv);
    while i < xs.len()
        invariant
            i <= xs@.len(),
            xs@.len() == params@.len(),
            pv == view_params(params@),
            xv == view_exprs(xs@),
            call_binds(ctx@, pv, xv, view_binds(old(bs)@)) == call_binds(
                ctx@,
                pv.subrange(i as int, pv.len() as int),
                xv.subrange(i as int, xv.len() as int),
                view_binds(bs@),
            ),
        decreases xs@.len() - i,
    {
        proof {
            let tp = pv.subrange(i as int, pv.len() as int);
            let tx = xv.subrange(i as int, xv.len() as int);
            assert(tp.drop_first() =~= pv.subrange(i + 1, pv.len() as int));
            assert(tx.drop_first() =~= xv.subrange(i + 1, xv.len() as int));
            assert(tp[0] == pv[i as int]);
            assert(tx[0] == xv[i as int]);
        }
        let vs = xs[i].unbound_variables();
        if !pass_env(ctx, &vs, bs) {
            return false;
        }
        ins_bind(bs, params[i].0, xs[i].copy());
        i = i + 1;
    }
    proof {
        assert(pv.subrange(i as int, pv.len() as int) =~= Seq::<(VarId, SpecType)>::empty());
    }
    true
}

/// One reduction step of `e` in `ctx` (see [`red`]), taking fresh identifiers
/// from `counter`.
pub fn reduce(ctx: &EvalContextImpl, e: &Expr, counter: &mut IdCounter) -> (r: Expr)
    requires
        red(ctx@, e@, old(counter).next_id()) is Some,
    ensures
        red(ctx@, e@, old(counter).next_id()) == Some((r@, final(counter).next_id())),
{
    try_reduce(ctx, e, counter).unwrap()
}

/// One reduction step as [`reduce`] takes it; `None` where the evaluator
/// stops instead (see [`red`]).
#[verifier::loop_isolation(false)]
pub fn try_reduce(ctx: &EvalContextImpl, e: &Expr, counter: &mut IdCounter) -> (r: Option<Expr>)
    ensures
        match r {
            Some(x) => red(ctx@, e@, old(counter).next_id()) == Some((x@, final(counter).next_id())),
            None => red(ctx@, e@, old(counter).next_id()) is None,
        },
    decreases e,
{
    match e {
        Expr::Value(_, _) => Some(e.copy()),
        Expr::Var(var_id, _) => match ctx.var(var_id) {
            Some(v) => Some(Expr::Value(v, None)),
            None => None,
        },
        Expr::Let { bind, expr, .. } => {
            let ghost bv = view_binds(bind@);
            let ghost n0 = counter.next_id();
            let mut scoped_ctx = ctx.scoped();
            set_values(&mut scoped_ctx, bind);
            let mut bindings: Vec<(VarId, Expr)> = Vec::new();
            let mut reduced_bindings: usize = 0;
            let mut unresolved_bindings: usize = 0;
            let mut i: usize = 0;
            assert(bv.subrange(0, bv.len() as int) =~= bv);
            assert(view_binds(bindings@) =~= Seq::<(VarId, SpecExpr)>::empty());
            while i < bind.len()
                invariant
                    i <= bind@.len(),
                    bv == view_binds(bind@),
                    scoped_ctx@ == with_values(ctx@, bv),
                    reduced_bindings <= i,
                    unresolved_bindings <= i,
                    red_binds(scoped_ctx@, bv, Seq::empty(), 0, 0, n0) == red_binds(
                        scoped_ctx@,
                        bv.subrange(i as int, bv.len() as int),
                        view_binds(bindings@),
                        reduced_bindings as nat,
                        unresolved_bindings as nat,
                        counter.next_id(),
                    ),
                decreases bind@.len() - i,
            {
                proof {
                    let t = bv.subrange(i as int, bv.len() as int);
                    assert(t.drop_first() =~= bv.subrange(i + 1, bv.len() as int));
                    assert(t[0] == bv[i as int]);
                }
                let vs = bind[i].1.unbound_variables();
                if known_all(&scoped_ctx, &vs) {
                    let x = match try_reduce(&scoped_ctx, &bind[i].1, counter) {
                        Some(x) => x,
                        None => {
                            return None;
                        },
                    };
                    reduced_bindings = reduced_bindings + 1;
                    match &x {
                        Expr::Value(_, _) => {},
                        _ => {
                            unresolved_bindings = unresolved_bindings + 1;
                        },
                    }
                    ins_bind(&mut bindings, bind[i].0, x);
                } else {
                    unresolved_bindings = unresolved_bindings + 1;
                }
                i = i + 1;
            }
            assert(bv.subrange(i as int, bv.len() as int) =~= Seq::<(VarId, SpecExpr)>::empty());
            if unresolved_bindings > 0 {
                if reduced_bindings == 0 {
                    return None;
                }
                Some(Expr::Let { bind: bindings, expr: Box::new(expr.copy()), debug: None })
            } else {
                let mut scoped_ctx = ctx.scoped();
                set_values(&mut scoped_ctx, &bindings);
                try_reduce(&scoped_ctx, expr, counter)
            }
        },
        Expr::Call { func, args, .. } => {
            let ghost n0 = counter.next_id();
            let f = match ctx.var(func) {
                Some(f) => f,
                None => {
                    return None;
                },
            };
            let ghost in_c = in_ctx(ctx@);
            let ghost fv = f@;
            let check = |var: &VarId| -> (b: bool)
                ensures
                    b == ctx@.contains_key(var.0),
                { ctx.var(var).is_some() };
            let fe = match Expr::Value(f, None).try_with_fresh_vars(&check, Ghost(in_c), counter) {
                Some(fe) => fe,
                None => {
                    return None;
                },
            };
            let ghost av = view_exprs(args@);
            let ghost n1 = counter.next_id();
            let mut xs: Vec<Expr> = Vec::new();
            let mut i: usize = 0;
            assert(av.subrange(0, av.len() as int) =~= av);
            assert(view_exprs(xs@) =~= Seq::<SpecExpr>::empty());
            while i < args.len()
                invariant
                    i <= args@.len(),
                    av == view_exprs(args@),
                    forall|v: VarId| #[trigger] check.requires((&v,)),
                    forall|v: VarId, b: bool| check.ensures((&v,), b) ==> b == in_c(v),
                    fresh_all(av, in_c, n1) == opt_cat_fresh(
                        view_exprs(xs@),
                        fresh_all(av.subrange(i as int, av.len() as int), in_c, counter.next_id()),
                    ),
                decreases args@.len() - i,
            {
                proof {
                    let rest = av.subrange(i as int, av.len() as int);
                    assert(rest.drop_first() =~= av.subrange(i + 1, av.len() as int));
                    assert(rest[0] == av[i as int]);
                }
                let x = match args[i].try_with_fresh_vars(&check, Ghost(in_c), counter) {
                    Some(x) => x,
                    None => {
                        return None;
                    },
                };
                let ghost before = xs@;
                xs.push(x);
                proof {
                    let rest = av.subrange(i + 1, av.len() as int);
                    assert(view_exprs(xs@) =~= view_exprs(before) + seq![x@]);
                    if fresh_all(rest, in_c, counter.next_id()) is Some {
                        assert(view_exprs(before) + (seq![x@] + fresh_all(rest, in_c, counter.next_id()).unwrap().0)
                            =~= view_exprs(xs@) + fresh_all(rest, in_c, counter.next_id()).unwrap().0);
                    }
                }
                i = i + 1;
            }
            assert(av.subrange(i as int, av.len() as int) =~= Seq::<SpecExpr>::empty());
            assert(view_exprs(xs@) + Seq::<SpecExpr>::empty() =~= view_exprs(xs@));
            let ghost fev = fe@;
            proof {
                reveal_with_fuel(Expr::view_rec, 2);
            }
            match fe {
                Expr::Value(Value::Function { params, body }, d) => {
                    assert(fev == SpecExpr::Value(
                        SpecValue::Function { params: view_params(params@), body: Box::new(body@) },
                        d,
                    ));
                    assert(view_params(params@).len() == params@.len());
                    assert(view_exprs(xs@).len() == xs@.len());
                    if xs.len() != params.len() {
                        return None;
                    }
                    let mut bindings: Vec<(VarId, Expr)> = Vec::new();
                    assert(view_binds(bindings@) =~= Seq::<(VarId, SpecExpr)>::empty());
                    if !pass_args(ctx, &params, &xs, &mut bindings) {
                        return None;
                    }
                    let vs = body.unbound_variables();
                    if !pass_missing(ctx, &vs, &mut bindings) {
                        return None;
                    }
                    Some(Expr::Let { bind: bindings, expr: body, debug: None })
                },
                _ => None,
            }
        },
        Expr::Builtin(Builtin::AddI(a, b)) => {
            let x = match ctx.var(a) {
                Some(Value::Integer(x)) => x,
                _ => {
                    return None;
                },
            };
            let y = match ctx.var(b) {
                Some(Value::Integer(y)) => y,
                _ => {
                    return None;
                },
            };
            match x.checked_add(y) {
                Some(z) => Some(Expr::Value(Value::Integer(z), None)),
                None => None,
            }
        },
        Expr::Builtin(Builtin::ExtractField(_, _)) => None,
    }
}

/// Law: a `Let` that binds a variable to a value and whose body is that
/// variable reduces in one step to the value, taking no identifier.
pub proof fn lemma_let_value_step(
    c: Map<usize, SpecValue>,
    v: VarId,
    val: SpecValue,
    d: Option<DebugInfo>,
    dv: Option<DebugInfo>,
    debug: Option<DebugInfo>,
    next: usize,
)
    ensures
        red(c, SpecExpr::Let { bind: seq![(v, SpecExpr::Value(val, d))], expr: Box::new(SpecExpr::Var(v, dv)), debug }, next)
            == Some((SpecExpr::Value(val, None), next)),
{
    let bind = seq![(v, SpecExpr::Value(val, d))];
    let sc = with_values(c, bind);
    assert(bind.drop_first() =~= Seq::<(VarId, SpecExpr)>::empty());
    assert(bind[0] == (v, SpecExpr::Value(val, d)));
    assert(with_values(c.insert(v.0, val), bind.drop_first()) == c.insert(v.0, val));
    assert(sc == c.insert(v.0, val));
    assert(red(sc, SpecExpr::Value(val, d), next) == Some((SpecExpr::Value(val, d), next)));
    assert(all_known(sc, unbound(SpecExpr::Value(val, d))));
    let acc = ins(Seq::empty(), v, SpecExpr::Value(val, d));
    assert(acc == bind);
    assert(red_binds(sc, bind.drop_first(), acc, 1, 0, next) == Some((bind, 1nat, 0nat, next)));
    assert(red_binds(sc, bind, Seq::empty(), 0, 0, next) == Some((bind, 1nat, 0nat, next)));
    assert(with_values(c, bind).get(v.0) == Some(val));
    assert(red(sc, SpecExpr::Var(v, dv), next) == Some((SpecExpr::Value(val, None), next)));
}

/// Law: integer addition of two variables with integer values reduces to
/// their sum, where it fits in `i64`.
pub proof fn lemma_addi_step(c: Map<usize, SpecValue>, a: VarId, b: VarId, x: i64, y: i64, next: usize)
    requires
        c.get(a.0) == Some(SpecValue::Integer(x)),
        c.get(b.0) == Some(SpecValue::Integer(y)),
        i64::MIN <= x + y <= i64::MAX,
    ensures
        red(c, SpecExpr::Builtin(Builtin::AddI(a, b)), next) == Some((SpecExpr::Value(SpecValue::Integer((x + y) as i64), None), next)),
{
}


/// Whether every definition among the bindings is a value.
pub open spec fn all_values(bs: Seq<(VarId, SpecExpr)>) -> bool {
    forall|i: int| 0 <= i < bs.len() ==> #[trigger] bs[i].1 is Value
}

/// Whether no variable has two entries among the bindings.
pub open spec fn keys_unique(bs: Seq<(VarId, SpecExpr)>) -> bool {
    forall|i: int, j: int| 0 <= i < j < bs.len() ==> #[trigger] bs[i].0 != #[trigger] bs[j].0
}

/// Giving `v` a value before bindings that do not bind it is giving it after them.
proof fn lemma_with_values_insert(c: Map<usize, SpecValue>, bs: Seq<(VarId, SpecExpr)>, v: VarId, x: SpecValue)
    requires
        forall|i: int| 0 <= i < bs.len() ==> #[trigger] bs[i].0 != v,
    ensures
        with_values(c.insert(v.0, x), bs) == with_values(c, bs).insert(v.0, x),
    decreases bs.len(),
{
    if bs.len() > 0 {
        let t = bs.drop_first();
        assert forall|i: int| 0 <= i < t.len() implies #[trigger] t[i].0 != v by {
            assert(t[i] == bs[i + 1]);
        }
        assert(bs[0].0 != v);
        match bs[0].1 {
            SpecExpr::Value(w, _) => {
                lemma_with_values_insert(c.insert(bs[0].0.0, w), t, v, x);
                assert(c.insert(v.0, x).insert(bs[0].0.0, w) =~= c.insert(bs[0].0.0, w).insert(v.0, x));
            },
            _ => {
                lemma_with_values_insert(c, t, v, x);
            },
        }
    }
}

/// Binding `v` to a value among bindings without repeated variables gives `v`
/// that value after them.
proof fn lemma_with_values_ins(c: Map<usize, SpecValue>, acc: Seq<(VarId, SpecExpr)>, v: VarId, x: SpecValue, d: Option<DebugInfo>)
    requires
        keys_unique(acc),
    ensures
        with_values(c, ins(acc, v, SpecExpr::Value(x, d))) == with_values(c, acc).insert(v.0, x),
        keys_unique(ins(acc, v, SpecExpr::Value(x, d))),
    decreases acc.len(),
{
    let e = SpecExpr::Value(x, d);
    if acc.len() == 0 {
        let r = seq![(v, e)];
        assert(ins(acc, v, e) == r);
        assert(r[0] == (v, e));
        assert(r.drop_first() =~= Seq::<(VarId, SpecExpr)>::empty());
        assert(with_values(c, r) == with_values(c.insert(v.0, x), r.drop_first()));
        assert(with_values(c, acc) == c);
    } else {
        let rest = acc.drop_first();
        assert forall|i: int, j: int| 0 <= i < j < rest.len() implies #[trigger] rest[i].0 != #[trigger] rest[j].0 by {
            assert(rest[i] == acc[i + 1] && rest[j] == acc[j + 1]);
        }
        if acc[0].0 == v {
            let r = seq![(v, e)] + rest;
            assert(r[0] == (v, e));
            assert(r.drop_first() =~= rest);
            assert forall|i: int| 0 <= i < rest.len() implies #[trigger] rest[i].0 != v by {
                assert(rest[i] == acc[i + 1]);
            }
            lemma_with_values_insert(c, rest, v, x);
            assert(ins(acc, v, e) == r);
            assert(with_values(c, r) == with_values(c.insert(v.0, x), rest));
            match acc[0].1 {
                SpecExpr::Value(w, _) => {
                    lemma_with_values_insert(c, rest, v, w);
                    assert(with_values(c, acc) == with_values(c.insert(v.0, w), rest));
                    assert(with_values(c, rest).insert(v.0, w).insert(v.0, x) =~= with_values(c, rest).insert(v.0, x));
                    assert(with_values(c, r) == with_values(c, acc).insert(v.0, x));
                },
                _ => {
                    assert(with_values(c, acc) == with_values(c, rest));
                    assert(with_values(c, rest).insert(v.0, x) =~= with_values(c, rest).insert(v.0, x));
                    assert(with_values(c, r) == with_values(c, acc).insert(v.0, x));
                },
            }
            assert(ins(acc, v, e) =~= acc.update(0, (v, e)));
            assert forall|i: int, j: int| 0 <= i < j < r.len() implies #[trigger] r[i].0 != #[trigger] r[j].0 by {
                assert(r[i].0 == acc[i].0 && r[j].0 == acc[j].0);
            }
        } else {
            let c1 = match acc[0].1 {
                SpecExpr::Value(w, _) => c.insert(acc[0].0.0, w),
                _ => c,
            };
            lemma_with_values_ins(c1, rest, v, x, d);
            let t = ins(rest, v, e);
            let r = seq![acc[0]] + t;
            assert(r[0] == acc[0]);
            assert(r.drop_first() =~= t);
            assert(ins(acc, v, e) == r);
            assert(with_values(c, r) == with_values(c1, t));
            assert(with_values(c, acc) == with_values(c1, rest));
            assert(with_values(c, r) == with_values(c, acc).insert(v.0, x));
            if exists|j: int| 0 <= j < rest.len() && #[trigger] rest[j].0 == v {
                let j = choose|j: int| 0 <= j < rest.len() && #[trigger] rest[j].0 == v;
                assert forall|k: int| 0 <= k < j implies #[trigger] rest[k].0 != v by {
                    assert(rest[k] == acc[k + 1] && rest[j] == acc[j + 1]);
                }
                lemma_ins_first(rest, j, v, e);
                assert forall|i: int, k: int| 0 <= i < k < r.len() implies #[trigger] r[i].0 != #[trigger] r[k].0 by {
                    assert(r[i].0 == acc[i].0 && r[k].0 == acc[k].0);
                }
            } else {
                lemma_ins_absent(rest, v, e);
                assert forall|i: int, k: int| 0 <= i < k < r.len() implies #[trigger] r[i].0 != #[trigger] r[k].0 by {
                    if k < acc.len() {
                        assert(r[i].0 == acc[i].0 && r[k].0 == acc[k].0);
                    } else {
                        assert(r[k].0 == v);
                        if i > 0 {
                            assert(r[i] == rest[i - 1]);
                        }
                    }
                }
            }
        }
    }
}

/// Reducing bindings that are all values keeps each value and leaves nothing
/// unresolved; the reduced bindings give the context what the bindings give it.
proof fn lemma_red_binds_values(
    sc: Map<usize, SpecValue>,
    c: Map<usize, SpecValue>,
    bs: Seq<(VarId, SpecExpr)>,
    acc: Seq<(VarId, SpecExpr)>,
    reduced: nat,
    next: usize,
)
    requires
        all_values(bs),
        keys_unique(acc),
    ensures
        red_binds(sc, bs, acc, reduced, 0, next) matches Some((acc2, r2, u2, n2)) && u2 == 0 && n2 == next
            && r2 == reduced + bs.len() && with_values(c, acc2) == with_values(with_values(c, acc), bs),
    decreases bs.len(),
{
    if bs.len() > 0 {
        let t = bs.drop_first();
        assert forall|i: int| 0 <= i < t.len() implies #[trigger] t[i].1 is Value by {
            assert(t[i] == bs[i + 1]);
        }
        assert(bs[0].1 is Value);
        let (x, d) = match bs[0].1 {
            SpecExpr::Value(x, d) => (x, d),
            _ => (SpecValue::Unit, None),
        };
        assert(unbound(bs[0].1) =~= Seq::<VarId>::empty());
        assert(all_known(sc, unbound(bs[0].1)));
        assert(red(sc, bs[0].1, next) == Some((bs[0].1, next)));
        lemma_with_values_ins(c, acc, bs[0].0, x, d);
        let acc1 = ins(acc, bs[0].0, bs[0].1);
        lemma_red_binds_values(sc, c, t, acc1, reduced + 1, next);
    } else {
        assert(with_values(with_values(c, acc), bs) == with_values(c, acc));
    }
}

/// Law: a `Let` whose definitions are all values reduces as its body does in
/// the context extended by them, in order (a later binding of a variable
/// overriding an earlier one).
pub proof fn lemma_let_of_values(
    c: Map<usize, SpecValue>,
    bind: Seq<(VarId, SpecExpr)>,
    expr: SpecExpr,
    debug: Option<DebugInfo>,
    next: usize,
)
    requires
        all_values(bind),
    ensures
        red(c, SpecExpr::Let { bind, expr: Box::new(expr), debug }, next) == red(with_values(c, bind), expr, next),
{
    lemma_red_binds_values(with_values(c, bind), c, bind, Seq::empty(), 0, next);
}


} // verus!
