//! Renaming keeps types: the type checker gives a renamed expression the type
//! it gives the expression, and renaming the binders of an expression apart
//! does not change its type.
use vstd::prelude::*;
use crate::abt::{
    fresh, fresh_all, fresh_map, fresh_need, fresh_need_all, injective, lemma_fresh_map, mapped,
    mapped_all, mapped_binds, mentions, mentions_all, mentions_binds, rename, rename_keys,
    rename_params, Builtin, SpecExpr, SpecType, SpecValue, VarId,
};
use crate::typecheck::{tc, tc_args, tc_binds, SpecContext};

verus! {

/// Whether `x` is `e` with every variable renamed by `m`, as [`mapped`] renames
/// it (function values may carry other debug info).
pub open spec fn renames(m: Map<usize, VarId>, e: SpecExpr, x: SpecExpr) -> bool
    decreases e,
{
    match e {
        SpecExpr::Value(SpecValue::Function { params, body }, _) => match x {
            SpecExpr::Value(SpecValue::Function { params: p2, body: b2 }, _) => p2 == rename_params(m, params)
                && renames(m, *body, *b2),
            _ => false,
        },
        SpecExpr::Value(v, _) => match x {
            SpecExpr::Value(w, _) => w == v,
            _ => false,
        },
        SpecExpr::Var(v, _) => match x {
            SpecExpr::Var(w, _) => w == rename(m, v),
            _ => false,
        },
        SpecExpr::Let { bind, expr, .. } => match x {
            SpecExpr::Let { bind: b2, expr: x2, .. } => renames_binds(m, bind, b2) && renames(m, *expr, *x2),
            _ => false,
        },
        SpecExpr::Call { func, args, .. } => match x {
            SpecExpr::Call { func: f2, args: a2, .. } => f2 == rename(m, func) && renames_all(m, args, a2),
            _ => false,
        },
        SpecExpr::Builtin(Builtin::AddI(a, b)) => x == SpecExpr::Builtin(Builtin::AddI(rename(m, a), rename(m, b))),
        SpecExpr::Builtin(Builtin::ExtractField(v, f)) => x == SpecExpr::Builtin(Builtin::ExtractField(rename(m, v), f)),
    }
}

/// [`renames`] for bindings, one for one.
pub open spec fn renames_binds(m: Map<usize, VarId>, bs: Seq<(VarId, SpecExpr)>, b2: Seq<(VarId, SpecExpr)>) -> bool
    decreases bs,
{
    if bs.len() == 0 {
        b2.len() == 0
    } else {
        &&& b2.len() > 0
        &&& b2[0].0 == rename(m, bs[0].0)
        &&& renames(m, bs[0].1, b2[0].1)
        &&& renames_binds(m, bs.drop_first(), b2.drop_first())
    }
}

/// [`renames`] for lists of expressions, one for one.
pub open spec fn renames_all(m: Map<usize, VarId>, es: Seq<SpecExpr>, e2: Seq<SpecExpr>) -> bool
    decreases es,
{
    if es.len() == 0 {
        e2.len() == 0
    } else {
        &&& e2.len() > 0
        &&& renames(m, es[0], e2[0])
        &&& renames_all(m, es.drop_first(), e2.drop_first())
    }
}

proof fn lemma_mapped_renames(m: Map<usize, VarId>, e: SpecExpr)
    requires
        mapped(m, e) is Some,
    ensures
        renames(m, e, mapped(m, e)->Some_0),
    decreases e,
{
    match e {
        SpecExpr::Value(SpecValue::Function { params, body }, _) => {
            lemma_mapped_renames(m, *body);
        },
        SpecExpr::Let { bind, expr, .. } => {
            lemma_mapped_binds_renames(m, bind);
            lemma_mapped_renames(m, *expr);
        },
        SpecExpr::Call { args, .. } => {
            lemma_mapped_all_renames(m, args);
        },
        _ => {},
    }
}

proof fn lemma_mapped_binds_renames(m: Map<usize, VarId>, bs: Seq<(VarId, SpecExpr)>)
    requires
        mapped_binds(m, bs) is Some,
    ensures
        renames_binds(m, bs, mapped_binds(m, bs)->Some_0),
    decreases bs,
{
    if bs.len() > 0 {
        lemma_mapped_renames(m, bs[0].1);
        lemma_mapped_binds_renames(m, bs.drop_first());
        let x = mapped(m, bs[0].1)->Some_0;
        let rest = mapped_binds(m, bs.drop_first())->Some_0;
        let r = seq![(rename(m, bs[0].0), x)] + rest;
        assert(r[0] == (rename(m, bs[0].0), x));
        assert(r.drop_first() =~= rest);
    }
}

proof fn lemma_mapped_all_renames(m: Map<usize, VarId>, es: Seq<SpecExpr>)
    requires
        mapped_all(m, es) is Some,
    ensures
        renames_all(m, es, mapped_all(m, es)->Some_0),
    decreases es,
{
    if es.len() > 0 {
        lemma_mapped_renames(m, es[0]);
        lemma_mapped_all_renames(m, es.drop_first());
        let x = mapped(m, es[0])->Some_0;
        let rest = mapped_all(m, es.drop_first())->Some_0;
        let r = seq![x] + rest;
        assert(r[0] == x);
        assert(r.drop_first() =~= rest);
    }
}

/// Renaming nothing gives the expression itself.
proof fn lemma_renames_self(e: SpecExpr)
    ensures
        renames(Map::empty(), e, e),
    decreases e,
{
    let m = Map::<usize, VarId>::empty();
    match e {
        SpecExpr::Value(SpecValue::Function { params, body }, _) => {
            lemma_renames_self(*body);
            assert(rename_params(m, params) =~= params);
        },
        SpecExpr::Let { bind, expr, .. } => {
            lemma_renames_binds_self(bind);
            lemma_renames_self(*expr);
        },
        SpecExpr::Call { args, .. } => {
            lemma_renames_all_self(args);
        },
        _ => {},
    }
}

proof fn lemma_renames_binds_self(bs: Seq<(VarId, SpecExpr)>)
    ensures
        renames_binds(Map::empty(), bs, bs),
    decreases bs,
{
    if bs.len() > 0 {
        lemma_renames_self(bs[0].1);
        lemma_renames_binds_self(bs.drop_first());
    }
}

proof fn lemma_renames_all_self(es: Seq<SpecExpr>)
    ensures
        renames_all(Map::empty(), es, es),
    decreases es,
{
    if es.len() > 0 {
        lemma_renames_self(es[0]);
        lemma_renames_all_self(es.drop_first());
    }
}

/// Whether the two contexts agree on everything but names, and give each
/// variable of `p` in the first the type that its renaming has in the second.
pub open spec fn related(m: Map<usize, VarId>, c1: SpecContext, c2: SpecContext, p: Set<VarId>) -> bool {
    &&& c2.types == c1.types
    &&& c2.owners == c1.owners
    &&& forall|v: VarId| #[trigger] p.contains(v) ==> c2.vars.index_opt(rename(m, v).0) == c1.vars.index_opt(v.0)
}

/// Whether the renaming keeps the variables of `p` apart.
pub open spec fn apart(m: Map<usize, VarId>, p: Set<VarId>) -> bool {
    forall|a: VarId, b: VarId| #[trigger] p.contains(a) && #[trigger] p.contains(b) && rename(m, a) == rename(m, b) ==> a == b
}

proof fn lemma_related_with_var(m: Map<usize, VarId>, c1: SpecContext, c2: SpecContext, p: Set<VarId>, k: VarId, t: SpecType)
    requires
        related(m, c1, c2, p),
        apart(m, p),
        p.contains(k),
    ensures
        related(m, c1.with_var(k, t), c2.with_var(rename(m, k), t), p),
{
    let d1 = c1.with_var(k, t);
    let d2 = c2.with_var(rename(m, k), t);
    assert forall|v: VarId| #[trigger] p.contains(v) implies d2.vars.index_opt(rename(m, v).0) == d1.vars.index_opt(v.0) by {
        if v != k {
            assert(rename(m, v) != rename(m, k));
            assert(rename(m, v).0 != rename(m, k).0);
            assert(v.0 != k.0);
            assert(c2.vars.index_opt(rename(m, v).0) == c1.vars.index_opt(v.0));
        }
    }
}

proof fn lemma_related_params(
    m: Map<usize, VarId>,
    c1: SpecContext,
    c2: SpecContext,
    p: Set<VarId>,
    ps: Seq<(VarId, SpecType)>,
)
    requires
        related(m, c1, c2, p),
        apart(m, p),
        forall|i: int| 0 <= i < ps.len() ==> p.contains(#[trigger] ps[i].0),
    ensures
        related(m, c1.with_params(ps), c2.with_params(rename_params(m, ps)), p),
    decreases ps.len(),
{
    let rp = rename_params(m, ps);
    if ps.len() > 0 {
        assert(p.contains(ps[0].0));
        lemma_related_with_var(m, c1, c2, p, ps[0].0, ps[0].1);
        let rest = ps.drop_first();
        assert forall|i: int| 0 <= i < rest.len() implies p.contains(#[trigger] rest[i].0) by {
            assert(rest[i] == ps[i + 1]);
        }
        lemma_related_params(m, c1.with_var(ps[0].0, ps[0].1), c2.with_var(rename(m, ps[0].0), ps[0].1), p, rest);
        assert(rp[0] == (rename(m, ps[0].0), ps[0].1));
        assert(rp.drop_first() =~= rename_params(m, rest));
    }
}

proof fn lemma_related_var_type(m: Map<usize, VarId>, c1: SpecContext, c2: SpecContext, p: Set<VarId>, v: VarId)
    requires
        related(m, c1, c2, p),
        p.contains(v),
    ensures
        c2.var_type(rename(m, v)) == c1.var_type(v),
{
    assert(c2.vars.index_opt(rename(m, v).0) == c1.vars.index_opt(v.0));
}

/// The type checker gives a renamed expression, in a context renamed alike,
/// the type that it gives the expression.
proof fn lemma_tc_renames(m: Map<usize, VarId>, c1: SpecContext, c2: SpecContext, p: Set<VarId>, e: SpecExpr, x: SpecExpr)
    requires
        related(m, c1, c2, p),
        apart(m, p),
        forall|v: VarId| mentions(e, v) ==> p.contains(v),
        renames(m, e, x),
    ensures
        tc(c2, x) == tc(c1, e),
    decreases e,
{
    match e {
        SpecExpr::Value(SpecValue::Function { params, body }, _) => match x {
            SpecExpr::Value(SpecValue::Function { params: p2, body: b2 }, _) => {
                assert forall|i: int| 0 <= i < params.len() implies p.contains(#[trigger] params[i].0) by {
                    assert(mentions(e, params[i].0));
                }
                lemma_related_params(m, c1, c2, p, params);
                assert forall|v: VarId| mentions(*body, v) implies p.contains(v) by {
                    assert(mentions(e, v));
                }
                lemma_tc_renames(m, c1.with_params(params), c2.with_params(p2), p, *body, *b2);
                assert(Seq::new(p2.len(), |i: int| p2[i].1) =~= Seq::new(params.len(), |i: int| params[i].1));
                assert(tc(c2, x) == tc(c1, e));
            },
            _ => {},
        },
        SpecExpr::Value(v, _) => match x {
            SpecExpr::Value(w, _) => {
                assert(w == v);
                match v {
                    SpecValue::Struct { fields } => {
                        if crate::typecheck::same_owners(c1, fields) {
                            assert forall|i: int| 0 <= i < fields.len() implies #[trigger] c2.owner(fields[i].0) == c2.owner(fields[0].0) by {
                                assert(c1.owner(fields[i].0) == c1.owner(fields[0].0));
                            }
                        }
                        if crate::typecheck::same_owners(c2, fields) {
                            assert forall|i: int| 0 <= i < fields.len() implies #[trigger] c1.owner(fields[i].0) == c1.owner(fields[0].0) by {
                                assert(c2.owner(fields[i].0) == c2.owner(fields[0].0));
                            }
                        }
                    },
                    _ => {},
                }
                assert(tc(c2, x) == tc(c1, e));
            },
            _ => {},
        },
        SpecExpr::Var(v, _) => {
            assert(mentions(e, v));
            lemma_related_var_type(m, c1, c2, p, v);
        },
        SpecExpr::Let { bind, expr, .. } => match x {
            SpecExpr::Let { bind: b2, expr: x2, .. } => {
                assert forall|v: VarId| mentions_binds(bind, v) implies p.contains(v) by {
                    assert(mentions(e, v));
                }
                assert forall|v: VarId| mentions(*expr, v) implies p.contains(v) by {
                    assert(mentions(e, v));
                }
                lemma_tc_binds_renames(m, c1, c2, p, bind, b2);
                match tc_binds(c1, bind) {
                    Some(d1) => {
                        let d2 = tc_binds(c2, b2)->Some_0;
                        lemma_tc_renames(m, d1, d2, p, *expr, *x2);
                    },
                    None => {},
                }
            },
            _ => {},
        },
        SpecExpr::Call { func, args, .. } => match x {
            SpecExpr::Call { func: f2, args: a2, .. } => {
                assert(mentions(e, func));
                lemma_related_var_type(m, c1, c2, p, func);
                assert forall|v: VarId| mentions_all(args, v) implies p.contains(v) by {
                    assert(mentions(e, v));
                }
                match c1.var_type(func) {
                    Some(SpecType::Function { params, ret }) => {
                        lemma_tc_args_renames(m, c1, c2, p, args, a2, params);
                    },
                    _ => {},
                }
            },
            _ => {},
        },
        SpecExpr::Builtin(Builtin::AddI(a, b)) => {},
        SpecExpr::Builtin(Builtin::ExtractField(v, f)) => {
            assert(mentions(e, v));
            lemma_related_var_type(m, c1, c2, p, v);
        },
    }
}

proof fn lemma_tc_binds_renames(
    m: Map<usize, VarId>,
    c1: SpecContext,
    c2: SpecContext,
    p: Set<VarId>,
    bs: Seq<(VarId, SpecExpr)>,
    b2: Seq<(VarId, SpecExpr)>,
)
    requires
        related(m, c1, c2, p),
        apart(m, p),
        forall|v: VarId| mentions_binds(bs, v) ==> p.contains(v),
        renames_binds(m, bs, b2),
    ensures
        match (tc_binds(c1, bs), tc_binds(c2, b2)) {
            (None, None) => true,
            (Some(d1), Some(d2)) => related(m, d1, d2, p),
            _ => false,
        },
    decreases bs,
{
    if bs.len() > 0 {
        assert forall|v: VarId| mentions(bs[0].1, v) implies p.contains(v) by {
            assert(mentions_binds(bs, v));
        }
        lemma_tc_renames(m, c1, c2, p, bs[0].1, b2[0].1);
        match tc(c1, bs[0].1) {
            Some(Some(t)) => {
                assert(mentions_binds(bs, bs[0].0));
                lemma_related_with_var(m, c1, c2, p, bs[0].0, t);
                assert forall|v: VarId| mentions_binds(bs.drop_first(), v) implies p.contains(v) by {
                    assert(mentions_binds(bs, v));
                }
                lemma_tc_binds_renames(
                    m,
                    c1.with_var(bs[0].0, t),
                    c2.with_var(b2[0].0, t),
                    p,
                    bs.drop_first(),
                    b2.drop_first(),
                );
            },
            _ => {},
        }
    }
}

proof fn lemma_tc_args_renames(
    m: Map<usize, VarId>,
    c1: SpecContext,
    c2: SpecContext,
    p: Set<VarId>,
    args: Seq<SpecExpr>,
    a2: Seq<SpecExpr>,
    params: Seq<SpecType>,
)
    requires
        related(m, c1, c2, p),
        apart(m, p),
        forall|v: VarId| mentions_all(args, v) ==> p.contains(v),
        renames_all(m, args, a2),
    ensures
        tc_args(c2, a2, params) == tc_args(c1, args, params),
    decreases args,
{
    if args.len() > 0 && params.len() > 0 {
        assert forall|v: VarId| mentions(args[0], v) implies p.contains(v) by {
            assert(mentions_all(args, v));
        }
        assert forall|v: VarId| mentions_all(args.drop_first(), v) implies p.contains(v) by {
            assert(mentions_all(args, v));
        }
        lemma_tc_renames(m, c1, c2, p, args[0], a2[0]);
        lemma_tc_args_renames(m, c1, c2, p, args.drop_first(), a2.drop_first(), params.drop_first());
    }
}


/// Whether `m` sends no two variables to one and none to a variable of `p`.
pub open spec fn fresh_names(m: Map<usize, VarId>, p: Set<VarId>) -> bool {
    &&& injective(m)
    &&& forall|k: usize| m.dom().contains(k) ==> !p.contains(#[trigger] m[k])
}

proof fn lemma_fresh_names_apart(m: Map<usize, VarId>, p: Set<VarId>)
    requires
        fresh_names(m, p),
    ensures
        apart(m, p),
{
    assert forall|a: VarId, b: VarId| #[trigger] p.contains(a) && #[trigger] p.contains(b) && rename(m, a) == rename(m, b) implies a == b by {
        if m.dom().contains(a.0) && m.dom().contains(b.0) {
            assert(m[a.0] == m[b.0]);
        } else if m.dom().contains(a.0) {
            assert(!p.contains(m[a.0]));
        } else if m.dom().contains(b.0) {
            assert(!p.contains(m[b.0]));
        }
    }
}

/// The contexts while the binders of one expression are being given types, on
/// one side under their names and on the other under their new names: the
/// variables of `p` that are renamed and already `done` have, under their new
/// names, the types that they have on the first side; the others have the same
/// types on both sides.
pub open spec fn stage_related(m: Map<usize, VarId>, d1: SpecContext, d2: SpecContext, p: Set<VarId>, done: Set<VarId>) -> bool {
    &&& d2.types == d1.types
    &&& d2.owners == d1.owners
    &&& forall|v: VarId|
        #[trigger] p.contains(v) ==> if m.dom().contains(v.0) && done.contains(v) {
            d2.vars.index_opt(m[v.0].0) == d1.vars.index_opt(v.0)
        } else {
            d2.vars.index_opt(v.0) == d1.vars.index_opt(v.0)
        }
}

proof fn lemma_stage_step(
    m: Map<usize, VarId>,
    d1: SpecContext,
    d2: SpecContext,
    p: Set<VarId>,
    done: Set<VarId>,
    k: VarId,
    t: SpecType,
)
    requires
        stage_related(m, d1, d2, p, done),
        fresh_names(m, p),
        p.contains(k),
    ensures
        stage_related(m, d1.with_var(k, t), d2.with_var(rename(m, k), t), p, done.insert(k)),
{
    let e1 = d1.with_var(k, t);
    let e2 = d2.with_var(rename(m, k), t);
    let dn = done.insert(k);
    assert forall|v: VarId| #[trigger] p.contains(v) implies (if m.dom().contains(v.0) && dn.contains(v) {
        e2.vars.index_opt(m[v.0].0) == e1.vars.index_opt(v.0)
    } else {
        e2.vars.index_opt(v.0) == e1.vars.index_opt(v.0)
    }) by {
        if v == k {
        } else {
            assert(v.0 != k.0);
            if m.dom().contains(v.0) && dn.contains(v) {
                assert(done.contains(v));
                assert(!p.contains(m[v.0]));
                if m.dom().contains(k.0) {
                    assert(m[k.0] != m[v.0]);
                    assert(m[k.0].0 != m[v.0].0);
                } else {
                    assert(rename(m, k) == k);
                    assert(k != m[v.0]);
                    assert(k.0 != m[v.0].0);
                }
                assert(d2.vars.index_opt(m[v.0].0) == d1.vars.index_opt(v.0));
            } else {
                if m.dom().contains(k.0) {
                    assert(!p.contains(m[k.0]));
                    assert(m[k.0] != v);
                    assert(m[k.0].0 != v.0);
                } else {
                    assert(rename(m, k) == k);
                }
                assert(d2.vars.index_opt(v.0) == d1.vars.index_opt(v.0));
            }
        }
    }
}

/// The variables that the entries bind.
pub open spec fn keys_of<T>(ps: Seq<(VarId, T)>) -> Set<VarId> {
    Set::new(|v: VarId| exists|i: int| 0 <= i < ps.len() && #[trigger] ps[i].0 == v)
}

proof fn lemma_keys_of_first<T>(ps: Seq<(VarId, T)>, done: Set<VarId>)
    requires
        ps.len() > 0,
    ensures
        done.insert(ps[0].0).union(keys_of(ps.drop_first())) == done.union(keys_of(ps)),
{
    let rest = ps.drop_first();
    assert forall|v: VarId| done.insert(ps[0].0).union(keys_of(rest)).contains(v) == done.union(keys_of(ps)).contains(v) by {
        if keys_of(rest).contains(v) {
            let i = choose|i: int| 0 <= i < rest.len() && #[trigger] rest[i].0 == v;
            assert(ps[i + 1].0 == v);
        }
        if keys_of(ps).contains(v) && v != ps[0].0 {
            let i = choose|i: int| 0 <= i < ps.len() && #[trigger] ps[i].0 == v;
            assert(i != 0);
            assert(rest[i - 1].0 == v);
        }
    }
    assert(done.insert(ps[0].0).union(keys_of(rest)) =~= done.union(keys_of(ps)));
}

proof fn lemma_stage_params(
    m: Map<usize, VarId>,
    d1: SpecContext,
    d2: SpecContext,
    p: Set<VarId>,
    done: Set<VarId>,
    ps: Seq<(VarId, SpecType)>,
)
    requires
        stage_related(m, d1, d2, p, done),
        fresh_names(m, p),
        forall|i: int| 0 <= i < ps.len() ==> p.contains(#[trigger] ps[i].0),
    ensures
        stage_related(m, d1.with_params(ps), d2.with_params(rename_params(m, ps)), p, done.union(keys_of(ps))),
    decreases ps.len(),
{
    let rp = rename_params(m, ps);
    if ps.len() == 0 {
        assert(done.union(keys_of(ps)) =~= done);
    } else {
        assert(p.contains(ps[0].0));
        lemma_stage_step(m, d1, d2, p, done, ps[0].0, ps[0].1);
        let rest = ps.drop_first();
        assert forall|i: int| 0 <= i < rest.len() implies p.contains(#[trigger] rest[i].0) by {
            assert(rest[i] == ps[i + 1]);
        }
        lemma_stage_params(
            m,
            d1.with_var(ps[0].0, ps[0].1),
            d2.with_var(rename(m, ps[0].0), ps[0].1),
            p,
            done.insert(ps[0].0),
            rest,
        );
        assert(rp[0] == (rename(m, ps[0].0), ps[0].1));
        assert(rp.drop_first() =~= rename_params(m, rest));
        lemma_keys_of_first(ps, done);
    }
}

proof fn lemma_stage_binds(
    m: Map<usize, VarId>,
    d1: SpecContext,
    d2: SpecContext,
    p: Set<VarId>,
    done: Set<VarId>,
    bs: Seq<(VarId, SpecExpr)>,
)
    requires
        stage_related(m, d1, d2, p, done),
        fresh_names(m, p),
        forall|i: int| 0 <= i < bs.len() ==> p.contains(#[trigger] bs[i].0),
        forall|i: int, v: VarId| 0 <= i < bs.len() && #[trigger] mentions(bs[i].1, v) ==> p.contains(v),
        forall|i: int, v: VarId|
            0 <= i < bs.len() && done.contains(v) && m.dom().contains(v.0) ==> !#[trigger] mentions(bs[i].1, v),
        forall|i: int, j: int|
            0 <= i < j < bs.len() && m.dom().contains(bs[i].0.0) ==> !mentions(#[trigger] bs[j].1, #[trigger] bs[i].0),
    ensures
        match (tc_binds(d1, bs), tc_binds(d2, rename_keys(m, bs))) {
            (None, None) => true,
            (Some(e1), Some(e2)) => stage_related(m, e1, e2, p, done.union(keys_of(bs))),
            _ => false,
        },
    decreases bs.len(),
{
    let rk = rename_keys(m, bs);
    if bs.len() == 0 {
        assert(done.union(keys_of(bs)) =~= done);
    } else {
        let def = bs[0].1;
        let q = Set::new(|v: VarId| mentions(def, v));
        let id = Map::<usize, VarId>::empty();
        assert forall|v: VarId| #[trigger] q.contains(v) implies d1.vars.index_opt(rename(id, v).0) == d1.vars.index_opt(v.0)
            && d2.vars.index_opt(rename(id, v).0) == d1.vars.index_opt(v.0) by {
            assert(mentions(bs[0].1, v));
            assert(p.contains(v));
            assert(!(done.contains(v) && m.dom().contains(v.0)));
        }
        assert(related(id, d1, d2, q));
        assert(apart(id, q));
        lemma_renames_self(def);
        lemma_tc_renames(id, d1, d2, q, def, def);
        assert(rk[0] == (rename(m, bs[0].0), def));
        assert(rk.drop_first() =~= rename_keys(m, bs.drop_first()));
        match tc(d1, def) {
            Some(Some(t)) => {
                let k = bs[0].0;
                assert(p.contains(k));
                lemma_stage_step(m, d1, d2, p, done, k, t);
                let rest = bs.drop_first();
                let dn = done.insert(k);
                assert forall|i: int| 0 <= i < rest.len() implies p.contains(#[trigger] rest[i].0) by {
                    assert(rest[i] == bs[i + 1]);
                }
                assert forall|i: int, v: VarId| 0 <= i < rest.len() && #[trigger] mentions(rest[i].1, v) implies p.contains(v) by {
                    assert(rest[i] == bs[i + 1]);
                }
                assert forall|i: int, v: VarId|
                    0 <= i < rest.len() && dn.contains(v) && m.dom().contains(v.0) implies !#[trigger] mentions(rest[i].1, v) by {
                    assert(rest[i] == bs[i + 1]);
                    if v == k {
                        assert(!mentions(bs[i + 1].1, bs[0].0));
                    }
                }
                assert forall|i: int, j: int|
                    0 <= i < j < rest.len() && m.dom().contains(rest[i].0.0) implies !mentions(#[trigger] rest[j].1, #[trigger] rest[i].0) by {
                    assert(rest[i] == bs[i + 1]);
                    assert(rest[j] == bs[j + 1]);
                }
                lemma_stage_binds(m, d1.with_var(k, t), d2.with_var(rename(m, k), t), p, dn, rest);
                lemma_keys_of_first(bs, done);
            },
            _ => {},
        }
    }
}

/// Stages whose renamed variables are all done are related contexts.
proof fn lemma_stage_done(m: Map<usize, VarId>, d1: SpecContext, d2: SpecContext, p: Set<VarId>, done: Set<VarId>)
    requires
        stage_related(m, d1, d2, p, done),
        forall|k: usize| #[trigger] m.dom().contains(k) ==> done.contains(VarId(k)),
    ensures
        related(m, d1, d2, p),
{
    assert forall|v: VarId| #[trigger] p.contains(v) implies d2.vars.index_opt(rename(m, v).0) == d1.vars.index_opt(v.0) by {
        if m.dom().contains(v.0) {
            assert(VarId(v.0) == v);
            assert(done.contains(v));
        }
    }
}

/// Whether the `let` bindings that renaming apart renames in `e` are not
/// referred to by the definitions of later bindings of the same `let`, where
/// renaming would change what those definitions refer to.
pub open spec fn renaming_safe(e: SpecExpr, in_scope: spec_fn(VarId) -> bool) -> bool
    decreases e,
{
    match e {
        SpecExpr::Let { bind, .. } => forall|i: int, j: int|
            0 <= i < j < bind.len() && in_scope(bind[i].0) ==> !mentions(#[trigger] bind[j].1, #[trigger] bind[i].0),
        SpecExpr::Call { args, .. } => renaming_safe_all(args, in_scope),
        _ => true,
    }
}

/// [`renaming_safe`] for each expression.
pub open spec fn renaming_safe_all(es: Seq<SpecExpr>, in_scope: spec_fn(VarId) -> bool) -> bool
    decreases es,
{
    if es.len() == 0 {
        true
    } else {
        renaming_safe(es[0], in_scope) && renaming_safe_all(es.drop_first(), in_scope)
    }
}

proof fn lemma_mentions_binds_at(bs: Seq<(VarId, SpecExpr)>, i: int, v: VarId)
    requires
        0 <= i < bs.len(),
    ensures
        mentions_binds(bs, bs[i].0),
        mentions(bs[i].1, v) ==> mentions_binds(bs, v),
    decreases i,
{
    if i > 0 {
        lemma_mentions_binds_at(bs.drop_first(), i - 1, v);
        assert(bs.drop_first()[i - 1] == bs[i]);
    }
}

/// Law: renaming the binders of an expression apart does not change its type
/// in any context: the type checker gives the renamed expression the type it
/// gives the expression, or stops on both. This holds when every identifier
/// that occurs in the expression comes before the counter value `next`, the
/// counter does not run out, and no definition in a `let` whose variables are
/// renamed refers to a variable that an earlier binding of that `let` binds and
/// that is renamed (renaming the binding but not the definition would change
/// what the definition refers to). The counter advances by at most one for
/// each binder.
pub proof fn lemma_fresh_keeps_type(c: SpecContext, e: SpecExpr, in_scope: spec_fn(VarId) -> bool, next: usize)
    requires
        fresh(e, in_scope, next) is Some,
        forall|v: VarId| mentions(e, v) ==> v.0 < next,
        next + fresh_need(e) <= usize::MAX,
        renaming_safe(e, in_scope),
    ensures
        next <= fresh(e, in_scope, next)->Some_0.1 <= next + fresh_need(e),
        tc(c, fresh(e, in_scope, next)->Some_0.0) == tc(c, e),
    decreases e,
{
    let m0 = Map::<usize, VarId>::empty();
    let p = Set::new(|v: VarId| mentions(e, v));
    match e {
        SpecExpr::Value(SpecValue::Function { params, body }, d) => {
            let keys = Seq::new(params.len(), |i: int| params[i].0);
            lemma_fresh_map(keys, in_scope, m0, next);
            let (m, n) = fresh_map(keys, in_scope, m0, next);
            assert forall|k: usize| m.dom().contains(k) implies !p.contains(#[trigger] m[k]) by {
                assert(next <= m[k].0);
            }
            assert(fresh_names(m, p));
            assert(stage_related(m, c, c, p, Set::empty()));
            assert forall|i: int| 0 <= i < params.len() implies p.contains(#[trigger] params[i].0) by {
                assert(mentions(e, params[i].0));
            }
            lemma_stage_params(m, c, c, p, Set::empty(), params);
            assert forall|k: usize| m.dom().contains(k) implies Set::<VarId>::empty().union(keys_of(params)).contains(
                VarId(k),
            ) by {
                let i = choose|i: int| 0 <= i < keys.len() && keys[i] == VarId(k);
                assert(params[i].0 == VarId(k));
            }
            lemma_stage_done(m, c.with_params(params), c.with_params(rename_params(m, params)), p, Set::empty().union(keys_of(params)));
            lemma_fresh_names_apart(m, p);
            lemma_mapped_renames(m, *body);
            assert forall|v: VarId| mentions(*body, v) implies p.contains(v) by {
                assert(mentions(e, v));
            }
            lemma_tc_renames(m, c.with_params(params), c.with_params(rename_params(m, params)), p, *body, mapped(m, *body)->Some_0);
            let rp = rename_params(m, params);
            assert(Seq::new(rp.len(), |i: int| rp[i].1) =~= Seq::new(params.len(), |i: int| params[i].1));
        },
        SpecExpr::Let { bind, expr, debug } => {
            let keys = Seq::new(bind.len(), |i: int| bind[i].0);
            lemma_fresh_map(keys, in_scope, m0, next);
            let (m, n) = fresh_map(keys, in_scope, m0, next);
            assert forall|k: usize| m.dom().contains(k) implies !p.contains(#[trigger] m[k]) by {
                assert(next <= m[k].0);
            }
            assert(stage_related(m, c, c, p, Set::empty()));
            assert forall|i: int| 0 <= i < bind.len() implies p.contains(#[trigger] bind[i].0) by {
                lemma_mentions_binds_at(bind, i, bind[i].0);
            }
            assert forall|i: int, v: VarId| 0 <= i < bind.len() && #[trigger] mentions(bind[i].1, v) implies p.contains(v) by {
                lemma_mentions_binds_at(bind, i, v);
            }
            assert forall|i: int, j: int|
                0 <= i < j < bind.len() && m.dom().contains(bind[i].0.0) implies !mentions(#[trigger] bind[j].1, #[trigger] bind[i].0) by {
                let k = bind[i].0.0;
                assert(VarId(k) == bind[i].0);
                assert(in_scope(VarId(k)));
            }
            lemma_stage_binds(m, c, c, p, Set::empty(), bind);
            match tc_binds(c, bind) {
                Some(e1) => {
                    let e2 = tc_binds(c, rename_keys(m, bind))->Some_0;
                    assert forall|k: usize| m.dom().contains(k) implies Set::<VarId>::empty().union(keys_of(bind)).contains(
                        VarId(k),
                    ) by {
                        let i = choose|i: int| 0 <= i < keys.len() && keys[i] == VarId(k);
                        assert(bind[i].0 == VarId(k));
                    }
                    lemma_stage_done(m, e1, e2, p, Set::empty().union(keys_of(bind)));
                    lemma_fresh_names_apart(m, p);
                    lemma_mapped_renames(m, *expr);
                    assert forall|v: VarId| mentions(*expr, v) implies p.contains(v) by {
                        assert(mentions(e, v));
                    }
                    lemma_tc_renames(m, e1, e2, p, *expr, mapped(m, *expr)->Some_0);
                },
                None => {},
            }
        },
        SpecExpr::Call { func, args, debug } => {
            assert forall|v: VarId| mentions_all(args, v) implies v.0 < next by {
                assert(mentions(e, v));
            }
            let params = match c.var_type(func) {
                Some(SpecType::Function { params, ret }) => params,
                _ => Seq::empty(),
            };
            lemma_fresh_all_keeps_type(c, args, in_scope, next, params);
        },
        _ => {},
    }
}

/// As [`lemma_fresh_keeps_type`], for the arguments of a call checked against
/// `params`.
proof fn lemma_fresh_all_keeps_type(
    c: SpecContext,
    es: Seq<SpecExpr>,
    in_scope: spec_fn(VarId) -> bool,
    next: usize,
    params: Seq<SpecType>,
)
    requires
        fresh_all(es, in_scope, next) is Some,
        forall|v: VarId| mentions_all(es, v) ==> v.0 < next,
        next + fresh_need_all(es) <= usize::MAX,
        renaming_safe_all(es, in_scope),
    ensures
        next <= fresh_all(es, in_scope, next)->Some_0.1 <= next + fresh_need_all(es),
        tc_args(c, fresh_all(es, in_scope, next)->Some_0.0, params) == tc_args(c, es, params),
    decreases es,
{
    if es.len() > 0 {
        assert forall|v: VarId| mentions(es[0], v) implies v.0 < next by {
            assert(mentions_all(es, v));
        }
        lemma_fresh_keeps_type(c, es[0], in_scope, next);
        let (x, n1) = fresh(es[0], in_scope, next)->Some_0;
        assert forall|v: VarId| mentions_all(es.drop_first(), v) implies v.0 < n1 by {
            assert(mentions_all(es, v));
        }
        let ps = if params.len() > 0 { params.drop_first() } else { params };
        lemma_fresh_all_keeps_type(c, es.drop_first(), in_scope, n1, ps);
        let rest = fresh_all(es.drop_first(), in_scope, n1)->Some_0.0;
        let r = seq![x] + rest;
        assert(r[0] == x);
        assert(r.drop_first() =~= rest);
    }
}

} // verus!
