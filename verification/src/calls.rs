//! What the bindings of a call step hold: each parameter bound to its argument.
use vstd::prelude::*;
use crate::abt::{binds_var, unbound, SpecExpr, SpecType, SpecValue, VarId};
use crate::naive::{call_binds, env_binds, ins, missing_binds};

verus! {

/// Binding `v` keeps every entry for another variable.
proof fn lemma_ins_keeps(bs: Seq<(VarId, SpecExpr)>, v: VarId, e: SpecExpr, k: VarId, x: SpecExpr)
    requires
        bs.contains((k, x)),
        k != v,
    ensures
        ins(bs, v, e).contains((k, x)),
    decreases bs.len(),
{
    let r = ins(bs, v, e);
    let j = choose|j: int| 0 <= j < bs.len() && bs[j] == (k, x);
    if bs[0].0 == v {
        assert(j != 0);
        assert(r[j] == bs[j]);
    } else if j == 0 {
        assert(r[0] == bs[0]);
    } else {
        let t = bs.drop_first();
        assert(t[j - 1] == bs[j]);
        lemma_ins_keeps(t, v, e, k, x);
        let i2 = choose|i2: int| 0 <= i2 < ins(t, v, e).len() && ins(t, v, e)[i2] == (k, x);
        assert(r[i2 + 1] == ins(t, v, e)[i2]);
    }
}

/// Binding `v` to `e` leaves an entry that binds `v` to `e`.
proof fn lemma_ins_has(bs: Seq<(VarId, SpecExpr)>, v: VarId, e: SpecExpr)
    ensures
        ins(bs, v, e).contains((v, e)),
    decreases bs.len(),
{
    let r = ins(bs, v, e);
    if bs.len() == 0 || bs[0].0 == v {
        assert(r[0] == (v, e));
    } else {
        let t = bs.drop_first();
        lemma_ins_has(t, v, e);
        let i2 = choose|i2: int| 0 <= i2 < ins(t, v, e).len() && ins(t, v, e)[i2] == (v, e);
        assert(r[i2 + 1] == ins(t, v, e)[i2]);
    }
}

/// Passing the context's values of `vs` in keeps every entry for a variable
/// that is not one of `vs`.
proof fn lemma_env_binds_keeps(c: Map<usize, SpecValue>, vs: Seq<VarId>, bs: Seq<(VarId, SpecExpr)>, k: VarId, x: SpecExpr)
    requires
        env_binds(c, vs, bs) is Some,
        bs.contains((k, x)),
        !vs.contains(k),
    ensures
        env_binds(c, vs, bs)->Some_0.contains((k, x)),
    decreases vs.len(),
{
    if vs.len() > 0 {
        assert(vs[0] != k);
        let v = c.get(vs[0].0)->Some_0;
        lemma_ins_keeps(bs, vs[0], SpecExpr::Value(v, None), k, x);
        assert forall|j: int| 0 <= j < vs.drop_first().len() implies vs.drop_first()[j] != k by {
            assert(vs.drop_first()[j] == vs[j + 1]);
        }
        lemma_env_binds_keeps(c, vs.drop_first(), ins(bs, vs[0], SpecExpr::Value(v, None)), k, x);
    }
}

/// Binding the remaining parameters keeps an entry for a variable that is
/// none of them and that no remaining argument uses.
proof fn lemma_call_binds_keeps(
    c: Map<usize, SpecValue>,
    params: Seq<(VarId, SpecType)>,
    args: Seq<SpecExpr>,
    bs: Seq<(VarId, SpecExpr)>,
    k: VarId,
    x: SpecExpr,
)
    requires
        call_binds(c, params, args, bs) is Some,
        bs.contains((k, x)),
        forall|j: int| 0 <= j < params.len() && j < args.len() ==> #[trigger] params[j].0 != k,
        forall|j: int| 0 <= j < params.len() && j < args.len() ==> !(#[trigger] unbound(args[j])).contains(k),
    ensures
        call_binds(c, params, args, bs)->Some_0.contains((k, x)),
    decreases args.len(),
{
    if args.len() > 0 && params.len() > 0 {
        assert(params[0].0 != k);
        assert(!unbound(args[0]).contains(k));
        lemma_env_binds_keeps(c, unbound(args[0]), bs, k, x);
        let b1 = env_binds(c, unbound(args[0]), bs)->Some_0;
        lemma_ins_keeps(b1, params[0].0, args[0], k, x);
        let ps = params.drop_first();
        let xs = args.drop_first();
        assert forall|j: int| 0 <= j < ps.len() && j < xs.len() implies #[trigger] ps[j].0 != k by {
            assert(ps[j] == params[j + 1]);
        }
        assert forall|j: int| 0 <= j < ps.len() && j < xs.len() implies !(#[trigger] unbound(xs[j])).contains(k) by {
            assert(ps[j] == params[j + 1]);
            assert(xs[j] == args[j + 1]);
        }
        lemma_call_binds_keeps(c, ps, xs, ins(b1, params[0].0, args[0]), k, x);
    }
}

/// Law: the bindings of a call bind each parameter to its argument, the
/// `i`-th parameter to the `i`-th argument, where the parameters are distinct
/// and no later argument uses an earlier parameter (which passing its value
/// in would rebind).
pub proof fn lemma_call_binds_params(
    c: Map<usize, SpecValue>,
    params: Seq<(VarId, SpecType)>,
    args: Seq<SpecExpr>,
    bs: Seq<(VarId, SpecExpr)>,
)
    requires
        call_binds(c, params, args, bs) is Some,
        params.len() == args.len(),
        forall|i: int, j: int| 0 <= i < j < params.len() ==> #[trigger] params[i].0 != #[trigger] params[j].0,
        forall|i: int, j: int| 0 <= i < j < params.len() ==> !(#[trigger] unbound(args[j])).contains(#[trigger] params[i].0),
    ensures
        forall|i: int| 0 <= i < params.len() ==> call_binds(c, params, args, bs)->Some_0.contains((#[trigger] params[i].0, args[i])),
    decreases args.len(),
{
    if args.len() > 0 {
        let b1 = env_binds(c, unbound(args[0]), bs)->Some_0;
        let b2 = ins(b1, params[0].0, args[0]);
        let ps = params.drop_first();
        let xs = args.drop_first();
        assert forall|i: int, j: int| 0 <= i < j < ps.len() implies #[trigger] ps[i].0 != #[trigger] ps[j].0 by {
            assert(ps[i] == params[i + 1] && ps[j] == params[j + 1]);
        }
        assert forall|i: int, j: int| 0 <= i < j < ps.len() implies !(#[trigger] unbound(xs[j])).contains(#[trigger] ps[i].0) by {
            assert(ps[i] == params[i + 1] && xs[j] == args[j + 1]);
        }
        lemma_call_binds_params(c, ps, xs, b2);
        lemma_ins_has(b1, params[0].0, args[0]);
        assert forall|j: int| 0 <= j < ps.len() && j < xs.len() implies #[trigger] ps[j].0 != params[0].0 by {
            assert(ps[j] == params[j + 1]);
        }
        assert forall|j: int| 0 <= j < ps.len() && j < xs.len() implies !(#[trigger] unbound(xs[j])).contains(params[0].0) by {
            assert(xs[j] == args[j + 1]);
            assert(params[0].0 == params[0].0);
        }
        lemma_call_binds_keeps(c, ps, xs, b2, params[0].0, args[0]);
        let r = call_binds(c, params, args, bs)->Some_0;
        assert forall|i: int| 0 <= i < params.len() implies r.contains((#[trigger] params[i].0, args[i])) by {
            if i > 0 {
                assert(ps[i - 1] == params[i] && xs[i - 1] == args[i]);
            }
        }
    }
}


/// Binding a variable leaves every variable bound that was bound before.
proof fn lemma_ins_binds(bs: Seq<(VarId, SpecExpr)>, v: VarId, e: SpecExpr, w: VarId)
    requires
        binds_var(bs, w) || w == v,
    ensures
        binds_var(ins(bs, v, e), w),
{
    if w == v {
        lemma_ins_has(bs, v, e);
        let j = choose|j: int| 0 <= j < ins(bs, v, e).len() && ins(bs, v, e)[j] == (v, e);
        assert(ins(bs, v, e)[j].0 == w);
    } else {
        let j = choose|j: int| 0 <= j < bs.len() && #[trigger] bs[j].0 == w;
        lemma_ins_keeps(bs, v, e, w, bs[j].1);
        let k = choose|k: int| 0 <= k < ins(bs, v, e).len() && ins(bs, v, e)[k] == (w, bs[j].1);
        assert(ins(bs, v, e)[k].0 == w);
    }
}

/// Law: passing in the values of the variables `vs` that are not bound yet
/// leaves every one of them bound, and every variable bound before still
/// bound.
pub proof fn lemma_missing_binds(c: Map<usize, SpecValue>, vs: Seq<VarId>, bs: Seq<(VarId, SpecExpr)>)
    ensures
        missing_binds(c, vs, bs) matches Some(r) ==> (forall|i: int| 0 <= i < vs.len() ==> binds_var(r, #[trigger] vs[i]))
            && (forall|w: VarId| binds_var(bs, w) ==> #[trigger] binds_var(r, w)),
    decreases vs.len(),
{
    if vs.len() > 0 {
        let rest = vs.drop_first();
        if binds_var(bs, vs[0]) {
            lemma_missing_binds(c, rest, bs);
            if let Some(r) = missing_binds(c, vs, bs) {
                assert forall|i: int| 0 <= i < vs.len() implies binds_var(r, #[trigger] vs[i]) by {
                    if i > 0 {
                        assert(rest[i - 1] == vs[i]);
                    }
                }
            }
        } else if c.contains_key(vs[0].0) {
            let e = SpecExpr::Value(c[vs[0].0], None);
            let b1 = ins(bs, vs[0], e);
            lemma_missing_binds(c, rest, b1);
            assert forall|w: VarId| binds_var(bs, w) implies #[trigger] binds_var(b1, w) by {
                lemma_ins_binds(bs, vs[0], e, w);
            }
            lemma_ins_binds(bs, vs[0], e, vs[0]);
            if let Some(r) = missing_binds(c, vs, bs) {
                assert(missing_binds(c, vs, bs) == missing_binds(c, rest, b1));
                assert forall|i: int| 0 <= i < vs.len() implies binds_var(r, #[trigger] vs[i]) by {
                    if i > 0 {
                        assert(rest[i - 1] == vs[i]);
                    }
                }
            }
        }
    }
}

} // verus!
