//! The bound tree: expressions whose variables are identifiers rather than names.
use vstd::prelude::*;
use std::collections::HashMap;
use crate::debug::copy_debug;
pub use crate::debug::{DebugInfo, FileId};
use crate::literal::{same_number, Decimal, SpecDecimal};

verus! {

broadcast use vstd::std_specs::hash::group_hash_axioms;

/// Supplies fresh identifiers: every call of `take` hands out the next number.
pub struct IdCounter {
    next: usize,
}

impl IdCounter {
    pub closed spec fn next_id(&self) -> usize {
        self.next
    }

    pub fn new() -> (r: IdCounter)
        ensures
            r.next_id() == 0,
    {
        IdCounter { next: 0 }
    }

    /// Hands out the current number and moves to the next one (wrapping at the top).
    pub fn take(&mut self) -> (r: usize)
        ensures
            r == old(self).next_id(),
            final(self).next_id() == old(self).next_id().wrapping_add(1),
    {
        let r = self.next;
        self.next = self.next.wrapping_add(1);
        r
    }
}

#[derive(Debug, Copy, Clone, PartialEq, Eq, PartialOrd, Ord, Hash, Structural)]
pub struct TypeId(pub usize);

#[derive(Debug, Copy, Clone, PartialEq, Eq, PartialOrd, Ord, Hash, Structural)]
pub struct FieldId(pub usize);

#[derive(Debug, Copy, Clone, PartialEq, Eq, PartialOrd, Ord, Hash, Structural)]
pub struct VarId(pub usize);

impl TypeId {
    /// A type identifier taken from `counter`: the counter's number, which then
    /// moves on by one. Until the counter wraps around, no earlier call on the
    /// same counter has handed it out.
    pub fn new(counter: &mut IdCounter) -> (r: TypeId)
        ensures
            r.0 == old(counter).next_id(),
            final(counter).next_id() == old(counter).next_id().wrapping_add(1),
    {
        TypeId(counter.take())
    }
}

impl FieldId {
    /// A field identifier taken from `counter`: the counter's number, which then
    /// moves on by one. Until the counter wraps around, no earlier call on the
    /// same counter has handed it out.
    pub fn new(counter: &mut IdCounter) -> (r: FieldId)
        ensures
            r.0 == old(counter).next_id(),
            final(counter).next_id() == old(counter).next_id().wrapping_add(1),
    {
        FieldId(counter.take())
    }
}

impl VarId {
    /// A variable identifier taken from `counter`: the counter's number, which then
    /// moves on by one. Until the counter wraps around, no earlier call on the
    /// same counter has handed it out.
    pub fn new(counter: &mut IdCounter) -> (r: VarId)
        ensures
            r.0 == old(counter).next_id(),
            final(counter).next_id() == old(counter).next_id().wrapping_add(1),
    {
        VarId(counter.take())
    }

    pub fn index(&self) -> (r: usize)
        ensures
            r == self.0,
    {
        self.0
    }
}


/// The types of the language.
///
/// The entries of `Enum` and `Struct` stand for a map from field to type: their
/// order does not matter, and a later entry for a field overrides an earlier
/// one (see [`canon`] and [`Type::equals`]).
#[derive(Debug, Hash)]
pub enum Type {
    Unit,
    Integer,
    Double,
    String,
    Function { params: Vec<Type>, ret: Box<Type> },
    Enum { kinds: Vec<(FieldId, Type)> },
    Struct { fields: Vec<(FieldId, Type)> },
    Ref(TypeId),
}

/// The mathematical model of a [`Type`].
pub enum SpecType {
    Unit,
    Integer,
    Double,
    String,
    Function { params: Seq<SpecType>, ret: Box<SpecType> },
    Enum { kinds: Seq<(FieldId, SpecType)> },
    Struct { fields: Seq<(FieldId, SpecType)> },
    Ref(TypeId),
}

/// The models of a sequence of types, one for one.
pub open spec fn view_types(ts: Seq<Type>) -> Seq<SpecType>
    decreases ts, 0nat,
{
    Seq::new(ts.len(), |i: int| if 0 <= i < ts.len() { ts[i].view_rec() } else { SpecType::Unit })
}

/// The models of a sequence of field entries, one for one.
pub open spec fn view_entries(es: Seq<(FieldId, Type)>) -> Seq<(FieldId, SpecType)>
    decreases es, 0nat,
{
    Seq::new(
        es.len(),
        |i: int|
            if 0 <= i < es.len() {
                (es[i].0, es[i].1.view_rec())
            } else {
                (FieldId(0), SpecType::Unit)
            },
    )
}

impl Type {
    pub open spec fn view_rec(&self) -> SpecType
        decreases self, 1nat,
    {
        match self {
            Type::Unit => SpecType::Unit,
            Type::Integer => SpecType::Integer,
            Type::Double => SpecType::Double,
            Type::String => SpecType::String,
            Type::Function { params, ret } => SpecType::Function {
                params: view_types(params@),
                ret: Box::new((**ret).view_rec()),
            },
            Type::Enum { kinds } => SpecType::Enum { kinds: view_entries(kinds@) },
            Type::Struct { fields } => SpecType::Struct { fields: view_entries(fields@) },
            Type::Ref(id) => SpecType::Ref(*id),
        }
    }
}

impl View for Type {
    type V = SpecType;

    open spec fn view(&self) -> SpecType {
        self.view_rec()
    }
}

/// A copy of a sequence of types.
pub fn copy_types(ts: &Vec<Type>) -> (r: Vec<Type>)
    ensures
        r@.len() == ts@.len(),
        forall|j: int| #![trigger r@[j]] 0 <= j < ts@.len() ==> r@[j]@ == ts@[j]@,
    decreases ts@, 0nat,
{
    let mut r: Vec<Type> = Vec::new();
    let mut i: usize = 0;
    while i < ts.len()
        invariant
            i <= ts.len(),
            r@.len() == i,
            forall|j: int| #![trigger r@[j]] 0 <= j < i ==> r@[j]@ == ts@[j]@,
        decreases ts.len() - i,
    {
        let t = ts[i].copy();
        r.push(t);
        i = i + 1;
    }
    r
}

/// A copy of a sequence of field entries.
pub fn copy_entries(es: &Vec<(FieldId, Type)>) -> (r: Vec<(FieldId, Type)>)
    ensures
        r@.len() == es@.len(),
        forall|j: int| #![trigger r@[j]] 0 <= j < es@.len() ==> r@[j].0 == es@[j].0 && r@[j].1@ == es@[j].1@,
    decreases es@, 0nat,
{
    let mut r: Vec<(FieldId, Type)> = Vec::new();
    let mut i: usize = 0;
    while i < es.len()
        invariant
            i <= es.len(),
            r@.len() == i,
            forall|j: int| #![trigger r@[j]] 0 <= j < i ==> r@[j].0 == es@[j].0 && r@[j].1@ == es@[j].1@,
        decreases es.len() - i,
    {
        let e = (es[i].0, es[i].1.copy());
        r.push(e);
        i = i + 1;
    }
    r
}

impl Type {
    /// A copy of this type.
    pub fn copy(&self) -> (r: Type)
        ensures
            r@ == self@,
        decreases self, 1nat,
    {
        match self {
            Type::Unit => Type::Unit,
            Type::Integer => Type::Integer,
            Type::Double => Type::Double,
            Type::String => Type::String,
            Type::Function { params, ret } => {
                let ps = copy_types(params);
                let r = ret.copy();
                assert(view_types(ps@) =~= view_types(params@));
                Type::Function { params: ps, ret: Box::new(r) }
            },
            Type::Enum { kinds } => {
                let es = copy_entries(kinds);
                assert(view_entries(es@) =~= view_entries(kinds@));
                Type::Enum { kinds: es }
            },
            Type::Struct { fields } => {
                let es = copy_entries(fields);
                assert(view_entries(es@) =~= view_entries(fields@));
                Type::Struct { fields: es }
            },
            Type::Ref(id) => Type::Ref(*id),
        }
    }
}


/// Whether two sequences of types have equal models.
pub fn types_equal(a: &Vec<Type>, b: &Vec<Type>) -> (r: bool)
    ensures
        r == (view_types(a@) == view_types(b@)),
    decreases a@, 0nat,
{
    if a.len() != b.len() {
        proof {
            assert(view_types(a@).len() != view_types(b@).len());
        }
        return false;
    }
    let mut i: usize = 0;
    while i < a.len()
        invariant
            i <= a.len(),
            a.len() == b.len(),
            forall|j: int| #![trigger a@[j]] 0 <= j < i ==> a@[j]@ == b@[j]@,
        decreases a.len() - i,
    {
        if !a[i].identical(&b[i]) {
            proof {
                assert(view_types(a@)[i as int] != view_types(b@)[i as int]);
            }
            return false;
        }
        i = i + 1;
    }
    assert(view_types(a@) =~= view_types(b@));
    true
}

/// Whether two sequences of field entries have equal models.
pub fn entries_equal(a: &Vec<(FieldId, Type)>, b: &Vec<(FieldId, Type)>) -> (r: bool)
    ensures
        r == (view_entries(a@) == view_entries(b@)),
    decreases a@, 0nat,
{
    if a.len() != b.len() {
        proof {
            assert(view_entries(a@).len() != view_entries(b@).len());
        }
        return false;
    }
    let mut i: usize = 0;
    while i < a.len()
        invariant
            i <= a.len(),
            a.len() == b.len(),
            forall|j: int| #![trigger a@[j]] 0 <= j < i ==> a@[j].0 == b@[j].0 && a@[j].1@ == b@[j].1@,
        decreases a.len() - i,
    {
        if a[i].0.0 != b[i].0.0 || !a[i].1.identical(&b[i].1) {
            proof {
                assert(view_entries(a@)[i as int] != view_entries(b@)[i as int]);
            }
            return false;
        }
        i = i + 1;
    }
    assert(view_entries(a@) =~= view_entries(b@));
    true
}

impl Type {
    /// Whether the two types are written the same way, entry for entry.
    pub fn identical(&self, other: &Type) -> (r: bool)
        ensures
            r == (self@ == other@),
        decreases self, 1nat,
    {
        match (self, other) {
            (Type::Unit, Type::Unit) => true,
            (Type::Integer, Type::Integer) => true,
            (Type::Double, Type::Double) => true,
            (Type::String, Type::String) => true,
            (Type::Function { params: p1, ret: r1 }, Type::Function { params: p2, ret: r2 }) => {
                types_equal(p1, p2) && r1.identical(r2)
            },
            (Type::Enum { kinds: k1 }, Type::Enum { kinds: k2 }) => entries_equal(k1, k2),
            (Type::Struct { fields: f1 }, Type::Struct { fields: f2 }) => entries_equal(f1, f2),
            (Type::Ref(t1), Type::Ref(t2)) => t1.0 == t2.0,
            _ => false,
        }
    }

    /// The type of functions from `params` to `ret`.
    #[allow(non_snake_case)]
    pub fn Function(params: &[Type], ret: Type) -> (r: Type)
        ensures
            r@ == (SpecType::Function { params: view_types(params@), ret: Box::new(ret@) }),
    {
        let mut ps: Vec<Type> = Vec::new();
        let mut i: usize = 0;
        while i < params.len()
            invariant
                i <= params.len(),
                ps@.len() == i,
                forall|j: int| #![trigger ps@[j]] 0 <= j < i ==> ps@[j]@ == params@[j]@,
            decreases params.len() - i,
        {
            ps.push(params[i].copy());
            i = i + 1;
        }
        assert(view_types(ps@) =~= view_types(params@));
        Type::Function { params: ps, ret: Box::new(ret) }
    }
}

/// The entries `s`, ascending by field and each field once, with `e` put in
/// its place; an entry already there for `e`'s field gives way to `e`.
pub open spec fn insert_entry(s: Seq<(FieldId, SpecType)>, e: (FieldId, SpecType)) -> Seq<(FieldId, SpecType)>
    decreases s.len(),
{
    if s.len() == 0 {
        seq![e]
    } else if e.0.0 < s[0].0.0 {
        seq![e] + s
    } else if e.0.0 == s[0].0.0 {
        seq![e] + s.drop_first()
    } else {
        seq![s[0]] + insert_entry(s.drop_first(), e)
    }
}

/// The entries as a map holds them: in ascending field order, each field once,
/// bound by its last entry.
pub open spec fn sort_entries(es: Seq<(FieldId, SpecType)>) -> Seq<(FieldId, SpecType)>
    decreases es.len(),
{
    if es.len() == 0 {
        Seq::empty()
    } else {
        insert_entry(sort_entries(es.drop_last()), es.last())
    }
}

/// The canonical form of a type: the entries of every enum and struct type
/// within it as a map holds them. Two types are the same type when their
/// canonical forms are equal.
pub open spec fn canon(t: SpecType) -> SpecType
    decreases t, 1nat,
{
    match t {
        SpecType::Function { params, ret } => SpecType::Function {
            params: canon_types(params),
            ret: Box::new(canon(*ret)),
        },
        SpecType::Enum { kinds } => SpecType::Enum { kinds: sort_entries(canon_entries(kinds)) },
        SpecType::Struct { fields } => SpecType::Struct { fields: sort_entries(canon_entries(fields)) },
        _ => t,
    }
}

/// The canonical forms of a sequence of types, one for one.
pub open spec fn canon_types(ts: Seq<SpecType>) -> Seq<SpecType>
    decreases ts, 0nat,
{
    Seq::new(ts.len(), |i: int| if 0 <= i < ts.len() { canon(ts[i]) } else { SpecType::Unit })
}

/// The entries with each type in canonical form, in the same order.
pub open spec fn canon_entries(es: Seq<(FieldId, SpecType)>) -> Seq<(FieldId, SpecType)>
    decreases es, 0nat,
{
    Seq::new(
        es.len(),
        |i: int|
            if 0 <= i < es.len() {
                (es[i].0, canon(es[i].1))
            } else {
                (FieldId(0), SpecType::Unit)
            },
    )
}

proof fn lemma_view_entries_push(es: Seq<(FieldId, Type)>, e: (FieldId, Type))
    ensures
        view_entries(es.push(e)) == view_entries(es).push((e.0, e.1@)),
{
    assert(view_entries(es.push(e)) =~= view_entries(es).push((e.0, e.1@)));
}

/// `acc` with `e` put in its place (see [`insert_entry`]).
fn insert_sorted(acc: &Vec<(FieldId, Type)>, e: (FieldId, Type)) -> (r: Vec<(FieldId, Type)>)
    ensures
        view_entries(r@) == insert_entry(view_entries(acc@), (e.0, e.1@)),
{
    let ghost sv = view_entries(acc@);
    let ghost ev = (e.0, e.1@);
    let mut out: Vec<(FieldId, Type)> = Vec::new();
    let mut i: usize = 0;
    assert(sv.take(0) + sv.skip(0) =~= sv);
    assert(view_entries(out@) =~= sv.take(0));
    while i < acc.len() && acc[i].0.0 < e.0.0
        invariant
            i <= acc.len(),
            sv == view_entries(acc@),
            ev == (e.0, e.1@),
            view_entries(out@) == sv.take(i as int),
            insert_entry(sv, ev) == sv.take(i as int) + insert_entry(sv.skip(i as int), ev),
        decreases acc.len() - i,
    {
        proof {
            let t = sv.skip(i as int);
            assert(t[0] == sv[i as int]);
            assert(t.drop_first() =~= sv.skip(i + 1));
            assert(sv.take(i as int) + seq![sv[i as int]] =~= sv.take(i + 1));
            assert(sv.take(i as int).push(sv[i as int]) =~= sv.take(i + 1));
        }
        let x = (acc[i].0, acc[i].1.copy());
        proof {
            lemma_view_entries_push(out@, x);
        }
        out.push(x);
        i = i + 1;
    }
    let ghost rest = sv.skip(i as int);
    let mut j: usize = i;
    if i < acc.len() && acc[i].0.0 == e.0.0 {
        j = i + 1;
        assert(rest.drop_first() =~= sv.skip(j as int));
    } else {
        assert(i < acc.len() ==> rest[0] == sv[i as int]);
    }
    assert(insert_entry(rest, ev) == seq![ev] + sv.skip(j as int));
    proof {
        lemma_view_entries_push(out@, e);
    }
    out.push(e);
    assert(view_entries(out@) + sv.skip(j as int) =~= sv.take(i as int) + (seq![ev] + sv.skip(j as int)));
    while j < acc.len()
        invariant
            i <= j <= acc.len(),
            sv == view_entries(acc@),
            insert_entry(sv, ev) == sv.take(i as int) + insert_entry(rest, ev),
            view_entries(out@) + sv.skip(j as int) == sv.take(i as int) + insert_entry(rest, ev),
        decreases acc.len() - j,
    {
        let x = (acc[j].0, acc[j].1.copy());
        proof {
            lemma_view_entries_push(out@, x);
            assert(sv.skip(j as int) =~= seq![sv[j as int]] + sv.skip(j + 1));
            assert(view_entries(out@).push(sv[j as int]) + sv.skip(j + 1) =~= view_entries(out@) + sv.skip(j as int));
        }
        out.push(x);
        j = j + 1;
    }
    assert(sv.skip(j as int) =~= Seq::<(FieldId, SpecType)>::empty());
    assert(view_entries(out@) =~= view_entries(out@) + sv.skip(j as int));
    out
}

/// The entries as a map holds them (see [`sort_entries`]).
fn sorted_entries(es: &Vec<(FieldId, Type)>) -> (r: Vec<(FieldId, Type)>)
    ensures
        view_entries(r@) == sort_entries(view_entries(es@)),
{
    let ghost sv = view_entries(es@);
    let mut acc: Vec<(FieldId, Type)> = Vec::new();
    let mut i: usize = 0;
    assert(view_entries(acc@) =~= sort_entries(sv.take(0)));
    while i < es.len()
        invariant
            i <= es.len(),
            sv == view_entries(es@),
            view_entries(acc@) == sort_entries(sv.take(i as int)),
        decreases es.len() - i,
    {
        proof {
            let t = sv.take(i + 1);
            assert(t.drop_last() =~= sv.take(i as int));
            assert(t.last() == sv[i as int]);
        }
        let e = (es[i].0, es[i].1.copy());
        acc = insert_sorted(&acc, e);
        i = i + 1;
    }
    assert(sv.take(es.len() as int) =~= sv);
    acc
}

/// The canonical forms of a sequence of types.
fn canonical_types(ts: &Vec<Type>) -> (r: Vec<Type>)
    ensures
        view_types(r@) == canon_types(view_types(ts@)),
    decreases ts@, 0nat,
{
    let mut r: Vec<Type> = Vec::new();
    let mut i: usize = 0;
    while i < ts.len()
        invariant
            i <= ts.len(),
            r@.len() == i,
            forall|j: int| #![trigger r@[j]] 0 <= j < i ==> r@[j]@ == canon(ts@[j]@),
        decreases ts.len() - i,
    {
        let t = ts[i].canonical();
        r.push(t);
        i = i + 1;
    }
    assert(view_types(r@) =~= canon_types(view_types(ts@)));
    r
}

/// The entries with each type in canonical form.
fn canonical_entries(es: &Vec<(FieldId, Type)>) -> (r: Vec<(FieldId, Type)>)
    ensures
        view_entries(r@) == canon_entries(view_entries(es@)),
    decreases es@, 0nat,
{
    let mut r: Vec<(FieldId, Type)> = Vec::new();
    let mut i: usize = 0;
    while i < es.len()
        invariant
            i <= es.len(),
            r@.len() == i,
            forall|j: int| #![trigger r@[j]] 0 <= j < i ==> r@[j].0 == es@[j].0 && r@[j].1@ == canon(es@[j].1@),
        decreases es.len() - i,
    {
        let e = (es[i].0, es[i].1.canonical());
        r.push(e);
        i = i + 1;
    }
    assert(view_entries(r@) =~= canon_entries(view_entries(es@)));
    r
}

impl Type {
    /// This type in canonical form (see [`canon`]).
    pub fn canonical(&self) -> (r: Type)
        ensures
            r@ == canon(self@),
        decreases self, 1nat,
    {
        match self {
            Type::Function { params, ret } => {
                let ps = canonical_types(params);
                let r = ret.canonical();
                Type::Function { params: ps, ret: Box::new(r) }
            },
            Type::Enum { kinds } => {
                let es = canonical_entries(kinds);
                Type::Enum { kinds: sorted_entries(&es) }
            },
            Type::Struct { fields } => {
                let es = canonical_entries(fields);
                Type::Struct { fields: sorted_entries(&es) }
            },
            _ => self.copy(),
        }
    }

    /// Whether the two are the same type: equal once the entries of their
    /// enum and struct types are taken as maps.
    pub fn equals(&self, other: &Type) -> (r: bool)
        ensures
            r == (canon(self@) == canon(other@)),
    {
        self.canonical().identical(&other.canonical())
    }
}

impl Clone for Type {
    fn clone(&self) -> (r: Type)
        ensures
            r@ == self@,
    {
        self.copy()
    }
}

impl PartialEq for Type {
    fn eq(&self, other: &Type) -> (r: bool) {
        self.equals(other)
    }
}

impl vstd::std_specs::cmp::PartialEqSpecImpl for Type {
    open spec fn obeys_eq_spec() -> bool {
        true
    }

    open spec fn eq_spec(&self, other: &Type) -> bool {
        canon(self@) == canon(other@)
    }
}

impl Eq for Type {}


#[derive(Debug, Copy, Clone, PartialEq, Eq, Structural)]
pub enum Builtin {
    /// Integer addition of the two variables.
    AddI(VarId, VarId),
    /// The field of the struct or enum that the variable holds.
    ExtractField(VarId, FieldId),
}

/// Values of the language.
///
/// The entries of `Struct` stand for a map from field to value: a field occurs
/// at most once.
#[derive(Debug)]
pub enum Value {
    Unit,
    Integer(i64),
    Double(Decimal),
    String(String),
    Function { params: Vec<(VarId, Type)>, body: Box<Expr> },
    Enum { field: FieldId, value: Box<Value> },
    Struct { fields: Vec<(FieldId, Box<Value>)> },
}

/// Expressions of the bound tree.
///
/// The entries of `Let` stand for a map from variable to its definition: a
/// variable is bound at most once.
#[derive(Debug)]
pub enum Expr {
    Value(Value, Option<DebugInfo>),
    Var(VarId, Option<DebugInfo>),
    Let { bind: Vec<(VarId, Expr)>, expr: Box<Expr>, debug: Option<DebugInfo> },
    Call { func: VarId, args: Vec<Expr>, debug: Option<DebugInfo> },
    Builtin(Builtin),
}

/// A declaration: a named type or an expression.
pub enum Decl {
    /// Using a TypeId allows recursive types. It also allows differentiation between
    /// similar sum and product types.
    Typedef(TypeId, Type),
    Expr(Expr),
}

/// The model of a [`Value`].
pub enum SpecValue {
    Unit,
    Integer(i64),
    Double(SpecDecimal),
    String(Seq<char>),
    Function { params: Seq<(VarId, SpecType)>, body: Box<SpecExpr> },
    Enum { field: FieldId, value: Box<SpecValue> },
    Struct { fields: Seq<(FieldId, SpecValue)> },
}

/// The model of an [`Expr`].
pub enum SpecExpr {
    Value(SpecValue, Option<DebugInfo>),
    Var(VarId, Option<DebugInfo>),
    Let { bind: Seq<(VarId, SpecExpr)>, expr: Box<SpecExpr>, debug: Option<DebugInfo> },
    Call { func: VarId, args: Seq<SpecExpr>, debug: Option<DebugInfo> },
    Builtin(Builtin),
}

/// The models of function parameters, one for one.
pub open spec fn view_params(ps: Seq<(VarId, Type)>) -> Seq<(VarId, SpecType)> {
    Seq::new(ps.len(), |i: int| (ps[i].0, ps[i].1@))
}

pub open spec fn view_fields(fs: Seq<(FieldId, Box<Value>)>) -> Seq<(FieldId, SpecValue)>
    decreases fs, 0nat,
{
    Seq::new(
        fs.len(),
        |i: int|
            if 0 <= i < fs.len() {
                (fs[i].0, (*fs[i].1).view_rec())
            } else {
                (FieldId(0), SpecValue::Unit)
            },
    )
}

pub open spec fn view_binds(bs: Seq<(VarId, Expr)>) -> Seq<(VarId, SpecExpr)>
    decreases bs, 0nat,
{
    Seq::new(
        bs.len(),
        |i: int|
            if 0 <= i < bs.len() {
                (bs[i].0, bs[i].1.view_rec())
            } else {
                (VarId(0), SpecExpr::Var(VarId(0), None))
            },
    )
}

pub open spec fn view_exprs(es: Seq<Expr>) -> Seq<SpecExpr>
    decreases es, 0nat,
{
    Seq::new(
        es.len(),
        |i: int|
            if 0 <= i < es.len() {
                es[i].view_rec()
            } else {
                SpecExpr::Var(VarId(0), None)
            },
    )
}

impl Value {
    pub open spec fn view_rec(&self) -> SpecValue
        decreases self, 1nat,
    {
        match self {
            Value::Unit => SpecValue::Unit,
            Value::Integer(i) => SpecValue::Integer(*i),
            Value::Double(d) => SpecValue::Double(d@),
            Value::String(s) => SpecValue::String(s@),
            Value::Function { params, body } => SpecValue::Function {
                params: view_params(params@),
                body: Box::new((**body).view_rec()),
            },
            Value::Enum { field, value } => SpecValue::Enum {
                field: *field,
                value: Box::new((**value).view_rec()),
            },
            Value::Struct { fields } => SpecValue::Struct { fields: view_fields(fields@) },
        }
    }
}

impl Expr {
    pub open spec fn view_rec(&self) -> SpecExpr
        decreases self, 1nat,
    {
        match self {
            Expr::Value(v, d) => SpecExpr::Value(v.view_rec(), *d),
            Expr::Var(v, d) => SpecExpr::Var(*v, *d),
            Expr::Let { bind, expr, debug } => SpecExpr::Let {
                bind: view_binds(bind@),
                expr: Box::new((**expr).view_rec()),
                debug: *debug,
            },
            Expr::Call { func, args, debug } => SpecExpr::Call {
                func: *func,
                args: view_exprs(args@),
                debug: *debug,
            },
            Expr::Builtin(b) => SpecExpr::Builtin(*b),
        }
    }
}

impl View for Value {
    type V = SpecValue;

    open spec fn view(&self) -> SpecValue {
        self.view_rec()
    }
}

impl View for Expr {
    type V = SpecExpr;

    open spec fn view(&self) -> SpecExpr {
        self.view_rec()
    }
}


/// A copy of a parameter list.
pub fn copy_params(ps: &Vec<(VarId, Type)>) -> (r: Vec<(VarId, Type)>)
    ensures
        view_params(r@) == view_params(ps@),
{
    let mut r: Vec<(VarId, Type)> = Vec::new();
    let mut i: usize = 0;
    while i < ps.len()
        invariant
            i <= ps.len(),
            r@.len() == i,
            forall|j: int| #![trigger r@[j]] 0 <= j < i ==> r@[j].0 == ps@[j].0 && r@[j].1@ == ps@[j].1@,
        decreases ps.len() - i,
    {
        r.push((ps[i].0, ps[i].1.copy()));
        i = i + 1;
    }
    assert(view_params(r@) =~= view_params(ps@));
    r
}

/// A copy of the entries of a struct value.
pub fn copy_fields(fs: &Vec<(FieldId, Box<Value>)>) -> (r: Vec<(FieldId, Box<Value>)>)
    ensures
        view_fields(r@) == view_fields(fs@),
    decreases fs@, 0nat,
{
    let mut r: Vec<(FieldId, Box<Value>)> = Vec::new();
    let mut i: usize = 0;
    while i < fs.len()
        invariant
            i <= fs.len(),
            r@.len() == i,
            forall|j: int| #![trigger r@[j]] 0 <= j < i ==> r@[j].0 == fs@[j].0 && (*r@[j].1)@ == (*fs@[j].1)@,
        decreases fs.len() - i,
    {
        let v = fs[i].1.copy();
        r.push((fs[i].0, Box::new(v)));
        i = i + 1;
    }
    assert(view_fields(r@) =~= view_fields(fs@));
    r
}

/// A copy of the bindings of a `Let`.
pub fn copy_binds(bs: &Vec<(VarId, Expr)>) -> (r: Vec<(VarId, Expr)>)
    ensures
        view_binds(r@) == view_binds(bs@),
    decreases bs@, 0nat,
{
    let mut r: Vec<(VarId, Expr)> = Vec::new();
    let mut i: usize = 0;
    while i < bs.len()
        invariant
            i <= bs.len(),
            r@.len() == i,
            forall|j: int| #![trigger r@[j]] 0 <= j < i ==> r@[j].0 == bs@[j].0 && r@[j].1@ == bs@[j].1@,
        decreases bs.len() - i,
    {
        let e = bs[i].1.copy();
        r.push((bs[i].0, e));
        i = i + 1;
    }
    assert(view_binds(r@) =~= view_binds(bs@));
    r
}

/// A copy of a list of expressions.
pub fn copy_exprs(es: &Vec<Expr>) -> (r: Vec<Expr>)
    ensures
        view_exprs(r@) == view_exprs(es@),
    decreases es@, 0nat,
{
    let mut r: Vec<Expr> = Vec::new();
    let mut i: usize = 0;
    while i < es.len()
        invariant
            i <= es.len(),
            r@.len() == i,
            forall|j: int| #![trigger r@[j]] 0 <= j < i ==> r@[j]@ == es@[j]@,
        decreases es.len() - i,
    {
        r.push(es[i].copy());
        i = i + 1;
    }
    assert(view_exprs(r@) =~= view_exprs(es@));
    r
}

impl Value {
    /// A copy of this value.
    pub fn copy(&self) -> (r: Value)
        ensures
            r@ == self@,
        decreases self, 1nat,
    {
        match self {
            Value::Unit => Value::Unit,
            Value::Integer(i) => Value::Integer(*i),
            Value::Double(d) => Value::Double(d.copy()),
            Value::String(s) => Value::String(s.clone()),
            Value::Function { params, body } => {
                let ps = copy_params(params);
                let b = body.copy();
                Value::Function { params: ps, body: Box::new(b) }
            },
            Value::Enum { field, value } => {
                let v = value.copy();
                Value::Enum { field: *field, value: Box::new(v) }
            },
            Value::Struct { fields } => Value::Struct { fields: copy_fields(fields) },
        }
    }
}

impl Expr {
    /// A copy of this expression.
    pub fn copy(&self) -> (r: Expr)
        ensures
            r@ == self@,
        decreases self, 1nat,
    {
        match self {
            Expr::Value(v, d) => Expr::Value(v.copy(), copy_debug(d)),
            Expr::Var(v, d) => Expr::Var(*v, copy_debug(d)),
            Expr::Let { bind, expr, debug } => {
                let b = copy_binds(bind);
                let e = expr.copy();
                Expr::Let { bind: b, expr: Box::new(e), debug: copy_debug(debug) }
            },
            Expr::Call { func, args, debug } => {
                let a = copy_exprs(args);
                Expr::Call { func: *func, args: a, debug: copy_debug(debug) }
            },
            Expr::Builtin(b) => Expr::Builtin(*b),
        }
    }
}

/// The debug info that an expression carries, if any.
pub open spec fn debug_of(e: SpecExpr) -> Option<DebugInfo> {
    match e {
        SpecExpr::Value(_, d) => d,
        SpecExpr::Var(_, d) => d,
        SpecExpr::Let { debug, .. } => debug,
        SpecExpr::Call { debug, .. } => debug,
        SpecExpr::Builtin(_) => None,
    }
}

impl Expr {
    /// The debug info that this expression carries, if any.
    pub fn debug_info(&self) -> (r: Option<&DebugInfo>)
        ensures
            match r {
                Some(d) => debug_of(self@) == Some(*d),
                None => debug_of(self@) is None,
            },
    {
        match self {
            Expr::Value(_, d) => d.as_ref(),
            Expr::Var(_, d) => d.as_ref(),
            Expr::Let { debug, .. } => debug.as_ref(),
            Expr::Call { debug, .. } => debug.as_ref(),
            Expr::Builtin(_) => None,
        }
    }
}

/// The value of the first entry for field `f`, if there is one.
pub open spec fn field_value(fs: Seq<(FieldId, SpecValue)>, f: FieldId) -> Option<SpecValue>
    decreases fs.len(),
{
    if fs.len() == 0 {
        None
    } else if fs[0].0 == f {
        Some(fs[0].1)
    } else {
        field_value(fs.drop_first(), f)
    }
}

/// Whether two values are equal: functions never are, decimals are when they
/// denote the same number, and structs are when they have the same fields with
/// equal values, in any order.
pub open spec fn value_eq(a: SpecValue, b: SpecValue) -> bool
    decreases a, 1nat,
{
    match (a, b) {
        (SpecValue::Unit, SpecValue::Unit) => true,
        (SpecValue::Integer(x), SpecValue::Integer(y)) => x == y,
        (SpecValue::Double(x), SpecValue::Double(y)) => same_number(x, y),
        (SpecValue::String(x), SpecValue::String(y)) => x == y,
        (SpecValue::Enum { field: f1, value: v1 }, SpecValue::Enum { field: f2, value: v2 }) => f1 == f2
            && value_eq(*v1, *v2),
        (SpecValue::Struct { fields: f1 }, SpecValue::Struct { fields: f2 }) => f1.len() == f2.len()
            && fields_eq(f1, f2),
        _ => false,
    }
}

/// Whether every entry of `a` has an equal value under its field in `b`.
pub open spec fn fields_eq(a: Seq<(FieldId, SpecValue)>, b: Seq<(FieldId, SpecValue)>) -> bool
    decreases a, 0nat,
{
    if a.len() == 0 {
        true
    } else {
        match field_value(b, a[0].0) {
            Some(v) => value_eq(a[0].1, v) && fields_eq(a.drop_first(), b),
            None => false,
        }
    }
}

/// The value of the first entry for field `f`, if there is one.
fn find_field(fs: &Vec<(FieldId, Box<Value>)>, f: FieldId) -> (r: Option<&Value>)
    ensures
        match r {
            Some(v) => field_value(view_fields(fs@), f) == Some(v@),
            None => field_value(view_fields(fs@), f) is None,
        },
{
    let ghost vs = view_fields(fs@);
    let mut i: usize = 0;
    assert(vs.subrange(0, vs.len() as int) =~= vs);
    while i < fs.len()
        invariant
            i <= fs@.len(),
            vs == view_fields(fs@),
            field_value(vs, f) == field_value(vs.subrange(i as int, vs.len() as int), f),
        decreases fs@.len() - i,
    {
        proof {
            let t = vs.subrange(i as int, vs.len() as int);
            assert(t.drop_first() =~= vs.subrange(i + 1, vs.len() as int));
            assert(t[0] == vs[i as int]);
        }
        if fs[i].0 == f {
            return Some(&*fs[i].1);
        }
        i = i + 1;
    }
    assert(vs.subrange(i as int, vs.len() as int) =~= Seq::<(FieldId, SpecValue)>::empty());
    None
}

/// Whether every entry of `a` has an equal value under its field in `b`.
fn fields_same(a: &Vec<(FieldId, Box<Value>)>, b: &Vec<(FieldId, Box<Value>)>) -> (r: bool)
    ensures
        r == fields_eq(view_fields(a@), view_fields(b@)),
    decreases a@, 0nat,
{
    let ghost av = view_fields(a@);
    let ghost bv = view_fields(b@);
    let mut i: usize = 0;
    assert(av.subrange(0, av.len() as int) =~= av);
    while i < a.len()
        invariant
            i <= a@.len(),
            av == view_fields(a@),
            bv == view_fields(b@),
            fields_eq(av, bv) == fields_eq(av.subrange(i as int, av.len() as int), bv),
        decreases a@.len() - i,
    {
        proof {
            let t = av.subrange(i as int, av.len() as int);
            assert(t.drop_first() =~= av.subrange(i + 1, av.len() as int));
            assert(t[0] == av[i as int]);
        }
        match find_field(b, a[i].0) {
            Some(v) => {
                if !a[i].1.same(v) {
                    return false;
                }
            },
            None => {
                return false;
            },
        }
        i = i + 1;
    }
    assert(av.subrange(i as int, av.len() as int) =~= Seq::<(FieldId, SpecValue)>::empty());
    true
}

impl Value {
    /// Whether the two values are equal (see [`value_eq`]).
    pub fn same(&self, other: &Value) -> (r: bool)
        ensures
            r == value_eq(self@, other@),
        decreases self, 1nat,
    {
        match self {
            Value::Unit => match other {
                Value::Unit => true,
                _ => false,
            },
            Value::Integer(x) => match other {
                Value::Integer(y) => *x == *y,
                _ => false,
            },
            Value::Double(x) => match other {
                Value::Double(y) => x.same_number(y),
                _ => false,
            },
            Value::String(x) => match other {
                Value::String(y) => *x == *y,
                _ => false,
            },
            Value::Function { .. } => false,
            Value::Enum { field: f1, value: v1 } => match other {
                Value::Enum { field: f2, value: v2 } => *f1 == *f2 && v1.same(v2),
                _ => false,
            },
            Value::Struct { fields: f1 } => match other {
                Value::Struct { fields: f2 } => {
                    assert(view_fields(f1@).len() == f1@.len());
                    assert(view_fields(f2@).len() == f2@.len());
                    f1.len() == f2.len() && fields_same(f1, f2)
                },
                _ => false,
            },
        }
    }
}

impl PartialEq for Value {
    fn eq(&self, other: &Value) -> (r: bool) {
        self.same(other)
    }
}

impl vstd::std_specs::cmp::PartialEqSpecImpl for Value {
    open spec fn obeys_eq_spec() -> bool {
        true
    }

    open spec fn eq_spec(&self, other: &Value) -> bool {
        value_eq(self@, other@)
    }
}

impl Builtin {
    /// The type of the builtin: integer addition takes two integers to an integer.
    pub fn get_type(&self) -> (r: Type)
        requires
            self is AddI,
        ensures
            r@ == (SpecType::Function { params: seq![SpecType::Integer, SpecType::Integer], ret: Box::new(SpecType::Integer) }),
    {
        let r = Type::Function(&[Type::Integer, Type::Integer], Type::Integer);
        assert(view_types(seq![Type::Integer, Type::Integer]) =~= seq![SpecType::Integer, SpecType::Integer]);
        r
    }
}

impl Clone for Value {
    fn clone(&self) -> (r: Value)
        ensures
            r@ == self@,
    {
        self.copy()
    }
}

impl Clone for Expr {
    fn clone(&self) -> (r: Expr)
        ensures
            r@ == self@,
    {
        self.copy()
    }
}


/// Whether `v` is bound by one of the bindings.
pub open spec fn binds_var(bs: Seq<(VarId, SpecExpr)>, v: VarId) -> bool {
    exists|i: int| 0 <= i < bs.len() && #[trigger] bs[i].0 == v
}

/// The variables of `vs`, in order, that none of the bindings binds.
pub open spec fn not_bound(vs: Seq<VarId>, bs: Seq<(VarId, SpecExpr)>) -> Seq<VarId>
    decreases vs.len(),
{
    if vs.len() == 0 {
        Seq::empty()
    } else if binds_var(bs, vs[0]) {
        not_bound(vs.drop_first(), bs)
    } else {
        seq![vs[0]] + not_bound(vs.drop_first(), bs)
    }
}

/// The variables that an expression uses from outside, in order of occurrence.
///
/// A value contributes none (not even the free variables of a function body),
/// and a `Let` contributes those of its body that it does not bind; the
/// definitions of its bindings are not looked into.
pub open spec fn unbound(e: SpecExpr) -> Seq<VarId>
    decreases e,
{
    match e {
        SpecExpr::Value(_, _) => Seq::empty(),
        SpecExpr::Var(v, _) => seq![v],
        SpecExpr::Let { bind, expr, .. } => not_bound(unbound(*expr), bind),
        SpecExpr::Call { func, args, .. } => seq![func] + unbound_all(args),
        SpecExpr::Builtin(Builtin::AddI(a, b)) => seq![a, b],
        SpecExpr::Builtin(Builtin::ExtractField(v, _)) => seq![v],
    }
}

/// The variables used from outside by each expression, concatenated in order.
pub open spec fn unbound_all(es: Seq<SpecExpr>) -> Seq<VarId>
    decreases es,
{
    if es.len() == 0 {
        Seq::empty()
    } else {
        unbound(es[0]) + unbound_all(es.drop_first())
    }
}

fn push_all(r: &mut Vec<VarId>, vs: Vec<VarId>)
    ensures
        final(r)@ == old(r)@ + vs@,
{
    let mut i: usize = 0;
    while i < vs.len()
        invariant
            i <= vs.len(),
            r@ == old(r)@ + vs@.take(i as int),
        decreases vs.len() - i,
    {
        r.push(vs[i]);
        i = i + 1;
        assert(r@ =~= old(r)@ + vs@.take(i as int));
    }
    assert(vs@.take(vs.len() as int) =~= vs@);
}

pub fn binds_contains(bs: &Vec<(VarId, Expr)>, v: VarId) -> (r: bool)
    ensures
        r == binds_var(view_binds(bs@), v),
{
    let ghost bv = view_binds(bs@);
    let mut i: usize = 0;
    while i < bs.len()
        invariant
            i <= bs.len(),
            bv == view_binds(bs@),
            forall|j: int| 0 <= j < i ==> #[trigger] bv[j].0 != v,
        decreases bs.len() - i,
    {
        assert(bv[i as int].0 == bs@[i as int].0);
        if bs[i].0.0 == v.0 {
            return true;
        }
        i = i + 1;
    }
    false
}

impl Expr {
    /// The variables this expression uses from outside, in order of occurrence.
    #[verifier::loop_isolation(false)]
    pub fn unbound_variables(&self) -> (r: Vec<VarId>)
        ensures
            r@ == unbound(self@),
        decreases self,
    {
        match self {
            Expr::Value(_, _) => Vec::new(),
            Expr::Var(v, _) => {
                let r = vec![*v];
                assert(r@ =~= seq![*v]);
                r
            },
            Expr::Let { bind, expr, .. } => {
                let vars = expr.unbound_variables();
                let ghost bv = view_binds(bind@);
                let mut r: Vec<VarId> = Vec::new();
                let mut i: usize = 0;
                assert(vars@.subrange(0, vars@.len() as int) =~= vars@);
                while i < vars.len()
                    invariant
                        i <= vars.len(),
                        bv == view_binds(bind@),
                        not_bound(vars@, bv) == r@ + not_bound(vars@.subrange(i as int, vars@.len() as int), bv),
                    decreases vars.len() - i,
                {
                    proof {
                        let rest = vars@.subrange(i as int, vars@.len() as int);
                        assert(rest.drop_first() =~= vars@.subrange(i + 1, vars@.len() as int));
                        assert(rest[0] == vars@[i as int]);
                    }
                    if !binds_contains(bind, vars[i]) {
                        let ghost before = r@;
                        r.push(vars[i]);
                        proof {
                            let rest = vars@.subrange(i + 1, vars@.len() as int);
                            assert(before + (seq![vars@[i as int]] + not_bound(rest, bv)) =~= r@ + not_bound(rest, bv));
                        }
                    }
                    i = i + 1;
                }
                assert(vars@.subrange(vars@.len() as int, vars@.len() as int) =~= Seq::<VarId>::empty());
                assert(r@ + Seq::<VarId>::empty() =~= r@);
                r
            },
            Expr::Call { func, args, .. } => {
                let mut r: Vec<VarId> = vec![*func];
                let ghost av = view_exprs(args@);
                assert(av.subrange(0, av.len() as int) =~= av);
                assert(r@ =~= seq![*func]);
                let mut i: usize = 0;
                while i < args.len()
                    invariant
                        i <= args.len(),
                        av == view_exprs(args@),
                        seq![*func] + unbound_all(av) == r@ + unbound_all(av.subrange(i as int, av.len() as int)),
                    decreases args.len() - i,
                {
                    proof {
                        let rest = av.subrange(i as int, av.len() as int);
                        assert(rest.drop_first() =~= av.subrange(i + 1, av.len() as int));
                        assert(rest[0] == av[i as int]);
                    }
                    let vs = args[i].unbound_variables();
                    let ghost before = r@;
                    push_all(&mut r, vs);
                    proof {
                        let rest = av.subrange(i + 1, av.len() as int);
                        assert(before + (vs@ + unbound_all(rest)) =~= r@ + unbound_all(rest));
                    }
                    i = i + 1;
                }
                assert(av.subrange(av.len() as int, av.len() as int) =~= Seq::<SpecExpr>::empty());
                assert(r@ + Seq::<VarId>::empty() =~= r@);
                r
            },
            Expr::Builtin(Builtin::AddI(a, b)) => {
                let r = vec![*a, *b];
                assert(r@ =~= seq![*a, *b]);
                r
            },
            Expr::Builtin(Builtin::ExtractField(v, _)) => {
                let r = vec![*v];
                assert(r@ =~= seq![*v]);
                r
            },
        }
    }
}


/// `v` under the renaming `m` (keyed by variable number); unchanged where `m` says nothing.
pub open spec fn rename(m: Map<usize, VarId>, v: VarId) -> VarId {
    if m.contains_key(v.0) {
        m[v.0]
    } else {
        v
    }
}

/// Parameters with their variables renamed.
pub open spec fn rename_params(m: Map<usize, VarId>, ps: Seq<(VarId, SpecType)>) -> Seq<(VarId, SpecType)> {
    Seq::new(ps.len(), |i: int| (rename(m, ps[i].0), ps[i].1))
}

/// Bindings with their variables renamed and their definitions left as they are.
pub open spec fn rename_keys(m: Map<usize, VarId>, bs: Seq<(VarId, SpecExpr)>) -> Seq<(VarId, SpecExpr)> {
    Seq::new(bs.len(), |i: int| (rename(m, bs[i].0), bs[i].1))
}

/// `p` followed by the sequence in `o`, if there is one.
pub open spec fn opt_cat<A>(p: Seq<A>, o: Option<Seq<A>>) -> Option<Seq<A>> {
    match o {
        Some(s) => Some(p + s),
        None => None,
    }
}

/// `p` before the sequence in `o`, with the counter value that comes with it.
pub open spec fn opt_cat_fresh<A>(p: Seq<A>, o: Option<(Seq<A>, usize)>) -> Option<(Seq<A>, usize)> {
    match o {
        Some((s, n)) => Some((p + s, n)),
        None => None,
    }
}

/// `e` with every variable renamed by `m`, bound or not.
///
/// `None` when the renaming meets an enum or struct value, which it does not handle.
/// A renamed function value loses its debug info.
pub open spec fn mapped(m: Map<usize, VarId>, e: SpecExpr) -> Option<SpecExpr>
    decreases e,
{
    match e {
        SpecExpr::Value(v, d) => match v {
            SpecValue::Function { params, body } => match mapped(m, *body) {
                Some(b) => Some(
                    SpecExpr::Value(
                        SpecValue::Function { params: rename_params(m, params), body: Box::new(b) },
                        None,
                    ),
                ),
                None => None,
            },
            SpecValue::Enum { .. } => None,
            SpecValue::Struct { .. } => None,
            _ => Some(e),
        },
        SpecExpr::Var(v, d) => Some(SpecExpr::Var(rename(m, v), d)),
        SpecExpr::Let { bind, expr, debug } => match (mapped_binds(m, bind), mapped(m, *expr)) {
            (Some(b), Some(x)) => Some(SpecExpr::Let { bind: b, expr: Box::new(x), debug }),
            _ => None,
        },
        SpecExpr::Call { func, args, debug } => match mapped_all(m, args) {
            Some(a) => Some(SpecExpr::Call { func: rename(m, func), args: a, debug }),
            None => None,
        },
        SpecExpr::Builtin(Builtin::AddI(a, b)) => Some(SpecExpr::Builtin(Builtin::AddI(rename(m, a), rename(m, b)))),
        SpecExpr::Builtin(Builtin::ExtractField(v, f)) => Some(SpecExpr::Builtin(Builtin::ExtractField(rename(m, v), f))),
    }
}

pub open spec fn mapped_binds(m: Map<usize, VarId>, bs: Seq<(VarId, SpecExpr)>) -> Option<Seq<(VarId, SpecExpr)>>
    decreases bs,
{
    if bs.len() == 0 {
        Some(Seq::empty())
    } else {
        match (mapped(m, bs[0].1), mapped_binds(m, bs.drop_first())) {
            (Some(x), Some(rest)) => Some(seq![(rename(m, bs[0].0), x)] + rest),
            _ => None,
        }
    }
}

pub open spec fn mapped_all(m: Map<usize, VarId>, es: Seq<SpecExpr>) -> Option<Seq<SpecExpr>>
    decreases es,
{
    if es.len() == 0 {
        Some(Seq::empty())
    } else {
        match (mapped(m, es[0]), mapped_all(m, es.drop_first())) {
            (Some(x), Some(rest)) => Some(seq![x] + rest),
            _ => None,
        }
    }
}

fn rename_var(mapping: &HashMap<usize, VarId>, v: VarId) -> (r: VarId)
    ensures
        r == rename(mapping@, v),
{
    match mapping.get(&v.0) {
        Some(w) => *w,
        None => v,
    }
}

impl Expr {
    /// This expression with every variable renamed by `mapping`, bound or not.
    /// This can change what the expression means.
    #[verifier::loop_isolation(false)]
    fn with_mapped_vars(&self, mapping: &HashMap<usize, VarId>) -> (r: Option<Expr>)
        ensures
            match r {
                Some(x) => mapped(mapping@, self@) == Some(x@),
                None => mapped(mapping@, self@) is None,
            },
        decreases self,
    {
        match self {
            Expr::Value(value, _) => match value {
                Value::Function { params, body } => {
                    let mut ps: Vec<(VarId, Type)> = Vec::new();
                    let mut i: usize = 0;
                    while i < params.len()
                        invariant
                            i <= params.len(),
                            ps@.len() == i,
                            forall|j: int| #![trigger ps@[j]] 0 <= j < i ==> ps@[j].0 == rename(mapping@, params@[j].0) && ps@[j].1@ == params@[j].1@,
                        decreases params.len() - i,
                    {
                        ps.push((rename_var(mapping, params[i].0), params[i].1.copy()));
                        i = i + 1;
                    }
                    assert(view_params(ps@) =~= rename_params(mapping@, view_params(params@)));
                    assert(value@ == SpecValue::Function { params: view_params(params@), body: Box::new(body@) });
                    let b = match body.with_mapped_vars(mapping) {
                        Some(b) => b,
                        None => {
                            return None;
                        },
                    };
                    let ghost psv = view_params(ps@);
                    let ghost bv = b@;
                    let fv = Value::Function { params: ps, body: Box::new(b) };
                    assert(fv@ == SpecValue::Function { params: psv, body: Box::new(bv) });
                    let r = Expr::Value(fv, None);
                    assert(mapped(mapping@, body@) == Some(bv));
                    assert(self@ == SpecExpr::Value(value@, self@->Value_1));
                    assert(r@ == SpecExpr::Value(fv@, None));
                    Some(r)
                },
                Value::Enum { .. } => None,
                Value::Struct { .. } => None,
                _ => {
                    assert(mapped(mapping@, self@) == Some(self@));
                    Some(self.copy())
                },
            },
            Expr::Var(v, d) => Some(Expr::Var(rename_var(mapping, *v), copy_debug(d))),
            Expr::Let { bind, expr, debug } => {
                let ghost bv = view_binds(bind@);
                let mut bs: Vec<(VarId, Expr)> = Vec::new();
                let mut i: usize = 0;
                assert(bv.subrange(0, bv.len() as int) =~= bv);
                while i < bind.len()
                    invariant
                        i <= bind.len(),
                        bv == view_binds(bind@),
                        mapped_binds(mapping@, bv) == opt_cat(view_binds(bs@), mapped_binds(mapping@, bv.subrange(i as int, bv.len() as int))),
                    decreases bind.len() - i,
                {
                    proof {
                        let rest = bv.subrange(i as int, bv.len() as int);
                        assert(rest.drop_first() =~= bv.subrange(i + 1, bv.len() as int));
                        assert(rest[0] == bv[i as int]);
                    }
                    let x = match bind[i].1.with_mapped_vars(mapping) {
                        Some(x) => x,
                        None => {
                            return None;
                        },
                    };
                    let k = rename_var(mapping, bind[i].0);
                    let ghost before = bs@;
                    bs.push((k, x));
                    proof {
                        let rest = bv.subrange(i + 1, bv.len() as int);
                        assert(view_binds(bs@) =~= view_binds(before) + seq![(k, x@)]);
                        if mapped_binds(mapping@, rest) is Some {
                            assert(view_binds(before) + (seq![(k, x@)] + mapped_binds(mapping@, rest).unwrap()) =~= view_binds(bs@) + mapped_binds(mapping@, rest).unwrap());
                        }
                    }
                    i = i + 1;
                }
                assert(bv.subrange(bv.len() as int, bv.len() as int) =~= Seq::<(VarId, SpecExpr)>::empty());
                assert(view_binds(bs@) + Seq::<(VarId, SpecExpr)>::empty() =~= view_binds(bs@));
                let e = match expr.with_mapped_vars(mapping) {
                    Some(e) => e,
                    None => {
                        return None;
                    },
                };
                Some(Expr::Let { bind: bs, expr: Box::new(e), debug: copy_debug(debug) })
            },
            Expr::Call { func, args, debug } => {
                let ghost av = view_exprs(args@);
                let mut xs: Vec<Expr> = Vec::new();
                let mut i: usize = 0;
                assert(av.subrange(0, av.len() as int) =~= av);
                while i < args.len()
                    invariant
                        i <= args.len(),
                        av == view_exprs(args@),
                        mapped_all(mapping@, av) == opt_cat(view_exprs(xs@), mapped_all(mapping@, av.subrange(i as int, av.len() as int))),
                    decreases args.len() - i,
                {
                    proof {
                        let rest = av.subrange(i as int, av.len() as int);
                        assert(rest.drop_first() =~= av.subrange(i + 1, av.len() as int));
                        assert(rest[0] == av[i as int]);
                    }
                    let x = match args[i].with_mapped_vars(mapping) {
                        Some(x) => x,
                        None => {
                            return None;
                        },
                    };
                    let ghost before = xs@;
                    xs.push(x);
                    proof {
                        let rest = av.subrange(i + 1, av.len() as int);
                        assert(view_exprs(xs@) =~= view_exprs(before) + seq![x@]);
                        if mapped_all(mapping@, rest) is Some {
                            assert(view_exprs(before) + (seq![x@] + mapped_all(mapping@, rest).unwrap()) =~= view_exprs(xs@) + mapped_all(mapping@, rest).unwrap());
                        }
                    }
                    i = i + 1;
                }
                assert(av.subrange(av.len() as int, av.len() as int) =~= Seq::<SpecExpr>::empty());
                assert(view_exprs(xs@) + Seq::<SpecExpr>::empty() =~= view_exprs(xs@));
                Some(Expr::Call { func: rename_var(mapping, *func), args: xs, debug: copy_debug(debug) })
            },
            Expr::Builtin(Builtin::AddI(a, b)) => Some(Expr::Builtin(Builtin::AddI(rename_var(mapping, *a), rename_var(mapping, *b)))),
            Expr::Builtin(Builtin::ExtractField(v, f)) => Some(Expr::Builtin(Builtin::ExtractField(rename_var(mapping, *v), *f))),
        }
    }
}


/// Fresh names for those of `vs` that `in_scope` holds of, in order, drawn from the
/// counter value `next` onwards and added to `m` (a later one replacing an earlier
/// one for the same variable). Returns the renaming and the next counter value.
pub open spec fn fresh_map(vs: Seq<VarId>, in_scope: spec_fn(VarId) -> bool, m: Map<usize, VarId>, next: usize) -> (Map<usize, VarId>, usize)
    decreases vs.len(),
{
    if vs.len() == 0 {
        (m, next)
    } else if in_scope(vs[0]) {
        fresh_map(vs.drop_first(), in_scope, m.insert(vs[0].0, VarId(next)), next.wrapping_add(1))
    } else {
        fresh_map(vs.drop_first(), in_scope, m, next)
    }
}

/// `e` with the variables that it binds itself, where `in_scope` holds of them,
/// renamed to fresh ones drawn from the counter value `next`; returns the new
/// expression and the next counter value.
///
/// A function value renames its parameters (in its body too); a `Let` renames its
/// bound variables in its body and its binding list, but not inside the
/// definitions; a call does this for each argument in turn. Variables and
/// builtins are left alone. `None` when an enum or struct value is met.
pub open spec fn fresh(e: SpecExpr, in_scope: spec_fn(VarId) -> bool, next: usize) -> Option<(SpecExpr, usize)>
    decreases e,
{
    match e {
        SpecExpr::Value(v, d) => match v {
            SpecValue::Function { params, body } => {
                let (m, n) = fresh_map(Seq::new(params.len(), |i: int| params[i].0), in_scope, Map::empty(), next);
                match mapped(m, *body) {
                    Some(b) => Some(
                        (SpecExpr::Value(SpecValue::Function { params: rename_params(m, params), body: Box::new(b) }, d), n),
                    ),
                    None => None,
                }
            },
            SpecValue::Enum { .. } => None,
            SpecValue::Struct { .. } => None,
            _ => Some((e, next)),
        },
        SpecExpr::Var(_, _) => Some((e, next)),
        SpecExpr::Let { bind, expr, debug } => {
            let (m, n) = fresh_map(Seq::new(bind.len(), |i: int| bind[i].0), in_scope, Map::empty(), next);
            match mapped(m, *expr) {
                Some(x) => Some((SpecExpr::Let { bind: rename_keys(m, bind), expr: Box::new(x), debug }, n)),
                None => None,
            }
        },
        SpecExpr::Call { func, args, debug } => match fresh_all(args, in_scope, next) {
            Some((a, n)) => Some((SpecExpr::Call { func, args: a, debug }, n)),
            None => None,
        },
        SpecExpr::Builtin(_) => Some((e, next)),
    }
}

pub open spec fn fresh_all(es: Seq<SpecExpr>, in_scope: spec_fn(VarId) -> bool, next: usize) -> Option<(Seq<SpecExpr>, usize)>
    decreases es,
{
    if es.len() == 0 {
        Some((Seq::empty(), next))
    } else {
        match fresh(es[0], in_scope, next) {
            Some((x, n)) => match fresh_all(es.drop_first(), in_scope, n) {
                Some((rest, n2)) => Some((seq![x] + rest, n2)),
                None => None,
            },
            None => None,
        }
    }
}

/// Builds the renaming of [`fresh_map`] for the variables `vs`.
fn fresh_mapping<F: Fn(&VarId) -> bool>(
    vs: &Vec<VarId>,
    does_var_exist: &F,
    Ghost(in_scope): Ghost<spec_fn(VarId) -> bool>,
    counter: &mut IdCounter,
) -> (r: HashMap<usize, VarId>)
    requires
        forall|v: VarId| #[trigger] does_var_exist.requires((&v,)),
        forall|v: VarId, b: bool| does_var_exist.ensures((&v,), b) ==> b == in_scope(v),
    ensures
        (r@, final(counter).next_id()) == fresh_map(vs@, in_scope, Map::empty(), old(counter).next_id()),
{
    let mut m: HashMap<usize, VarId> = HashMap::new();
    let mut i: usize = 0;
    assert(vs@.subrange(0, vs@.len() as int) =~= vs@);
    while i < vs.len()
        invariant
            i <= vs.len(),
            forall|v: VarId| #[trigger] does_var_exist.requires((&v,)),
            forall|v: VarId, b: bool| does_var_exist.ensures((&v,), b) ==> b == in_scope(v),
            fresh_map(vs@, in_scope, Map::empty(), old(counter).next_id())
                == fresh_map(vs@.subrange(i as int, vs@.len() as int), in_scope, m@, counter.next_id()),
        decreases vs.len() - i,
    {
        proof {
            let rest = vs@.subrange(i as int, vs@.len() as int);
            assert(rest.drop_first() =~= vs@.subrange(i + 1, vs@.len() as int));
            assert(rest[0] == vs@[i as int]);
        }
        let v = vs[i];
        if does_var_exist(&v) {
            let n = counter.take();
            m.insert(v.0, VarId(n));
        }
        i = i + 1;
    }
    assert(vs@.subrange(vs@.len() as int, vs@.len() as int) =~= Seq::<VarId>::empty());
    m
}

impl Expr {
    /// This expression with the variables that it binds itself renamed, where
    /// `does_var_exist` holds of them, to fresh ones from `counter` (see [`fresh`]).
    /// This does not change what the expression means.
    ///
    /// What `does_var_exist` answers is given as `in_scope`: each call returns
    /// `in_scope` of its argument.
    pub fn with_fresh_vars<F: Fn(&VarId) -> bool>(
        &self,
        does_var_exist: &F,
        Ghost(in_scope): Ghost<spec_fn(VarId) -> bool>,
        counter: &mut IdCounter,
    ) -> (r: Expr)
        requires
            forall|v: VarId| #[trigger] does_var_exist.requires((&v,)),
            forall|v: VarId, b: bool| does_var_exist.ensures((&v,), b) ==> b == in_scope(v),
            fresh(self@, in_scope, old(counter).next_id()) is Some,
        ensures
            (r@, final(counter).next_id()) == fresh(self@, in_scope, old(counter).next_id()).unwrap(),
    {
        self.try_with_fresh_vars(does_var_exist, Ghost(in_scope), counter).unwrap()
    }

    /// [`Expr::with_fresh_vars`], or `None` where it meets an enum or struct
    /// value (see [`fresh`]).
    #[verifier::loop_isolation(false)]
    pub fn try_with_fresh_vars<F: Fn(&VarId) -> bool>(
        &self,
        does_var_exist: &F,
        Ghost(in_scope): Ghost<spec_fn(VarId) -> bool>,
        counter: &mut IdCounter,
    ) -> (r: Option<Expr>)
        requires
            forall|v: VarId| #[trigger] does_var_exist.requires((&v,)),
            forall|v: VarId, b: bool| does_var_exist.ensures((&v,), b) ==> b == in_scope(v),
        ensures
            match r {
                Some(x) => fresh(self@, in_scope, old(counter).next_id()) == Some((x@, final(counter).next_id())),
                None => fresh(self@, in_scope, old(counter).next_id()) is None,
            },
        decreases self,
    {
        match self {
            Expr::Value(value, d) => match value {
                Value::Function { params, body } => {
                    let mut keys: Vec<VarId> = Vec::new();
                    let mut i: usize = 0;
                    while i < params.len()
                        invariant
                            i <= params.len(),
                            keys@.len() == i,
                            forall|j: int| #![trigger keys@[j]] 0 <= j < i ==> keys@[j] == params@[j].0,
                        decreases params.len() - i,
                    {
                        keys.push(params[i].0);
                        i = i + 1;
                    }
                    let ghost pv = view_params(params@);
                    assert(keys@ =~= Seq::new(pv.len(), |k: int| pv[k].0));
                    let mappings = fresh_mapping(&keys, does_var_exist, Ghost(in_scope), counter);
                    let mut ps: Vec<(VarId, Type)> = Vec::new();
                    let mut i: usize = 0;
                    while i < params.len()
                        invariant
                            i <= params.len(),
                            ps@.len() == i,
                            forall|j: int| #![trigger ps@[j]] 0 <= j < i ==> ps@[j].0 == rename(mappings@, params@[j].0) && ps@[j].1@ == params@[j].1@,
                        decreases params.len() - i,
                    {
                        ps.push((rename_var(&mappings, params[i].0), params[i].1.copy()));
                        i = i + 1;
                    }
                    assert(view_params(ps@) =~= rename_params(mappings@, pv));
                    assert(value@ == SpecValue::Function { params: pv, body: Box::new(body@) });
                    assert(self@ == SpecExpr::Value(value@, *d));
                    let b = match body.with_mapped_vars(&mappings) {
                        Some(b) => b,
                        None => {
                            return None;
                        },
                    };
                    let ghost psv = view_params(ps@);
                    let ghost bv = b@;
                    let fv = Value::Function { params: ps, body: Box::new(b) };
                    assert(fv@ == SpecValue::Function { params: psv, body: Box::new(bv) });
                    Some(Expr::Value(fv, copy_debug(d)))
                },
                Value::Enum { .. } => None,
                Value::Struct { .. } => None,
                _ => Some(self.copy()),
            },
            Expr::Var(_, _) => Some(self.copy()),
            Expr::Let { bind, expr, debug } => {
                let mut keys: Vec<VarId> = Vec::new();
                let mut i: usize = 0;
                while i < bind.len()
                    invariant
                        i <= bind.len(),
                        keys@.len() == i,
                        forall|j: int| #![trigger keys@[j]] 0 <= j < i ==> keys@[j] == bind@[j].0,
                    decreases bind.len() - i,
                {
                    keys.push(bind[i].0);
                    i = i + 1;
                }
                let ghost bv = view_binds(bind@);
                assert(keys@ =~= Seq::new(bv.len(), |k: int| bv[k].0));
                let mappings = fresh_mapping(&keys, does_var_exist, Ghost(in_scope), counter);
                let mut bs: Vec<(VarId, Expr)> = Vec::new();
                let mut i: usize = 0;
                while i < bind.len()
                    invariant
                        i <= bind.len(),
                        bs@.len() == i,
                        forall|j: int| #![trigger bs@[j]] 0 <= j < i ==> bs@[j].0 == rename(mappings@, bind@[j].0) && bs@[j].1@ == bind@[j].1@,
                    decreases bind.len() - i,
                {
                    bs.push((rename_var(&mappings, bind[i].0), bind[i].1.copy()));
                    i = i + 1;
                }
                assert(view_binds(bs@) =~= rename_keys(mappings@, bv));
                let e = match expr.with_mapped_vars(&mappings) {
                    Some(e) => e,
                    None => {
                        return None;
                    },
                };
                Some(Expr::Let { bind: bs, expr: Box::new(e), debug: copy_debug(debug) })
            },
            Expr::Call { func, args, debug } => {
                let ghost av = view_exprs(args@);
                let ghost start = old(counter).next_id();
                let mut xs: Vec<Expr> = Vec::new();
                let mut i: usize = 0;
                assert(av.subrange(0, av.len() as int) =~= av);
                while i < args.len()
                    invariant
                        i <= args.len(),
                        av == view_exprs(args@),
                        fresh_all(av, in_scope, start) == opt_cat_fresh(
                            view_exprs(xs@),
                            fresh_all(av.subrange(i as int, av.len() as int), in_scope, counter.next_id()),
                        ),
                    decreases args.len() - i,
                {
                    proof {
                        let rest = av.subrange(i as int, av.len() as int);
                        assert(rest.drop_first() =~= av.subrange(i + 1, av.len() as int));
                        assert(rest[0] == av[i as int]);
                    }
                    let x = match args[i].try_with_fresh_vars(does_var_exist, Ghost(in_scope), counter) {
                        Some(x) => x,
                        None => {
                            return None;
                        },
                    };
                    let ghost before = xs@;
                    xs.push(x);
                    proof {
                        let rest = av.subrange(i + 1, av.len() as int);
                        assert(view_exprs(xs@) =~= view_exprs(before) + seq![x@]);
                        if fresh_all(rest, in_scope, counter.next_id()) is Some {
                            assert(view_exprs(before) + (seq![x@] + fresh_all(rest, in_scope, counter.next_id()).unwrap().0)
                                =~= view_exprs(xs@) + fresh_all(rest, in_scope, counter.next_id()).unwrap().0);
                        }
                    }
                    i = i + 1;
                }
                assert(av.subrange(av.len() as int, av.len() as int) =~= Seq::<SpecExpr>::empty());
                assert(view_exprs(xs@) + Seq::<SpecExpr>::empty() =~= view_exprs(xs@));
                Some(Expr::Call { func: *func, args: xs, debug: copy_debug(debug) })
            },
            Expr::Builtin(_) => Some(self.copy()),
        }
    }
}


/// Law: two identifiers taken one after the other from the same counter differ.
pub proof fn lemma_fresh_ids_differ(c: IdCounter)
    ensures
        VarId(c.next_id()) != VarId(c.next_id().wrapping_add(1)),
        TypeId(c.next_id()) != TypeId(c.next_id().wrapping_add(1)),
        FieldId(c.next_id()) != FieldId(c.next_id().wrapping_add(1)),
{
}

/// Every variable that `not_bound` keeps is one of `vs` that the bindings do not bind.
proof fn lemma_not_bound(vs: Seq<VarId>, bs: Seq<(VarId, SpecExpr)>)
    ensures
        forall|i: int| 0 <= i < not_bound(vs, bs).len() ==> !binds_var(bs, #[trigger] not_bound(vs, bs)[i]),
        forall|i: int| 0 <= i < not_bound(vs, bs).len() ==> vs.contains(#[trigger] not_bound(vs, bs)[i]),
    decreases vs.len(),
{
    if vs.len() > 0 {
        lemma_not_bound(vs.drop_first(), bs);
        let r = not_bound(vs, bs);
        let t = not_bound(vs.drop_first(), bs);
        assert forall|i: int| 0 <= i < r.len() implies vs.contains(#[trigger] r[i]) && !binds_var(bs, r[i]) by {
            if binds_var(bs, vs[0]) {
                assert(r[i] == t[i]);
                assert(vs.drop_first().contains(t[i]));
                let k = choose|k: int| 0 <= k < vs.drop_first().len() && vs.drop_first()[k] == t[i];
                assert(vs[k + 1] == r[i]);
            } else if i == 0 {
                assert(vs[0] == r[0]);
            } else {
                assert(r[i] == t[i - 1]);
                assert(vs.drop_first().contains(t[i - 1]));
                let k = choose|k: int| 0 <= k < vs.drop_first().len() && vs.drop_first()[k] == t[i - 1];
                assert(vs[k + 1] == r[i]);
            }
        }
    }
}

/// Law: the variables that a `Let` uses from outside are variables that its
/// body uses and that it does not bind.
pub proof fn lemma_let_unbound(bind: Seq<(VarId, SpecExpr)>, expr: SpecExpr, debug: Option<DebugInfo>)
    ensures
        forall|i: int|
            0 <= i < unbound(SpecExpr::Let { bind, expr: Box::new(expr), debug }).len() ==> {
                let v = #[trigger] unbound(SpecExpr::Let { bind, expr: Box::new(expr), debug })[i];
                &&& !binds_var(bind, v)
                &&& unbound(expr).contains(v)
            },
{
    lemma_not_bound(unbound(expr), bind);
}


/// The predicate that holds of no variable.
pub open spec fn no_var() -> spec_fn(VarId) -> bool {
    |v: VarId| false
}

/// Renaming for no variable takes no identifier and renames nothing.
proof fn lemma_fresh_map_none(vs: Seq<VarId>, m: Map<usize, VarId>, next: usize)
    ensures
        fresh_map(vs, no_var(), m, next) == (m, next),
    decreases vs.len(),
{
    if vs.len() > 0 {
        lemma_fresh_map_none(vs.drop_first(), m, next);
    }
}

/// `not_bound` looks only at which variables the bindings bind.
proof fn lemma_not_bound_same_keys(vs: Seq<VarId>, b1: Seq<(VarId, SpecExpr)>, b2: Seq<(VarId, SpecExpr)>)
    requires
        forall|v: VarId| binds_var(b1, v) == binds_var(b2, v),
    ensures
        not_bound(vs, b1) == not_bound(vs, b2),
    decreases vs.len(),
{
    if vs.len() > 0 {
        lemma_not_bound_same_keys(vs.drop_first(), b1, b2);
    }
}

/// The empty renaming changes no variable that an expression uses from outside.
proof fn lemma_mapped_empty(e: SpecExpr)
    requires
        mapped(Map::empty(), e) is Some,
    ensures
        unbound(mapped(Map::empty(), e)->Some_0) == unbound(e),
    decreases e, 2nat,
{
    let m = Map::<usize, VarId>::empty();
    match e {
        SpecExpr::Value(v, d) => {},
        SpecExpr::Var(v, d) => {},
        SpecExpr::Let { bind, expr, debug } => {
            lemma_mapped_empty(*expr);
            let b = mapped_binds(m, bind)->Some_0;
            lemma_mapped_binds_empty(bind);
            lemma_not_bound_same_keys(unbound(*expr), b, bind);
        },
        SpecExpr::Call { func, args, debug } => {
            lemma_mapped_all_empty(args);
        },
        SpecExpr::Builtin(_) => {},
    }
}

/// The empty renaming keeps the variables that bindings bind.
proof fn lemma_mapped_binds_empty(bs: Seq<(VarId, SpecExpr)>)
    requires
        mapped_binds(Map::empty(), bs) is Some,
    ensures
        forall|v: VarId| binds_var(mapped_binds(Map::empty(), bs)->Some_0, v) == binds_var(bs, v),
    decreases bs, 1nat,
{
    let m = Map::<usize, VarId>::empty();
    if bs.len() > 0 {
        lemma_mapped_binds_empty(bs.drop_first());
        let rest = mapped_binds(m, bs.drop_first())->Some_0;
        let r = mapped_binds(m, bs)->Some_0;
        assert(r == seq![(bs[0].0, mapped(m, bs[0].1)->Some_0)] + rest);
        assert forall|v: VarId| binds_var(r, v) == binds_var(bs, v) by {
            assert(binds_var(rest, v) == binds_var(bs.drop_first(), v));
            if binds_var(bs, v) {
                let i = choose|i: int| 0 <= i < bs.len() && #[trigger] bs[i].0 == v;
                if i == 0 {
                    assert(r[0].0 == v);
                } else {
                    assert(bs.drop_first()[i - 1].0 == v);
                    assert(binds_var(bs.drop_first(), v));
                    assert(binds_var(rest, v));
                    let j = choose|j: int| 0 <= j < rest.len() && #[trigger] rest[j].0 == v;
                    assert(r[j + 1].0 == v);
                }
            }
            if binds_var(r, v) {
                let i = choose|i: int| 0 <= i < r.len() && #[trigger] r[i].0 == v;
                if i == 0 {
                    assert(bs[0].0 == v);
                } else {
                    assert(rest[i - 1].0 == v);
                    assert(binds_var(rest, v));
                    let j = choose|j: int| 0 <= j < bs.drop_first().len() && #[trigger] bs.drop_first()[j].0 == v;
                    assert(bs[j + 1].0 == v);
                }
            }
        }
    } else {
        assert forall|v: VarId| binds_var(mapped_binds(m, bs)->Some_0, v) == binds_var(bs, v) by {}
    }
}

/// The empty renaming changes no variable that a list of expressions uses from outside.
proof fn lemma_mapped_all_empty(es: Seq<SpecExpr>)
    requires
        mapped_all(Map::empty(), es) is Some,
    ensures
        unbound_all(mapped_all(Map::empty(), es)->Some_0) == unbound_all(es),
    decreases es, 1nat,
{
    let m = Map::<usize, VarId>::empty();
    if es.len() > 0 {
        lemma_mapped_empty(es[0]);
        lemma_mapped_all_empty(es.drop_first());
        let x = mapped(m, es[0])->Some_0;
        let rest = mapped_all(m, es.drop_first())->Some_0;
        let r = seq![x] + rest;
        assert(r[0] == x);
        assert(r.drop_first() =~= rest);
    }
}

/// Law: renaming apart from no variable takes no fresh identifier and leaves
/// the variables that an expression uses from outside as they are.
pub proof fn lemma_fresh_for_no_var(e: SpecExpr, next: usize)
    requires
        fresh(e, no_var(), next) is Some,
    ensures
        fresh(e, no_var(), next)->Some_0.1 == next,
        unbound(fresh(e, no_var(), next)->Some_0.0) == unbound(e),
    decreases e, 1nat,
{
    let m = Map::<usize, VarId>::empty();
    match e {
        SpecExpr::Value(v, d) => match v {
            SpecValue::Function { params, body } => {
                lemma_fresh_map_none(Seq::new(params.len(), |i: int| params[i].0), m, next);
            },
            _ => {},
        },
        SpecExpr::Var(_, _) => {},
        SpecExpr::Let { bind, expr, debug } => {
            let keys = Seq::new(bind.len(), |i: int| bind[i].0);
            lemma_fresh_map_none(keys, m, next);
            lemma_mapped_empty(*expr);
            assert(rename_keys(m, bind) =~= bind);
        },
        SpecExpr::Call { func, args, debug } => {
            lemma_fresh_all_for_no_var(args, next);
        },
        SpecExpr::Builtin(_) => {},
    }
}

/// As [`lemma_fresh_for_no_var`], for a list of expressions.
proof fn lemma_fresh_all_for_no_var(es: Seq<SpecExpr>, next: usize)
    requires
        fresh_all(es, no_var(), next) is Some,
    ensures
        fresh_all(es, no_var(), next)->Some_0.1 == next,
        unbound_all(fresh_all(es, no_var(), next)->Some_0.0) == unbound_all(es),
    decreases es, 0nat,
{
    if es.len() > 0 {
        lemma_fresh_for_no_var(es[0], next);
        lemma_fresh_all_for_no_var(es.drop_first(), next);
        let x = fresh(es[0], no_var(), next)->Some_0.0;
        let rest = fresh_all(es.drop_first(), no_var(), next)->Some_0.0;
        let r = seq![x] + rest;
        assert(r[0] == x);
        assert(r.drop_first() =~= rest);
    }
}


/// Whether `e` binds `v` in a `Let` or uses it outside values: the positions
/// that [`unbound`] and the renaming of binders look at.
pub open spec fn uses(e: SpecExpr, v: VarId) -> bool
    decreases e,
{
    match e {
        SpecExpr::Value(_, _) => false,
        SpecExpr::Var(x, _) => x == v,
        SpecExpr::Let { bind, expr, .. } => binds_var(bind, v) || uses(*expr, v),
        SpecExpr::Call { func, args, .. } => func == v || uses_all(args, v),
        SpecExpr::Builtin(Builtin::AddI(a, b)) => a == v || b == v,
        SpecExpr::Builtin(Builtin::ExtractField(x, _)) => x == v,
    }
}

/// Whether one of the expressions uses `v` (see [`uses`]).
pub open spec fn uses_all(es: Seq<SpecExpr>, v: VarId) -> bool
    decreases es,
{
    if es.len() == 0 {
        false
    } else {
        uses(es[0], v) || uses_all(es.drop_first(), v)
    }
}

/// The most identifiers that renaming the binders of `e` apart can take: one
/// for each binder that [`fresh`] looks at.
pub open spec fn fresh_need(e: SpecExpr) -> nat
    decreases e,
{
    match e {
        SpecExpr::Value(SpecValue::Function { params, .. }, _) => params.len(),
        SpecExpr::Let { bind, .. } => bind.len(),
        SpecExpr::Call { args, .. } => fresh_need_all(args),
        _ => 0,
    }
}

/// [`fresh_need`] summed over the expressions.
pub open spec fn fresh_need_all(es: Seq<SpecExpr>) -> nat
    decreases es,
{
    if es.len() == 0 {
        0
    } else {
        fresh_need(es[0]) + fresh_need_all(es.drop_first())
    }
}

/// Whether the renaming sends no two variables to the same one.
pub open spec fn injective(m: Map<usize, VarId>) -> bool {
    forall|a: usize, b: usize|
        #![trigger m[a], m[b]]
        m.dom().contains(a) && m.dom().contains(b) && m[a] == m[b] ==> a == b
}

/// The variables `vs` under the renaming `m`, one for one.
pub open spec fn renamed(m: Map<usize, VarId>, vs: Seq<VarId>) -> Seq<VarId> {
    Seq::new(vs.len(), |i: int| rename(m, vs[i]))
}

/// Law: the renaming that [`fresh_map`] builds is one to one, its new names
/// are drawn from `next` onwards and come before the counter value that it
/// returns (so they differ from every identifier taken before), and it renames
/// exactly the variables that it was given and of which `in_scope` holds;
/// this while the counter does not run out.
pub proof fn lemma_fresh_map(vs: Seq<VarId>, in_scope: spec_fn(VarId) -> bool, m: Map<usize, VarId>, next: usize)
    requires
        next + vs.len() <= usize::MAX,
        forall|k: usize| m.dom().contains(k) ==> #[trigger] m[k].0 < next,
        injective(m),
    ensures
        ({
            let (m2, n2) = fresh_map(vs, in_scope, m, next);
            &&& next <= n2 <= next + vs.len()
            &&& injective(m2)
            &&& forall|k: usize| m2.dom().contains(k) ==> #[trigger] m2[k].0 < n2
            &&& forall|k: usize|
                m2.dom().contains(k) ==> (m.dom().contains(k) && #[trigger] m2[k] == m[k]) || next <= m2[k].0
            &&& forall|k: usize| #[trigger] m2.dom().contains(k) ==> m.dom().contains(k) || (vs.contains(VarId(k)) && in_scope(VarId(k)))
            &&& forall|k: usize| m.dom().contains(k) ==> #[trigger] m2.dom().contains(k)
            &&& forall|i: int| 0 <= i < vs.len() && in_scope(vs[i]) ==> m2.dom().contains(#[trigger] vs[i].0)
        }),
    decreases vs.len(),
{
    if vs.len() > 0 {
        let rest = vs.drop_first();
        if in_scope(vs[0]) {
            let m1 = m.insert(vs[0].0, VarId(next));
            let n1 = (next + 1) as usize;
            assert(next.wrapping_add(1) == n1);
            assert forall|a: usize, b: usize|
                #![trigger m1[a], m1[b]]
                m1.dom().contains(a) && m1.dom().contains(b) && m1[a] == m1[b] implies a == b by {
                if a != vs[0].0 && b != vs[0].0 {
                    assert(m1[a] == m[a] && m1[b] == m[b]);
                    assert(m.dom().contains(a) && m.dom().contains(b));
                } else if a != vs[0].0 {
                    assert(m1[a] == m[a]);
                    assert(m.dom().contains(a));
                    assert(m[a].0 < next);
                } else if b != vs[0].0 {
                    assert(m1[b] == m[b]);
                    assert(m.dom().contains(b));
                    assert(m[b].0 < next);
                }
            }
            assert forall|k: usize| m1.dom().contains(k) implies #[trigger] m1[k].0 < n1 by {
                if k != vs[0].0 {
                    assert(m1[k] == m[k]);
                }
            }
            lemma_fresh_map(rest, in_scope, m1, n1);
            let (m2, n2) = fresh_map(vs, in_scope, m, next);
            assert forall|i: int| 0 <= i < vs.len() && in_scope(vs[i]) implies m2.dom().contains(#[trigger] vs[i].0) by {
                if i == 0 {
                    assert(m1.dom().contains(vs[0].0));
                } else {
                    assert(rest[i - 1] == vs[i]);
                }
            }
            assert(fresh_map(vs, in_scope, m, next) == fresh_map(rest, in_scope, m1, n1));
            assert forall|k: usize|
                m2.dom().contains(k) implies (m.dom().contains(k) && #[trigger] m2[k] == m[k]) || next <= m2[k].0 by {
                if !((m1.dom().contains(k) && m2[k] == m1[k]) || n1 <= m2[k].0) {
                } else if m1.dom().contains(k) && m2[k] == m1[k] && k != vs[0].0 {
                    assert(m1[k] == m[k]);
                }
            }
            assert forall|k: usize| #[trigger] m2.dom().contains(k) implies m.dom().contains(k) || (vs.contains(VarId(k)) && in_scope(VarId(k))) by {
                if m.dom().contains(k) {
                } else if k == vs[0].0 {
                    assert(vs[0] == VarId(k));
                } else {
                    assert(!m1.dom().contains(k));
                    let j = choose|j: int| 0 <= j < rest.len() && rest[j] == VarId(k);
                    assert(vs[j + 1] == VarId(k));
                }
            }
        } else {
            lemma_fresh_map(rest, in_scope, m, next);
            let m2 = fresh_map(vs, in_scope, m, next).0;
            assert forall|i: int| 0 <= i < vs.len() && in_scope(vs[i]) implies m2.dom().contains(#[trigger] vs[i].0) by {
                assert(i != 0);
                assert(rest[i - 1] == vs[i]);
            }
            assert forall|k: usize| #[trigger] fresh_map(vs, in_scope, m, next).0.dom().contains(k) implies m.dom().contains(k) || (vs.contains(VarId(k)) && in_scope(VarId(k))) by {
                if !m.dom().contains(k) {
                    let j = choose|j: int| 0 <= j < rest.len() && rest[j] == VarId(k);
                    assert(vs[j + 1] == VarId(k));
                }
            }
        }
    }
}

/// Every variable that an expression uses from outside is one that it uses.
proof fn lemma_unbound_uses(e: SpecExpr)
    ensures
        forall|i: int| 0 <= i < unbound(e).len() ==> uses(e, #[trigger] unbound(e)[i]),
    decreases e, 1nat,
{
    match e {
        SpecExpr::Let { bind, expr, .. } => {
            lemma_unbound_uses(*expr);
            lemma_not_bound(unbound(*expr), bind);
            assert forall|i: int| 0 <= i < unbound(e).len() implies uses(e, #[trigger] unbound(e)[i]) by {
                let w = unbound(e)[i];
                assert(unbound(*expr).contains(w));
                let j = choose|j: int| 0 <= j < unbound(*expr).len() && unbound(*expr)[j] == w;
                assert(uses(*expr, unbound(*expr)[j]));
            }
        },
        SpecExpr::Call { func, args, .. } => {
            lemma_unbound_all_uses(args);
            assert forall|i: int| 0 <= i < unbound(e).len() implies uses(e, #[trigger] unbound(e)[i]) by {
                if i > 0 {
                    assert(unbound(e)[i] == unbound_all(args)[i - 1]);
                }
            }
        },
        _ => {},
    }
}

/// As [`lemma_unbound_uses`], for a list of expressions.
proof fn lemma_unbound_all_uses(es: Seq<SpecExpr>)
    ensures
        forall|i: int| 0 <= i < unbound_all(es).len() ==> uses_all(es, #[trigger] unbound_all(es)[i]),
    decreases es, 0nat,
{
    if es.len() > 0 {
        lemma_unbound_uses(es[0]);
        lemma_unbound_all_uses(es.drop_first());
        let a = unbound(es[0]);
        let b = unbound_all(es.drop_first());
        assert forall|i: int| 0 <= i < unbound_all(es).len() implies uses_all(es, #[trigger] unbound_all(es)[i]) by {
            if i < a.len() {
                assert(unbound_all(es)[i] == a[i]);
            } else {
                assert(unbound_all(es)[i] == b[i - a.len()]);
            }
        }
    }
}

/// The bindings that a renaming gives back bind the renamed variables, one for one.
proof fn lemma_mapped_binds_keys(m: Map<usize, VarId>, bs: Seq<(VarId, SpecExpr)>)
    requires
        mapped_binds(m, bs) is Some,
    ensures
        mapped_binds(m, bs)->Some_0.len() == bs.len(),
        forall|i: int| 0 <= i < bs.len() ==> #[trigger] mapped_binds(m, bs)->Some_0[i].0 == rename(m, bs[i].0),
    decreases bs.len(),
{
    if bs.len() > 0 {
        lemma_mapped_binds_keys(m, bs.drop_first());
        let r = mapped_binds(m, bs)->Some_0;
        let rest = mapped_binds(m, bs.drop_first())->Some_0;
        assert forall|i: int| 0 <= i < bs.len() implies #[trigger] r[i].0 == rename(m, bs[i].0) by {
            if i > 0 {
                assert(r[i] == rest[i - 1]);
                assert(bs.drop_first()[i - 1] == bs[i]);
            }
        }
    }
}

/// A renaming that keeps variables apart that differ commutes with dropping
/// the variables that bindings bind.
proof fn lemma_not_bound_rename(
    m: Map<usize, VarId>,
    vs: Seq<VarId>,
    b: Seq<(VarId, SpecExpr)>,
    b2: Seq<(VarId, SpecExpr)>,
)
    requires
        b2.len() == b.len(),
        forall|i: int| 0 <= i < b.len() ==> #[trigger] b2[i].0 == rename(m, b[i].0),
        forall|j: int, i: int|
            #![trigger vs[j], b[i]]
            0 <= j < vs.len() && 0 <= i < b.len() && rename(m, vs[j]) == rename(m, b[i].0) ==> vs[j] == b[i].0,
    ensures
        not_bound(renamed(m, vs), b2) == renamed(m, not_bound(vs, b)),
    decreases vs.len(),
{
    if vs.len() > 0 {
        let rest = vs.drop_first();
        assert forall|j: int, i: int|
            #![trigger rest[j], b[i]]
            0 <= j < rest.len() && 0 <= i < b.len() && rename(m, rest[j]) == rename(m, b[i].0) implies rest[j] == b[i].0 by {
            assert(rest[j] == vs[j + 1]);
        }
        lemma_not_bound_rename(m, rest, b, b2);
        let rv = renamed(m, vs);
        assert(rv.drop_first() =~= renamed(m, rest));
        assert(rv[0] == rename(m, vs[0]));
        if binds_var(b, vs[0]) {
            let i = choose|i: int| 0 <= i < b.len() && #[trigger] b[i].0 == vs[0];
            assert(b2[i].0 == rv[0]);
        }
        if binds_var(b2, rv[0]) {
            let i = choose|i: int| 0 <= i < b2.len() && #[trigger] b2[i].0 == rv[0];
            assert(b2[i].0 == rename(m, b[i].0));
            assert(vs[0] == b[i].0);
        }
        if !binds_var(b, vs[0]) {
            let t = not_bound(rest, b);
            assert(renamed(m, seq![vs[0]] + t) =~= seq![rename(m, vs[0])] + renamed(m, t));
        }
    } else {
        assert(renamed(m, vs) =~= Seq::<VarId>::empty());
        assert(renamed(m, not_bound(vs, b)) =~= Seq::<VarId>::empty());
    }
}

/// Whether no variable that the renaming introduces is one that `e` uses.
pub open spec fn fresh_for(m: Map<usize, VarId>, e: SpecExpr) -> bool {
    forall|k: usize| m.dom().contains(k) ==> !uses(e, #[trigger] m[k])
}

/// Two variables that `e` uses are renamed alike only when they are the same,
/// for a one-to-one renaming whose new names `e` does not use.
proof fn lemma_rename_apart(m: Map<usize, VarId>, e: SpecExpr, v: VarId, k: VarId)
    requires
        injective(m),
        fresh_for(m, e),
        uses(e, v),
        uses(e, k),
        rename(m, v) == rename(m, k),
    ensures
        v == k,
{
    if m.dom().contains(v.0) && m.dom().contains(k.0) {
        assert(m[v.0] == m[k.0]);
    } else if m.dom().contains(v.0) {
        assert(!uses(e, m[v.0]));
    } else if m.dom().contains(k.0) {
        assert(!uses(e, m[k.0]));
    }
}

/// A one-to-one renaming of every variable, to names that the expression does
/// not use, renames the variables that it uses from outside one for one.
proof fn lemma_mapped_unbound(m: Map<usize, VarId>, e: SpecExpr)
    requires
        injective(m),
        fresh_for(m, e),
        mapped(m, e) is Some,
    ensures
        unbound(mapped(m, e)->Some_0) == renamed(m, unbound(e)),
    decreases e, 1nat,
{
    match e {
        SpecExpr::Value(_, _) => {
            assert(renamed(m, unbound(e)) =~= Seq::<VarId>::empty());
        },
        SpecExpr::Var(v, _) => {
            assert(renamed(m, unbound(e)) =~= seq![rename(m, v)]);
        },
        SpecExpr::Let { bind, expr, debug } => {
            assert forall|k: usize| m.dom().contains(k) implies !uses(*expr, #[trigger] m[k]) by {
                assert(!uses(e, m[k]));
            }
            lemma_mapped_unbound(m, *expr);
            lemma_mapped_binds_keys(m, bind);
            lemma_unbound_uses(*expr);
            let vs = unbound(*expr);
            let b2 = mapped_binds(m, bind)->Some_0;
            assert forall|j: int, i: int|
                #![trigger vs[j], bind[i]]
                0 <= j < vs.len() && 0 <= i < bind.len() && rename(m, vs[j]) == rename(m, bind[i].0) implies vs[j] == bind[i].0 by {
                assert(uses(*expr, vs[j]));
                assert(binds_var(bind, bind[i].0));
                lemma_rename_apart(m, e, vs[j], bind[i].0);
            }
            lemma_not_bound_rename(m, vs, bind, b2);
        },
        SpecExpr::Call { func, args, debug } => {
            assert forall|k: usize| m.dom().contains(k) implies !uses_all(args, #[trigger] m[k]) by {
                assert(!uses(e, m[k]));
            }
            lemma_mapped_all_unbound(m, args);
            assert(renamed(m, seq![func] + unbound_all(args)) =~= seq![rename(m, func)] + renamed(m, unbound_all(args)));
        },
        SpecExpr::Builtin(Builtin::AddI(a, b)) => {
            assert(renamed(m, unbound(e)) =~= seq![rename(m, a), rename(m, b)]);
        },
        SpecExpr::Builtin(Builtin::ExtractField(v, _)) => {
            assert(renamed(m, unbound(e)) =~= seq![rename(m, v)]);
        },
    }
}

/// As [`lemma_mapped_unbound`], for a list of expressions.
proof fn lemma_mapped_all_unbound(m: Map<usize, VarId>, es: Seq<SpecExpr>)
    requires
        injective(m),
        forall|k: usize| m.dom().contains(k) ==> !uses_all(es, #[trigger] m[k]),
        mapped_all(m, es) is Some,
    ensures
        unbound_all(mapped_all(m, es)->Some_0) == renamed(m, unbound_all(es)),
    decreases es, 0nat,
{
    if es.len() == 0 {
        assert(renamed(m, unbound_all(es)) =~= Seq::<VarId>::empty());
    } else {
        assert forall|k: usize| m.dom().contains(k) implies !uses(es[0], #[trigger] m[k]) by {
            assert(!uses_all(es, m[k]));
        }
        assert forall|k: usize| m.dom().contains(k) implies !uses_all(es.drop_first(), #[trigger] m[k]) by {
            assert(!uses_all(es, m[k]));
        }
        lemma_mapped_unbound(m, es[0]);
        lemma_mapped_all_unbound(m, es.drop_first());
        let x = mapped(m, es[0])->Some_0;
        let rest = mapped_all(m, es.drop_first())->Some_0;
        let r = seq![x] + rest;
        assert(r[0] == x);
        assert(r.drop_first() =~= rest);
        assert(renamed(m, unbound(es[0]) + unbound_all(es.drop_first()))
            =~= renamed(m, unbound(es[0])) + renamed(m, unbound_all(es.drop_first())));
    }
}

/// Law: renaming the binders of an expression apart keeps its meaning as far
/// as its surroundings see it: the variables that it uses from outside stay
/// the same, in the same order. This holds when every identifier that the
/// expression binds or uses comes before the counter value `next` and the
/// counter does not run out; the counter then advances by at most one for
/// each binder.
pub proof fn lemma_fresh_keeps_unbound(e: SpecExpr, in_scope: spec_fn(VarId) -> bool, next: usize)
    requires
        fresh(e, in_scope, next) is Some,
        forall|v: VarId| uses(e, v) ==> v.0 < next,
        next + fresh_need(e) <= usize::MAX,
    ensures
        next <= fresh(e, in_scope, next)->Some_0.1 <= next + fresh_need(e),
        unbound(fresh(e, in_scope, next)->Some_0.0) == unbound(e),
    decreases e, 1nat,
{
    let m0 = Map::<usize, VarId>::empty();
    match e {
        SpecExpr::Value(v, d) => match v {
            SpecValue::Function { params, body } => {
                let keys = Seq::new(params.len(), |i: int| params[i].0);
                lemma_fresh_map(keys, in_scope, m0, next);
            },
            _ => {},
        },
        SpecExpr::Let { bind, expr, debug } => {
            let keys = Seq::new(bind.len(), |i: int| bind[i].0);
            lemma_fresh_map(keys, in_scope, m0, next);
            let (m, n) = fresh_map(keys, in_scope, m0, next);
            assert forall|k: usize| m.dom().contains(k) implies !uses(*expr, #[trigger] m[k]) by {
                if uses(*expr, m[k]) {
                    assert(uses(e, m[k]));
                }
            }
            lemma_mapped_unbound(m, *expr);
            lemma_unbound_uses(*expr);
            let vs = unbound(*expr);
            let b2 = rename_keys(m, bind);
            assert forall|j: int, i: int|
                #![trigger vs[j], bind[i]]
                0 <= j < vs.len() && 0 <= i < bind.len() && rename(m, vs[j]) == rename(m, bind[i].0) implies vs[j] == bind[i].0 by {
                let v = vs[j];
                let k = bind[i].0;
                assert(uses(*expr, v));
                assert(uses(e, v));
                assert(binds_var(bind, k));
                assert(uses(e, k));
                if m.dom().contains(v.0) && m.dom().contains(k.0) {
                    assert(m[v.0] == m[k.0]);
                } else if m.dom().contains(v.0) {
                    assert(next <= m[v.0].0);
                } else if m.dom().contains(k.0) {
                    assert(next <= m[k.0].0);
                }
            }
            lemma_not_bound_rename(m, vs, bind, b2);
            let nb = not_bound(vs, bind);
            lemma_not_bound(vs, bind);
            assert forall|i: int| 0 <= i < nb.len() implies rename(m, #[trigger] nb[i]) == nb[i] by {
                let w = nb[i];
                if m.dom().contains(w.0) {
                    assert(keys.contains(VarId(w.0)));
                    let j = choose|j: int| 0 <= j < keys.len() && keys[j] == VarId(w.0);
                    assert(bind[j].0 == w);
                    assert(binds_var(bind, w));
                }
            }
            assert(renamed(m, nb) =~= nb);
        },
        SpecExpr::Call { func, args, debug } => {
            assert forall|v: VarId| uses_all(args, v) implies v.0 < next by {
                assert(uses(e, v));
            }
            lemma_fresh_all_keeps_unbound(args, in_scope, next);
        },
        _ => {},
    }
}

/// As [`lemma_fresh_keeps_unbound`], for a list of expressions.
proof fn lemma_fresh_all_keeps_unbound(es: Seq<SpecExpr>, in_scope: spec_fn(VarId) -> bool, next: usize)
    requires
        fresh_all(es, in_scope, next) is Some,
        forall|v: VarId| uses_all(es, v) ==> v.0 < next,
        next + fresh_need_all(es) <= usize::MAX,
    ensures
        next <= fresh_all(es, in_scope, next)->Some_0.1 <= next + fresh_need_all(es),
        unbound_all(fresh_all(es, in_scope, next)->Some_0.0) == unbound_all(es),
    decreases es, 0nat,
{
    if es.len() > 0 {
        assert forall|v: VarId| uses(es[0], v) implies v.0 < next by {
            assert(uses_all(es, v));
        }
        lemma_fresh_keeps_unbound(es[0], in_scope, next);
        let (x, n1) = fresh(es[0], in_scope, next)->Some_0;
        assert forall|v: VarId| uses_all(es.drop_first(), v) implies v.0 < n1 by {
            assert(uses_all(es, v));
        }
        lemma_fresh_all_keeps_unbound(es.drop_first(), in_scope, n1);
        let rest = fresh_all(es.drop_first(), in_scope, n1)->Some_0.0;
        let r = seq![x] + rest;
        assert(r[0] == x);
        assert(r.drop_first() =~= rest);
    }
}


/// Whether `v` occurs anywhere in `e` outside enum and struct values: bound,
/// used, or as a parameter, the bodies of function values and the
/// definitions of bindings included.
pub open spec fn mentions(e: SpecExpr, v: VarId) -> bool
    decreases e,
{
    match e {
        SpecExpr::Value(SpecValue::Function { params, body }, _) => (exists|i: int|
            0 <= i < params.len() && #[trigger] params[i].0 == v) || mentions(*body, v),
        SpecExpr::Value(_, _) => false,
        SpecExpr::Var(x, _) => x == v,
        SpecExpr::Let { bind, expr, .. } => mentions_binds(bind, v) || mentions(*expr, v),
        SpecExpr::Call { func, args, .. } => func == v || mentions_all(args, v),
        SpecExpr::Builtin(Builtin::AddI(a, b)) => a == v || b == v,
        SpecExpr::Builtin(Builtin::ExtractField(x, _)) => x == v,
    }
}

/// Whether `v` occurs in the bindings, as a bound variable or in a definition.
pub open spec fn mentions_binds(bs: Seq<(VarId, SpecExpr)>, v: VarId) -> bool
    decreases bs,
{
    if bs.len() == 0 {
        false
    } else {
        bs[0].0 == v || mentions(bs[0].1, v) || mentions_binds(bs.drop_first(), v)
    }
}

/// Whether `v` occurs in one of the expressions.
pub open spec fn mentions_all(es: Seq<SpecExpr>, v: VarId) -> bool
    decreases es,
{
    if es.len() == 0 {
        false
    } else {
        mentions(es[0], v) || mentions_all(es.drop_first(), v)
    }
}

/// `e` with the debug info of every function value within it dropped, as a
/// renaming drops it.
pub open spec fn strip(e: SpecExpr) -> SpecExpr
    decreases e,
{
    match e {
        SpecExpr::Value(SpecValue::Function { params, body }, _) => SpecExpr::Value(
            SpecValue::Function { params, body: Box::new(strip(*body)) },
            None,
        ),
        SpecExpr::Let { bind, expr, debug } => SpecExpr::Let { bind: strip_binds(bind), expr: Box::new(strip(*expr)), debug },
        SpecExpr::Call { func, args, debug } => SpecExpr::Call { func, args: strip_all(args), debug },
        _ => e,
    }
}

/// [`strip`] applied to each definition.
pub open spec fn strip_binds(bs: Seq<(VarId, SpecExpr)>) -> Seq<(VarId, SpecExpr)>
    decreases bs,
{
    if bs.len() == 0 {
        Seq::empty()
    } else {
        seq![(bs[0].0, strip(bs[0].1))] + strip_binds(bs.drop_first())
    }
}

/// [`strip`] applied to each expression.
pub open spec fn strip_all(es: Seq<SpecExpr>) -> Seq<SpecExpr>
    decreases es,
{
    if es.len() == 0 {
        Seq::empty()
    } else {
        seq![strip(es[0])] + strip_all(es.drop_first())
    }
}

/// Whether `m_inv` undoes `m`: it sends each new name back to the variable
/// that `m` renamed, and renames nothing else.
pub open spec fn inverse_of(m_inv: Map<usize, VarId>, m: Map<usize, VarId>) -> bool {
    &&& forall|k: usize| m.dom().contains(k) ==> m_inv.dom().contains(#[trigger] m[k].0) && m_inv[m[k].0] == VarId(k)
    &&& forall|j: usize| #[trigger] m_inv.dom().contains(j) ==> exists|k: usize| m.dom().contains(k) && #[trigger] m[k].0 == j
}

/// Renaming a variable that is none of `m`'s new names, and then renaming it
/// back, gives the variable.
proof fn lemma_rename_back(m: Map<usize, VarId>, m_inv: Map<usize, VarId>, v: VarId)
    requires
        inverse_of(m_inv, m),
        forall|k: usize| m.dom().contains(k) ==> #[trigger] m[k] != v,
    ensures
        rename(m_inv, rename(m, v)) == v,
{
    if m.dom().contains(v.0) {
        assert(m_inv[m[v.0].0] == VarId(v.0));
    } else if m_inv.dom().contains(v.0) {
        let k = choose|k: usize| m.dom().contains(k) && #[trigger] m[k].0 == v.0;
        assert(m[k] == v);
    }
}

/// Law: renaming an expression and then renaming it back gives the
/// expression again (but for the debug info of its function values, which a
/// renaming drops), where none of the renaming's new names occurs in it.
pub proof fn lemma_mapped_inverse(m: Map<usize, VarId>, m_inv: Map<usize, VarId>, e: SpecExpr)
    requires
        inverse_of(m_inv, m),
        forall|k: usize| m.dom().contains(k) ==> !mentions(e, #[trigger] m[k]),
        mapped(m, e) is Some,
    ensures
        mapped(m_inv, mapped(m, e)->Some_0) == Some(strip(e)),
    decreases e,
{
    match e {
        SpecExpr::Value(SpecValue::Function { params, body }, d) => {
            assert forall|k: usize| m.dom().contains(k) implies !mentions(*body, #[trigger] m[k]) by {
                assert(!mentions(e, m[k]));
            }
            lemma_mapped_inverse(m, m_inv, *body);
            let p1 = rename_params(m, params);
            assert forall|i: int| 0 <= i < params.len() implies rename(m_inv, rename(m, #[trigger] params[i].0)) == params[i].0 by {
                assert forall|k: usize| m.dom().contains(k) implies #[trigger] m[k] != params[i].0 by {
                    assert(!mentions(e, m[k]));
                }
                lemma_rename_back(m, m_inv, params[i].0);
            }
            assert(rename_params(m_inv, p1) =~= params);
        },
        SpecExpr::Var(v, d) => {
            assert forall|k: usize| m.dom().contains(k) implies #[trigger] m[k] != v by {
                assert(!mentions(e, m[k]));
            }
            lemma_rename_back(m, m_inv, v);
        },
        SpecExpr::Let { bind, expr, debug } => {
            assert forall|k: usize| m.dom().contains(k) implies !mentions(*expr, #[trigger] m[k]) by {
                assert(!mentions(e, m[k]));
            }
            assert forall|k: usize| m.dom().contains(k) implies !mentions_binds(bind, #[trigger] m[k]) by {
                assert(!mentions(e, m[k]));
            }
            lemma_mapped_inverse(m, m_inv, *expr);
            lemma_mapped_binds_inverse(m, m_inv, bind);
        },
        SpecExpr::Call { func, args, debug } => {
            assert forall|k: usize| m.dom().contains(k) implies !mentions_all(args, #[trigger] m[k]) by {
                assert(!mentions(e, m[k]));
            }
            assert forall|k: usize| m.dom().contains(k) implies #[trigger] m[k] != func by {
                assert(!mentions(e, m[k]));
            }
            lemma_rename_back(m, m_inv, func);
            lemma_mapped_all_inverse(m, m_inv, args);
        },
        SpecExpr::Builtin(Builtin::AddI(a, b)) => {
            assert forall|k: usize| m.dom().contains(k) implies #[trigger] m[k] != a && m[k] != b by {
                assert(!mentions(e, m[k]));
            }
            lemma_rename_back(m, m_inv, a);
            lemma_rename_back(m, m_inv, b);
        },
        SpecExpr::Builtin(Builtin::ExtractField(v, f)) => {
            assert forall|k: usize| m.dom().contains(k) implies #[trigger] m[k] != v by {
                assert(!mentions(e, m[k]));
            }
            lemma_rename_back(m, m_inv, v);
        },
        _ => {},
    }
}

/// As [`lemma_mapped_inverse`], for bindings.
proof fn lemma_mapped_binds_inverse(m: Map<usize, VarId>, m_inv: Map<usize, VarId>, bs: Seq<(VarId, SpecExpr)>)
    requires
        inverse_of(m_inv, m),
        forall|k: usize| m.dom().contains(k) ==> !mentions_binds(bs, #[trigger] m[k]),
        mapped_binds(m, bs) is Some,
    ensures
        mapped_binds(m_inv, mapped_binds(m, bs)->Some_0) == Some(strip_binds(bs)),
    decreases bs,
{
    if bs.len() > 0 {
        assert forall|k: usize| m.dom().contains(k) implies !mentions(bs[0].1, #[trigger] m[k]) by {
            assert(!mentions_binds(bs, m[k]));
        }
        assert forall|k: usize| m.dom().contains(k) implies !mentions_binds(bs.drop_first(), #[trigger] m[k]) by {
            assert(!mentions_binds(bs, m[k]));
        }
        assert forall|k: usize| m.dom().contains(k) implies #[trigger] m[k] != bs[0].0 by {
            assert(!mentions_binds(bs, m[k]));
        }
        lemma_rename_back(m, m_inv, bs[0].0);
        lemma_mapped_inverse(m, m_inv, bs[0].1);
        lemma_mapped_binds_inverse(m, m_inv, bs.drop_first());
        let x = mapped(m, bs[0].1)->Some_0;
        let rest = mapped_binds(m, bs.drop_first())->Some_0;
        let r = seq![(rename(m, bs[0].0), x)] + rest;
        assert(r[0] == (rename(m, bs[0].0), x));
        assert(r.drop_first() =~= rest);
    }
}

/// As [`lemma_mapped_inverse`], for a list of expressions.
proof fn lemma_mapped_all_inverse(m: Map<usize, VarId>, m_inv: Map<usize, VarId>, es: Seq<SpecExpr>)
    requires
        inverse_of(m_inv, m),
        forall|k: usize| m.dom().contains(k) ==> !mentions_all(es, #[trigger] m[k]),
        mapped_all(m, es) is Some,
    ensures
        mapped_all(m_inv, mapped_all(m, es)->Some_0) == Some(strip_all(es)),
    decreases es,
{
    if es.len() > 0 {
        assert forall|k: usize| m.dom().contains(k) implies !mentions(es[0], #[trigger] m[k]) by {
            assert(!mentions_all(es, m[k]));
        }
        assert forall|k: usize| m.dom().contains(k) implies !mentions_all(es.drop_first(), #[trigger] m[k]) by {
            assert(!mentions_all(es, m[k]));
        }
        lemma_mapped_inverse(m, m_inv, es[0]);
        lemma_mapped_all_inverse(m, m_inv, es.drop_first());
        let x = mapped(m, es[0])->Some_0;
        let rest = mapped_all(m, es.drop_first())->Some_0;
        let r = seq![x] + rest;
        assert(r[0] == x);
        assert(r.drop_first() =~= rest);
    }
}


/// Law: equal values are of the same kind and agree: no function equals
/// anything, equal integers and strings are the same, and two enum values
/// are equal exactly when they have the same variant and equal payloads.
pub proof fn lemma_value_eq_kinds(a: SpecValue, b: SpecValue)
    ensures
        a is Function ==> !value_eq(a, b),
        b is Function ==> !value_eq(a, b),
        value_eq(a, b) ==> (a is Unit <==> b is Unit) && (a is Integer <==> b is Integer) && (a is Double <==> b is Double)
            && (a is String <==> b is String) && (a is Enum <==> b is Enum) && (a is Struct <==> b is Struct),
        (a is Integer && b is Integer) ==> (value_eq(a, b) <==> a->Integer_0 == b->Integer_0),
        (a is String && b is String) ==> (value_eq(a, b) <==> a->String_0 == b->String_0),
        (a is Enum && b is Enum) ==> (value_eq(a, b) <==> (a->Enum_field == b->Enum_field && value_eq(
            *a->Enum_value,
            *b->Enum_value,
        ))),
{
}

} // verus!
