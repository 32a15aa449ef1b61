//! A calculator language: arithmetic on literals and variables, calls of named
//! functions, and declarations of variables and functions.
//!
//! The grammar (a parsing expression grammar: the first alternative that
//! succeeds is taken):
//!
//! ```text
//! top     := decl END
//! decl    := WS* (let | fn | sum) WS*
//! let     := "let" WS* IDENT WS* '=' sum ';' decl
//! fn      := "fn" WS* IDENT WS* WS* '(' WS* params WS* ')' WS* '=' sum ';' decl
//! params  := (WS* IDENT WS* (',' WS* IDENT WS*)* ','?)?
//! sum     := product (WS* ('+' | '-') WS* product)*      left-nested
//! product := unary (WS* ('*' | '/') WS* unary)*         left-nested
//! unary   := (WS* '-' WS*)* atom                        right-nested
//! atom    := WS* INT '.' INT WS* | WS* INT WS* | '(' sum ')' | call | WS* IDENT WS*
//! call    := WS* IDENT WS* '(' args ')'
//! args    := (sum (',' sum)* ','?)?
//! ```
//!
//! The tokens are those of [`crate::grammar`]; positions carry no spans here.
use vstd::prelude::*;
use crate::debug::FileId;
use crate::grammar::{
    at_word, char_at, digits_value, error_at, ident_scan, int_scan, lemma_neg_ops, lemma_ws_end, max, neg_ops, out,
    ws_end, Outcome, Parsed, Src, SyntaxError,
};
use crate::literal::{Decimal, SpecDecimal};

verus! {

#[derive(Debug)]
pub enum Value {
    Integer(i64),
    Double(Decimal),
    Function(Box<Expr>),
}

#[derive(Debug)]
pub enum Expr {
    Value(Value),
    Var(String),
    Neg(Box<Expr>),
    Add(Box<Expr>, Box<Expr>),
    Sub(Box<Expr>, Box<Expr>),
    Mul(Box<Expr>, Box<Expr>),
    Div(Box<Expr>, Box<Expr>),
    Call(String, Vec<Expr>),
    Let { name: String, rhs: Box<Expr>, then: Box<Expr> },
    Fn { name: String, args: Vec<String>, body: Box<Expr>, then: Box<Expr> },
}

/// The model of a [`Value`].
pub enum SpecValue {
    Integer(i64),
    Double(SpecDecimal),
    Function(Box<SpecExpr>),
}

/// The model of an [`Expr`].
pub enum SpecExpr {
    Value(SpecValue),
    Var(Seq<char>),
    Neg(Box<SpecExpr>),
    Add(Box<SpecExpr>, Box<SpecExpr>),
    Sub(Box<SpecExpr>, Box<SpecExpr>),
    Mul(Box<SpecExpr>, Box<SpecExpr>),
    Div(Box<SpecExpr>, Box<SpecExpr>),
    Call(Seq<char>, Seq<SpecExpr>),
    Let { name: Seq<char>, rhs: Box<SpecExpr>, then: Box<SpecExpr> },
    Fn { name: Seq<char>, args: Seq<Seq<char>>, body: Box<SpecExpr>, then: Box<SpecExpr> },
}

pub open spec fn view_names(ns: Seq<String>) -> Seq<Seq<char>> {
    Seq::new(ns.len(), |i: int| ns[i]@)
}

pub open spec fn view_exprs(es: Seq<Expr>) -> Seq<SpecExpr>
    decreases es, 0nat,
{
    Seq::new(es.len(), |i: int| if 0 <= i < es.len() { es[i].view_rec() } else { SpecExpr::Var(Seq::empty()) })
}

impl Value {
    pub open spec fn view_rec(&self) -> SpecValue
        decreases self, 1nat,
    {
        match self {
            Value::Integer(i) => SpecValue::Integer(*i),
            Value::Double(d) => SpecValue::Double(d@),
            Value::Function(body) => SpecValue::Function(Box::new((**body).view_rec())),
        }
    }
}

impl Expr {
    pub open spec fn view_rec(&self) -> SpecExpr
        decreases self, 1nat,
    {
        match self {
            Expr::Value(v) => SpecExpr::Value(v.view_rec()),
            Expr::Var(n) => SpecExpr::Var(n@),
            Expr::Neg(a) => SpecExpr::Neg(Box::new((**a).view_rec())),
            Expr::Add(a, b) => SpecExpr::Add(Box::new((**a).view_rec()), Box::new((**b).view_rec())),
            Expr::Sub(a, b) => SpecExpr::Sub(Box::new((**a).view_rec()), Box::new((**b).view_rec())),
            Expr::Mul(a, b) => SpecExpr::Mul(Box::new((**a).view_rec()), Box::new((**b).view_rec())),
            Expr::Div(a, b) => SpecExpr::Div(Box::new((**a).view_rec()), Box::new((**b).view_rec())),
            Expr::Call(f, args) => SpecExpr::Call(f@, view_exprs(args@)),
            Expr::Let { name, rhs, then } => SpecExpr::Let {
                name: name@,
                rhs: Box::new((**rhs).view_rec()),
                then: Box::new((**then).view_rec()),
            },
            Expr::Fn { name, args, body, then } => SpecExpr::Fn {
                name: name@,
                args: view_names(args@),
                body: Box::new((**body).view_rec()),
                then: Box::new((**then).view_rec()),
            },
        }
    }
}

impl View for Value {
    type V = SpecValue;

    open spec fn view(&self) -> SpecValue {
        self.view_rec()
    }
}

impl View for Expr {
    type V = SpecExpr;

    open spec fn view(&self) -> SpecExpr {
        self.view_rec()
    }
}

/// A copy of a list of expressions.
pub fn copy_exprs(es: &Vec<Expr>) -> (r: Vec<Expr>)
    ensures
        view_exprs(r@) == view_exprs(es@),
    decreases es@, 0nat,
{
    let mut r: Vec<Expr> = Vec::new();
    let mut i: usize = 0;
    while i < es.len()
        invariant
            i <= es.len(),
            r@.len() == i,
            forall|j: int| #![trigger r@[j]] 0 <= j < i ==> r@[j]@ == es@[j]@,
        decreases es.len() - i,
    {
        r.push(es[i].copy());
        i = i + 1;
    }
    assert(view_exprs(r@) =~= view_exprs(es@));
    r
}

/// A copy of a list of names.
pub fn copy_names(ns: &Vec<String>) -> (r: Vec<String>)
    ensures
        view_names(r@) == view_names(ns@),
{
    let mut r: Vec<String> = Vec::new();
    let mut i: usize = 0;
    while i < ns.len()
        invariant
            i <= ns.len(),
            r@.len() == i,
            forall|j: int| #![trigger r@[j]] 0 <= j < i ==> r@[j]@ == ns@[j]@,
        decreases ns.len() - i,
    {
        r.push(ns[i].clone());
        i = i + 1;
    }
    assert(view_names(r@) =~= view_names(ns@));
    r
}

impl Value {
    /// A copy of this value.
    pub fn copy(&self) -> (r: Value)
        ensures
            r@ == self@,
        decreases self, 1nat,
    {
        match self {
            Value::Integer(i) => Value::Integer(*i),
            Value::Double(d) => Value::Double(d.copy()),
            Value::Function(body) => Value::Function(Box::new(body.copy())),
        }
    }
}

impl Expr {
    /// A copy of this expression.
    pub fn copy(&self) -> (r: Expr)
        ensures
            r@ == self@,
        decreases self, 1nat,
    {
        match self {
            Expr::Value(v) => {
                let w = v.copy();
                Expr::Value(w)
            },
            Expr::Var(n) => Expr::Var(n.clone()),
            Expr::Neg(a) => Expr::Neg(Box::new(a.copy())),
            Expr::Add(a, b) => Expr::Add(Box::new(a.copy()), Box::new(b.copy())),
            Expr::Sub(a, b) => Expr::Sub(Box::new(a.copy()), Box::new(b.copy())),
            Expr::Mul(a, b) => Expr::Mul(Box::new(a.copy()), Box::new(b.copy())),
            Expr::Div(a, b) => Expr::Div(Box::new(a.copy()), Box::new(b.copy())),
            Expr::Call(f, args) => Expr::Call(f.clone(), copy_exprs(args)),
            Expr::Let { name, rhs, then } => Expr::Let {
                name: name.clone(),
                rhs: Box::new(rhs.copy()),
                then: Box::new(then.copy()),
            },
            Expr::Fn { name, args, body, then } => Expr::Fn {
                name: name.clone(),
                args: copy_names(args),
                body: Box::new(body.copy()),
                then: Box::new(then.copy()),
            },
        }
    }
}

impl Clone for Value {
    fn clone(&self) -> (r: Value)
        ensures
            r@ == self@,
    {
        self.copy()
    }
}

impl Clone for Expr {
    fn clone(&self) -> (r: Expr)
        ensures
            r@ == self@,
    {
        self.copy()
    }
}

pub open spec fn r_float(s: Seq<char>, i: int) -> Outcome<SpecExpr> {
    let j = ws_end(s, i);
    let (o1, f1) = int_scan(s, j);
    match o1 {
        None => out(Parsed::Miss, f1),
        Some(e1) => if char_at(s, e1, '.') {
            let (o2, f2) = int_scan(s, e1 + 1);
            match o2 {
                None => out(Parsed::Miss, max(f1, f2)),
                Some(e2) => out(
                    Parsed::Done(
                        SpecExpr::Value(
                            SpecValue::Double(SpecDecimal { whole: s.subrange(j, e1), fraction: s.subrange(e1 + 1, e2) }),
                        ),
                        ws_end(s, e2),
                    ),
                    max(f1, f2),
                ),
            }
        } else {
            out(Parsed::Miss, max(f1, e1))
        },
    }
}

pub open spec fn r_int(s: Seq<char>, i: int) -> Outcome<SpecExpr> {
    let j = ws_end(s, i);
    let (o, f1) = int_scan(s, j);
    match o {
        None => out(Parsed::Miss, f1),
        Some(e) => if digits_value(s.subrange(j, e)) > i64::MAX {
            out(Parsed::Overflow, f1)
        } else {
            out(Parsed::Done(SpecExpr::Value(SpecValue::Integer(digits_value(s.subrange(j, e)) as i64)), ws_end(s, e)), f1)
        },
    }
}

/// An identifier with white space around it: the name and where it ends.
pub open spec fn r_ident(s: Seq<char>, i: int) -> Outcome<Seq<char>> {
    let j = ws_end(s, i);
    let (o, f1) = ident_scan(s, j);
    match o {
        None => out(Parsed::Miss, f1),
        Some(e) => out(Parsed::Done(s.subrange(j, e), ws_end(s, e)), f1),
    }
}

/// `n` negations around `x`.
pub open spec fn negate(n: nat, x: SpecExpr) -> SpecExpr
    decreases n,
{
    if n == 0 {
        x
    } else {
        SpecExpr::Neg(Box::new(negate((n - 1) as nat, x)))
    }
}

pub open spec fn sum_node(op: char, a: SpecExpr, b: SpecExpr) -> SpecExpr {
    if op == '+' {
        SpecExpr::Add(Box::new(a), Box::new(b))
    } else {
        SpecExpr::Sub(Box::new(a), Box::new(b))
    }
}

pub open spec fn product_node(op: char, a: SpecExpr, b: SpecExpr) -> SpecExpr {
    if op == '*' {
        SpecExpr::Mul(Box::new(a), Box::new(b))
    } else {
        SpecExpr::Div(Box::new(a), Box::new(b))
    }
}

/// The arguments of a call, from `i` (rank 5).
pub open spec fn r_args(s: Seq<char>, i: int) -> Outcome<Seq<SpecExpr>>
    decreases s.len() - i, 5nat,
{
    let a = r_sum(s, i);
    match a.res {
        Parsed::Done(x, k) => if k <= i || k > s.len() {
            out(Parsed::Miss, a.far)
        } else {
            r_args_tail(s, seq![x], k, a.far)
        },
        Parsed::Miss => out(Parsed::Done(Seq::empty(), i), a.far),
        Parsed::Overflow => out(Parsed::Overflow, a.far),
    }
}

/// The rest of a list of arguments after `acc`, which ends at `pos` (rank 0).
pub open spec fn r_args_tail(s: Seq<char>, acc: Seq<SpecExpr>, pos: int, far: int) -> Outcome<Seq<SpecExpr>>
    decreases s.len() - pos, 0nat,
{
    if char_at(s, pos, ',') {
        let b = r_sum(s, pos + 1);
        match b.res {
            Parsed::Done(y, k) => if k <= pos + 1 || k > s.len() {
                out(Parsed::Miss, max(far, b.far))
            } else {
                r_args_tail(s, acc.push(y), k, max(far, b.far))
            },
            Parsed::Miss => out(Parsed::Done(acc, pos + 1), max(far, b.far)),
            Parsed::Overflow => out(Parsed::Overflow, max(far, b.far)),
        }
    } else {
        out(Parsed::Done(acc, pos), max(far, pos))
    }
}

/// A call: a name and the arguments in parentheses (rank 0).
pub open spec fn r_call(s: Seq<char>, i: int) -> Outcome<SpecExpr>
    decreases s.len() - i, 0nat,
{
    let f = r_ident(s, i);
    match f.res {
        Parsed::Done(name, k) => if !char_at(s, k, '(') || k < i {
            out(Parsed::Miss, max(f.far, k))
        } else {
            let a = r_args(s, k + 1);
            let fa = max(f.far, a.far);
            match a.res {
                Parsed::Done(args, p) => if char_at(s, p, ')') {
                    out(Parsed::Done(SpecExpr::Call(name, args), p + 1), fa)
                } else {
                    out(Parsed::Miss, max(fa, p))
                },
                Parsed::Miss => out(Parsed::Miss, fa),
                Parsed::Overflow => out(Parsed::Overflow, fa),
            }
        },
        _ => out(Parsed::Miss, f.far),
    }
}

/// A decimal, an integer, a parenthesised sum, a call or a variable (rank 1).
pub open spec fn r_atom(s: Seq<char>, i: int) -> Outcome<SpecExpr>
    decreases s.len() - i, 1nat,
{
    let a = r_float(s, i);
    match a.res {
        Parsed::Miss => {
            let b = r_int(s, i);
            match b.res {
                Parsed::Miss => {
                    let fb = max(a.far, b.far);
                    let c = if char_at(s, i, '(') {
                        let d = r_sum(s, i + 1);
                        match d.res {
                            Parsed::Done(x, k) => if char_at(s, k, ')') {
                                out(Parsed::Done(x, k + 1), d.far)
                            } else {
                                out(Parsed::Miss, max(d.far, k))
                            },
                            _ => d,
                        }
                    } else {
                        out(Parsed::Miss, i)
                    };
                    let fc = max(fb, c.far);
                    match c.res {
                        Parsed::Miss => {
                            let d = r_call(s, i);
                            let fd = max(fc, d.far);
                            match d.res {
                                Parsed::Miss => {
                                    let e = r_ident(s, i);
                                    let fe = max(fd, e.far);
                                    match e.res {
                                        Parsed::Done(n, k) => out(Parsed::Done(SpecExpr::Var(n), k), fe),
                                        _ => out(Parsed::Miss, fe),
                                    }
                                },
                                _ => out(d.res, fd),
                            }
                        },
                        _ => out(c.res, fc),
                    }
                },
                _ => out(b.res, max(a.far, b.far)),
            }
        },
        _ => a,
    }
}

/// Any number of `-` followed by an atom (rank 2).
pub open spec fn r_unary(s: Seq<char>, i: int) -> Outcome<SpecExpr>
    decreases s.len() - i, 2nat,
{
    let (starts, e, fo) = neg_ops(s, i);
    if e < i || e > s.len() {
        out(Parsed::Miss, fo)
    } else {
        let a = r_atom(s, e);
        match a.res {
            Parsed::Done(x, k) => out(Parsed::Done(negate(starts.len(), x), k), max(fo, a.far)),
            Parsed::Miss => out(Parsed::Miss, max(fo, a.far)),
            Parsed::Overflow => out(Parsed::Overflow, max(fo, a.far)),
        }
    }
}

/// A negation followed by any number of `*`/`/` negations, nested to the left (rank 3).
pub open spec fn r_product(s: Seq<char>, i: int) -> Outcome<SpecExpr>
    decreases s.len() - i, 3nat,
{
    let a = r_unary(s, i);
    match a.res {
        Parsed::Done(x, k) => if k <= i || k > s.len() {
            out(Parsed::Miss, a.far)
        } else {
            r_product_tail(s, x, k, a.far)
        },
        _ => a,
    }
}

/// The rest of a product after `lhs`, which ends at `pos` (rank 0).
pub open spec fn r_product_tail(s: Seq<char>, lhs: SpecExpr, pos: int, far: int) -> Outcome<SpecExpr>
    decreases s.len() - pos, 0nat,
{
    let j = ws_end(s, pos);
    if (char_at(s, j, '*') || char_at(s, j, '/')) && pos <= j {
        proof {
            lemma_ws_end(s, j + 1);
        }
        let b = r_unary(s, ws_end(s, j + 1));
        match b.res {
            Parsed::Done(y, k) => if k <= pos || k > s.len() {
                out(Parsed::Miss, max(far, b.far))
            } else {
                r_product_tail(s, product_node(s[j], lhs, y), k, max(far, b.far))
            },
            Parsed::Miss => out(Parsed::Done(lhs, pos), max(far, b.far)),
            Parsed::Overflow => out(Parsed::Overflow, max(far, b.far)),
        }
    } else {
        out(Parsed::Done(lhs, pos), max(far, j))
    }
}

/// A product followed by any number of `+`/`-` products, nested to the left (rank 4).
pub open spec fn r_sum(s: Seq<char>, i: int) -> Outcome<SpecExpr>
    decreases s.len() - i, 4nat,
{
    let a = r_product(s, i);
    match a.res {
        Parsed::Done(x, k) => if k <= i || k > s.len() {
            out(Parsed::Miss, a.far)
        } else {
            r_sum_tail(s, x, k, a.far)
        },
        _ => a,
    }
}

/// The rest of a sum after `lhs`, which ends at `pos` (rank 0).
pub open spec fn r_sum_tail(s: Seq<char>, lhs: SpecExpr, pos: int, far: int) -> Outcome<SpecExpr>
    decreases s.len() - pos, 0nat,
{
    let j = ws_end(s, pos);
    if (char_at(s, j, '+') || char_at(s, j, '-')) && pos <= j {
        proof {
            lemma_ws_end(s, j + 1);
        }
        let b = r_product(s, ws_end(s, j + 1));
        match b.res {
            Parsed::Done(y, k) => if k <= pos || k > s.len() {
                out(Parsed::Miss, max(far, b.far))
            } else {
                r_sum_tail(s, sum_node(s[j], lhs, y), k, max(far, b.far))
            },
            Parsed::Miss => out(Parsed::Done(lhs, pos), max(far, b.far)),
            Parsed::Overflow => out(Parsed::Overflow, max(far, b.far)),
        }
    } else {
        out(Parsed::Done(lhs, pos), max(far, j))
    }
}

/// The names of a parameter list, from `i`.
pub open spec fn r_params(s: Seq<char>, i: int) -> Outcome<Seq<Seq<char>>> {
    let a = r_ident(s, i);
    match a.res {
        Parsed::Done(n, k) => r_params_tail(s, seq![n], k, a.far),
        _ => out(Parsed::Done(Seq::empty(), i), a.far),
    }
}

/// The rest of a parameter list after `acc`, which ends at `pos`.
pub open spec fn r_params_tail(s: Seq<char>, acc: Seq<Seq<char>>, pos: int, far: int) -> Outcome<Seq<Seq<char>>>
    decreases s.len() - pos,
{
    if char_at(s, pos, ',') {
        let b = r_ident(s, pos + 1);
        match b.res {
            Parsed::Done(n, k) => if k <= pos + 1 || k > s.len() {
                out(Parsed::Miss, max(far, b.far))
            } else {
                r_params_tail(s, acc.push(n), k, max(far, b.far))
            },
            _ => out(Parsed::Done(acc, pos + 1), max(far, b.far)),
        }
    } else {
        out(Parsed::Done(acc, pos), max(far, pos))
    }
}

/// Whether the characters from `i` on hold the keyword `w`, ending where the
/// identifier at `i` ends.
pub open spec fn keyword(s: Seq<char>, i: int, w: Seq<char>) -> Outcome<int> {
    let (o, f1) = ident_scan(s, i);
    match o {
        Some(e) => if at_word(s, i, e, w) {
            out(Parsed::Done(e, e), f1)
        } else {
            out(Parsed::Miss, f1)
        },
        None => out(Parsed::Miss, f1),
    }
}

/// `let NAME = sum; decl` (rank 6).
pub open spec fn r_let(s: Seq<char>, i: int) -> Outcome<SpecExpr>
    decreases s.len() - i, 6nat,
{
    let kw = keyword(s, i, seq!['l', 'e', 't']);
    match kw.res {
        Parsed::Done(_, e) => {
            let n = r_ident(s, e);
            let fn_ = max(kw.far, n.far);
            match n.res {
                Parsed::Done(name, k) => if !char_at(s, k, '=') || k < i {
                    out(Parsed::Miss, max(fn_, k))
                } else {
                    let r = r_sum(s, k + 1);
                    let fr = max(fn_, r.far);
                    match r.res {
                        Parsed::Done(rhs, p1) => if !char_at(s, p1, ';') || p1 < i {
                            out(Parsed::Miss, max(fr, p1))
                        } else {
                            let t = r_decl(s, p1 + 1);
                            let ft = max(fr, t.far);
                            match t.res {
                                Parsed::Done(then, p2) => out(
                                    Parsed::Done(SpecExpr::Let { name, rhs: Box::new(rhs), then: Box::new(then) }, p2),
                                    ft,
                                ),
                                Parsed::Miss => out(Parsed::Miss, ft),
                                Parsed::Overflow => out(Parsed::Overflow, ft),
                            }
                        },
                        Parsed::Miss => out(Parsed::Miss, fr),
                        Parsed::Overflow => out(Parsed::Overflow, fr),
                    }
                },
                _ => out(Parsed::Miss, fn_),
            }
        },
        _ => out(Parsed::Miss, kw.far),
    }
}

/// `fn NAME(params) = sum; decl` (rank 6).
pub open spec fn r_fn(s: Seq<char>, i: int) -> Outcome<SpecExpr>
    decreases s.len() - i, 6nat,
{
    let kw = keyword(s, i, seq!['f', 'n']);
    match kw.res {
        Parsed::Done(_, e) => {
            let n = r_ident(s, e);
            let f1 = max(kw.far, n.far);
            match n.res {
                Parsed::Done(name, k) => {
                    let k1 = ws_end(s, k);
                    if !char_at(s, k1, '(') || k1 < i {
                        out(Parsed::Miss, max(f1, k1))
                    } else {
                        let ps = r_params(s, ws_end(s, k1 + 1));
                        let fp = max(f1, ps.far);
                        match ps.res {
                            Parsed::Done(args, p) => {
                                let p0 = ws_end(s, p);
                                if !char_at(s, p0, ')') || p0 < i {
                                    out(Parsed::Miss, max(fp, p0))
                                } else {
                                    let q = ws_end(s, p0 + 1);
                                    if !char_at(s, q, '=') || q < i {
                                        out(Parsed::Miss, max(fp, q))
                                    } else {
                                        let b = r_sum(s, q + 1);
                                        let fb = max(fp, b.far);
                                        match b.res {
                                            Parsed::Done(body, p1) => if !char_at(s, p1, ';') || p1 < i {
                                                out(Parsed::Miss, max(fb, p1))
                                            } else {
                                                let t = r_decl(s, p1 + 1);
                                                let ft = max(fb, t.far);
                                                match t.res {
                                                    Parsed::Done(then, p2) => out(
                                                        Parsed::Done(
                                                            SpecExpr::Fn {
                                                                name,
                                                                args,
                                                                body: Box::new(body),
                                                                then: Box::new(then),
                                                            },
                                                            p2,
                                                        ),
                                                        ft,
                                                    ),
                                                    Parsed::Miss => out(Parsed::Miss, ft),
                                                    Parsed::Overflow => out(Parsed::Overflow, ft),
                                                }
                                            },
                                            Parsed::Miss => out(Parsed::Miss, fb),
                                            Parsed::Overflow => out(Parsed::Overflow, fb),
                                        }
                                    }
                                }
                            },
                            _ => out(Parsed::Miss, fp),
                        }
                    }
                },
                _ => out(Parsed::Miss, f1),
            }
        },
        _ => out(Parsed::Miss, kw.far),
    }
}

/// A `let`, a `fn` or a sum, with white space around it (rank 7).
pub open spec fn r_decl(s: Seq<char>, i: int) -> Outcome<SpecExpr>
    decreases s.len() - i, 7nat,
{
    let j = ws_end(s, i);
    if j < i || j > s.len() {
        out(Parsed::Miss, i)
    } else {
        let a = r_let(s, j);
        match a.res {
            Parsed::Done(x, k) => out(Parsed::Done(x, ws_end(s, k)), a.far),
            Parsed::Overflow => a,
            Parsed::Miss => {
                let b = r_fn(s, j);
                let fb = max(a.far, b.far);
                match b.res {
                    Parsed::Done(x, k) => out(Parsed::Done(x, ws_end(s, k)), fb),
                    Parsed::Overflow => out(Parsed::Overflow, fb),
                    Parsed::Miss => {
                        let c = r_sum(s, j);
                        let fc = max(fb, c.far);
                        match c.res {
                            Parsed::Done(x, k) => out(Parsed::Done(x, ws_end(s, k)), fc),
                            Parsed::Overflow => out(Parsed::Overflow, fc),
                            Parsed::Miss => out(Parsed::Miss, fc),
                        }
                    },
                }
            },
        }
    }
}

/// The whole input as one declaration: `Ok` with the expression, `Err` with
/// the furthest position that the parser reached, or `None` when an integer
/// literal does not fit in `i64`.
pub open spec fn r_top(s: Seq<char>) -> Option<Result<SpecExpr, int>> {
    let e = r_decl(s, 0);
    match e.res {
        Parsed::Done(x, k) => if k == s.len() {
            Some(Ok(x))
        } else {
            Some(Err(max(e.far, k)))
        },
        Parsed::Miss => Some(Err(e.far)),
        Parsed::Overflow => None,
    }
}


/// How one parsing function ended.
enum Step<T> {
    Done(T, usize),
    Miss,
    Overflow,
}

/// The result of one parsing function, with the furthest position at which it
/// met something that it could not use.
struct Res<T> {
    step: Step<T>,
    far: usize,
}

/// `r` is the outcome `o` of a parse of an expression that started at `i` in
/// an input of `n` characters.
spec fn agrees(r: Res<Expr>, o: Outcome<SpecExpr>, i: int, n: int) -> bool {
    &&& r.far as int == o.far
    &&& r.far <= n
    &&& match r.step {
        Step::Done(x, k) => o.res == Parsed::Done(x@, k as int) && i < k <= n,
        Step::Miss => o.res is Miss,
        Step::Overflow => o.res is Overflow,
    }
}

/// As [`agrees`], for a list of arguments, which may be empty.
spec fn agrees_args(r: Res<Vec<Expr>>, o: Outcome<Seq<SpecExpr>>, i: int, n: int) -> bool {
    &&& r.far as int == o.far
    &&& r.far <= n
    &&& match r.step {
        Step::Done(x, k) => o.res == Parsed::Done(view_exprs(x@), k as int) && i <= k <= n,
        Step::Miss => o.res is Miss,
        Step::Overflow => o.res is Overflow,
    }
}

/// As [`agrees`], for a name.
spec fn agrees_name(r: Res<String>, o: Outcome<Seq<char>>, i: int, n: int) -> bool {
    &&& r.far as int == o.far
    &&& r.far <= n
    &&& match r.step {
        Step::Done(x, k) => o.res == Parsed::Done(x@, k as int) && i < k <= n,
        Step::Miss => o.res is Miss,
        Step::Overflow => false,
    }
}

/// As [`agrees`], for a list of names, which may be empty.
spec fn agrees_names(r: Res<Vec<String>>, o: Outcome<Seq<Seq<char>>>, i: int, n: int) -> bool {
    &&& r.far as int == o.far
    &&& r.far <= n
    &&& match r.step {
        Step::Done(x, k) => o.res == Parsed::Done(view_names(x@), k as int) && i <= k <= n,
        Step::Miss => o.res is Miss,
        Step::Overflow => false,
    }
}

fn umax(a: usize, b: usize) -> (r: usize)
    ensures
        r as int == max(a as int, b as int),
{
    if a >= b {
        a
    } else {
        b
    }
}

/// Whether the characters from `i` up to `e` are the keyword `fn`.
fn is_fn(t: &Src, i: usize, e: usize) -> (r: bool)
    requires
        t.wf(),
        i <= e <= t.s().len(),
    ensures
        r == at_word(t.s(), i as int, e as int, seq!['f', 'n']),
{
    if e - i == 2 && t.chars[i] == 'f' && t.chars[i + 1] == 'n' {
        assert(t.s().subrange(i as int, e as int) =~= seq!['f', 'n']);
        true
    } else {
        proof {
            let w = t.s().subrange(i as int, e as int);
            if w == seq!['f', 'n'] {
                assert(w.len() == 2);
                assert(t.s()[i as int] == w[0]);
                assert(t.s()[i + 1] == w[1]);
            }
        }
        false
    }
}

/// The keyword `let` (when `is_let`) or `fn` at `i`: where it ends.
fn keyword_at(t: &Src, i: usize, is_let: bool) -> (r: Res<usize>)
    requires
        t.wf(),
        i <= t.s().len(),
    ensures
        r.far as int == keyword(t.s(), i as int, if is_let { seq!['l', 'e', 't'] } else { seq!['f', 'n'] }).far,
        r.far <= t.s().len(),
        match r.step {
            Step::Done(e, k) => e == k && i < k <= t.s().len() && keyword(
                t.s(),
                i as int,
                if is_let { seq!['l', 'e', 't'] } else { seq!['f', 'n'] },
            ).res == Parsed::Done(e as int, k as int),
            Step::Miss => keyword(t.s(), i as int, if is_let { seq!['l', 'e', 't'] } else { seq!['f', 'n'] }).res is Miss,
            Step::Overflow => false,
        },
{
    let (o, f1) = t.ident_scan(i);
    match o {
        Some(e) => {
            let hit = if is_let { t.is_let(i, e) } else { is_fn(t, i, e) };
            if hit {
                Res { step: Step::Done(e, e), far: f1 }
            } else {
                Res { step: Step::Miss, far: f1 }
            }
        },
        None => Res { step: Step::Miss, far: f1 },
    }
}

fn float(t: &Src, i: usize) -> (r: Res<Expr>)
    requires
        t.wf(),
        i <= t.s().len(),
    ensures
        agrees(r, r_float(t.s(), i as int), i as int, t.s().len() as int),
{
    let j = t.ws_end(i);
    let (o1, f1) = t.int_scan(j);
    match o1 {
        None => Res { step: Step::Miss, far: f1 },
        Some(e1) => if t.is_char(e1, '.') {
            let (o2, f2) = t.int_scan(e1 + 1);
            match o2 {
                None => Res { step: Step::Miss, far: umax(f1, f2) },
                Some(e2) => {
                    let d = Decimal { whole: t.text_of(j, e1), fraction: t.text_of(e1 + 1, e2) };
                    let v = Value::Double(d);
                    assert(v@ == SpecValue::Double(d@));
                    let x = Expr::Value(v);
                    let k = t.ws_end(e2);
                    Res { step: Step::Done(x, k), far: umax(f1, f2) }
                },
            }
        } else {
            Res { step: Step::Miss, far: umax(f1, e1) }
        },
    }
}

fn integer(t: &Src, i: usize) -> (r: Res<Expr>)
    requires
        t.wf(),
        i <= t.s().len(),
    ensures
        agrees(r, r_int(t.s(), i as int), i as int, t.s().len() as int),
{
    let j = t.ws_end(i);
    let (o, f1) = t.int_scan(j);
    match o {
        None => Res { step: Step::Miss, far: f1 },
        Some(e) => match t.digits_value(j, e) {
            None => Res { step: Step::Overflow, far: f1 },
            Some(v) => {
                let w = Value::Integer(v);
                assert(w@ == SpecValue::Integer(v));
                let x = Expr::Value(w);
                let k = t.ws_end(e);
                Res { step: Step::Done(x, k), far: f1 }
            },
        },
    }
}

fn ident(t: &Src, i: usize) -> (r: Res<String>)
    requires
        t.wf(),
        i <= t.s().len(),
    ensures
        agrees_name(r, r_ident(t.s(), i as int), i as int, t.s().len() as int),
{
    let j = t.ws_end(i);
    let (o, f1) = t.ident_scan(j);
    match o {
        None => Res { step: Step::Miss, far: f1 },
        Some(e) => {
            let k = t.ws_end(e);
            Res { step: Step::Done(t.text_of(j, e), k), far: f1 }
        },
    }
}

/// The names of a parameter list, from `i`.
fn params(t: &Src, i: usize) -> (r: Res<Vec<String>>)
    requires
        t.wf(),
        i <= t.s().len(),
    ensures
        agrees_names(r, r_params(t.s(), i as int), i as int, t.s().len() as int),
{
    let a = ident(t, i);
    let (first, k) = match a.step {
        Step::Done(n, k) => (n, k),
        _ => {
            let none: Vec<String> = Vec::new();
            assert(view_names(none@) =~= Seq::<Seq<char>>::empty());
            return Res { step: Step::Done(none, i), far: a.far };
        },
    };
    let mut acc: Vec<String> = Vec::new();
    let ghost f0 = first@;
    acc.push(first);
    assert(view_names(acc@) =~= seq![f0]);
    let mut pos = k;
    let mut far = a.far;
    loop
        invariant
            t.wf(),
            i < pos <= t.s().len(),
            far <= t.s().len(),
            r_params(t.s(), i as int) == r_params_tail(t.s(), view_names(acc@), pos as int, far as int),
        decreases t.s().len() - pos,
    {
        if t.is_char(pos, ',') {
            let b = ident(t, pos + 1);
            match b.step {
                Step::Done(n, k2) => {
                    let ghost before = view_names(acc@);
                    let ghost nv = n@;
                    acc.push(n);
                    assert(view_names(acc@) =~= before.push(nv));
                    pos = k2;
                    far = umax(far, b.far);
                },
                _ => {
                    return Res { step: Step::Done(acc, pos + 1), far: umax(far, b.far) };
                },
            }
        } else {
            return Res { step: Step::Done(acc, pos), far: umax(far, pos) };
        }
    }
}


/// The arguments of a call, from `i`.
fn args(t: &Src, i: usize) -> (r: Res<Vec<Expr>>)
    requires
        t.wf(),
        i <= t.s().len(),
    ensures
        agrees_args(r, r_args(t.s(), i as int), i as int, t.s().len() as int),
    decreases t.s().len() - i, 5nat,
{
    let a = sum(t, i);
    let (first, k) = match a.step {
        Step::Done(x, k) => (x, k),
        Step::Miss => {
            let none: Vec<Expr> = Vec::new();
            assert(view_exprs(none@) =~= Seq::<SpecExpr>::empty());
            return Res { step: Step::Done(none, i), far: a.far };
        },
        Step::Overflow => {
            return Res { step: Step::Overflow, far: a.far };
        },
    };
    let mut acc: Vec<Expr> = Vec::new();
    let ghost x0 = first@;
    acc.push(first);
    assert(view_exprs(acc@) =~= seq![x0]);
    let mut pos = k;
    let mut far = a.far;
    loop
        invariant
            t.wf(),
            i < pos <= t.s().len(),
            far <= t.s().len(),
            r_args(t.s(), i as int) == r_args_tail(t.s(), view_exprs(acc@), pos as int, far as int),
        decreases t.s().len() - pos,
    {
        if t.is_char(pos, ',') {
            let b = sum(t, pos + 1);
            match b.step {
                Step::Done(y, k2) => {
                    let ghost before = view_exprs(acc@);
                    let ghost yv = y@;
                    acc.push(y);
                    assert(view_exprs(acc@) =~= before.push(yv));
                    pos = k2;
                    far = umax(far, b.far);
                },
                Step::Miss => {
                    return Res { step: Step::Done(acc, pos + 1), far: umax(far, b.far) };
                },
                Step::Overflow => {
                    return Res { step: Step::Overflow, far: umax(far, b.far) };
                },
            }
        } else {
            return Res { step: Step::Done(acc, pos), far: umax(far, pos) };
        }
    }
}

/// A call: a name and the arguments in parentheses.
fn call(t: &Src, i: usize) -> (r: Res<Expr>)
    requires
        t.wf(),
        i <= t.s().len(),
    ensures
        agrees(r, r_call(t.s(), i as int), i as int, t.s().len() as int),
    decreases t.s().len() - i, 0nat,
{
    let f = ident(t, i);
    let (name, k) = match f.step {
        Step::Done(name, k) => (name, k),
        _ => {
            return Res { step: Step::Miss, far: f.far };
        },
    };
    if !t.is_char(k, '(') {
        return Res { step: Step::Miss, far: umax(f.far, k) };
    }
    let a = args(t, k + 1);
    let fa = umax(f.far, a.far);
    match a.step {
        Step::Done(xs, p) => if t.is_char(p, ')') {
            Res { step: Step::Done(Expr::Call(name, xs), p + 1), far: fa }
        } else {
            Res { step: Step::Miss, far: umax(fa, p) }
        },
        Step::Miss => Res { step: Step::Miss, far: fa },
        Step::Overflow => Res { step: Step::Overflow, far: fa },
    }
}

/// A decimal, an integer, a parenthesised sum, a call or a variable.
fn atom(t: &Src, i: usize) -> (r: Res<Expr>)
    requires
        t.wf(),
        i <= t.s().len(),
    ensures
        agrees(r, r_atom(t.s(), i as int), i as int, t.s().len() as int),
    decreases t.s().len() - i, 1nat,
{
    let a = float(t, i);
    if let Step::Miss = a.step {
    } else {
        return a;
    }
    let b = integer(t, i);
    let fb = umax(a.far, b.far);
    if let Step::Miss = b.step {
    } else {
        return Res { step: b.step, far: fb };
    }
    let c = if t.is_char(i, '(') {
        let d = sum(t, i + 1);
        match d.step {
            Step::Done(x, k) => if t.is_char(k, ')') {
                Res { step: Step::Done(x, k + 1), far: d.far }
            } else {
                Res { step: Step::Miss, far: umax(d.far, k) }
            },
            _ => d,
        }
    } else {
        Res { step: Step::Miss, far: i }
    };
    let fc = umax(fb, c.far);
    if let Step::Miss = c.step {
    } else {
        return Res { step: c.step, far: fc };
    }
    let d = call(t, i);
    let fd = umax(fc, d.far);
    if let Step::Miss = d.step {
    } else {
        return Res { step: d.step, far: fd };
    }
    let e = ident(t, i);
    let fe = umax(fd, e.far);
    match e.step {
        Step::Done(n, k) => Res { step: Step::Done(Expr::Var(n), k), far: fe },
        _ => Res { step: Step::Miss, far: fe },
    }
}

/// Any number of `-` followed by an atom.
fn unary(t: &Src, i: usize) -> (r: Res<Expr>)
    requires
        t.wf(),
        i <= t.s().len(),
    ensures
        agrees(r, r_unary(t.s(), i as int), i as int, t.s().len() as int),
    decreases t.s().len() - i, 2nat,
{
    let (starts, e, fo) = t.neg_ops(i);
    let ghost n = neg_ops(t.s(), i as int).0.len();
    assert(starts@.map_values(|v: usize| v as int).len() == starts@.len());
    let a = atom(t, e);
    let far = umax(fo, a.far);
    match a.step {
        Step::Done(x, k) => {
            let ghost inner = x@;
            let mut cur = x;
            let mut m: usize = 0;
            while m < starts.len()
                invariant
                    m <= starts@.len(),
                    cur@ == negate(m as nat, inner),
                decreases starts@.len() - m,
            {
                cur = Expr::Neg(Box::new(cur));
                m = m + 1;
            }
            Res { step: Step::Done(cur, k), far }
        },
        Step::Miss => Res { step: Step::Miss, far },
        Step::Overflow => Res { step: Step::Overflow, far },
    }
}

/// A negation followed by any number of `*`/`/` negations, nested to the left.
fn product(t: &Src, i: usize) -> (r: Res<Expr>)
    requires
        t.wf(),
        i <= t.s().len(),
    ensures
        agrees(r, r_product(t.s(), i as int), i as int, t.s().len() as int),
    decreases t.s().len() - i, 3nat,
{
    let a = unary(t, i);
    match a.step {
        Step::Done(x, k) => {
            let mut lhs = x;
            let mut pos = k;
            let mut far = a.far;
            loop
                invariant
                    t.wf(),
                    i < pos <= t.s().len(),
                    far <= t.s().len(),
                    r_product(t.s(), i as int) == r_product_tail(t.s(), lhs@, pos as int, far as int),
                decreases t.s().len() - pos,
            {
                let j = t.ws_end(pos);
                let star = t.is_char(j, '*');
                if star || t.is_char(j, '/') {
                    proof {
                        lemma_ws_end(t.s(), j + 1);
                    }
                    let b = unary(t, t.ws_end(j + 1));
                    match b.step {
                        Step::Done(y, k2) => {
                            lhs = if star {
                                Expr::Mul(Box::new(lhs), Box::new(y))
                            } else {
                                Expr::Div(Box::new(lhs), Box::new(y))
                            };
                            pos = k2;
                            far = umax(far, b.far);
                        },
                        Step::Miss => {
                            return Res { step: Step::Done(lhs, pos), far: umax(far, b.far) };
                        },
                        Step::Overflow => {
                            return Res { step: Step::Overflow, far: umax(far, b.far) };
                        },
                    }
                } else {
                    return Res { step: Step::Done(lhs, pos), far: umax(far, j) };
                }
            }
        },
        _ => a,
    }
}

/// A product followed by any number of `+`/`-` products, nested to the left.
fn sum(t: &Src, i: usize) -> (r: Res<Expr>)
    requires
        t.wf(),
        i <= t.s().len(),
    ensures
        agrees(r, r_sum(t.s(), i as int), i as int, t.s().len() as int),
    decreases t.s().len() - i, 4nat,
{
    let a = product(t, i);
    match a.step {
        Step::Done(x, k) => {
            let mut lhs = x;
            let mut pos = k;
            let mut far = a.far;
            loop
                invariant
                    t.wf(),
                    i < pos <= t.s().len(),
                    far <= t.s().len(),
                    r_sum(t.s(), i as int) == r_sum_tail(t.s(), lhs@, pos as int, far as int),
                decreases t.s().len() - pos,
            {
                let j = t.ws_end(pos);
                let plus = t.is_char(j, '+');
                if plus || t.is_char(j, '-') {
                    proof {
                        lemma_ws_end(t.s(), j + 1);
                    }
                    let b = product(t, t.ws_end(j + 1));
                    match b.step {
                        Step::Done(y, k2) => {
                            lhs = if plus {
                                Expr::Add(Box::new(lhs), Box::new(y))
                            } else {
                                Expr::Sub(Box::new(lhs), Box::new(y))
                            };
                            pos = k2;
                            far = umax(far, b.far);
                        },
                        Step::Miss => {
                            return Res { step: Step::Done(lhs, pos), far: umax(far, b.far) };
                        },
                        Step::Overflow => {
                            return Res { step: Step::Overflow, far: umax(far, b.far) };
                        },
                    }
                } else {
                    return Res { step: Step::Done(lhs, pos), far: umax(far, j) };
                }
            }
        },
        _ => a,
    }
}

/// `let NAME = sum; decl`.
fn let_in(t: &Src, i: usize) -> (r: Res<Expr>)
    requires
        t.wf(),
        i <= t.s().len(),
    ensures
        agrees(r, r_let(t.s(), i as int), i as int, t.s().len() as int),
    decreases t.s().len() - i, 6nat,
{
    let kw = keyword_at(t, i, true);
    let e = match kw.step {
        Step::Done(e, _) => e,
        _ => {
            return Res { step: Step::Miss, far: kw.far };
        },
    };
    let n = ident(t, e);
    let fnm = umax(kw.far, n.far);
    let (name, k) = match n.step {
        Step::Done(name, k) => (name, k),
        _ => {
            return Res { step: Step::Miss, far: fnm };
        },
    };
    if !t.is_char(k, '=') {
        return Res { step: Step::Miss, far: umax(fnm, k) };
    }
    let r = sum(t, k + 1);
    let fr = umax(fnm, r.far);
    let (rhs, p1) = match r.step {
        Step::Done(rhs, p1) => (rhs, p1),
        Step::Miss => {
            return Res { step: Step::Miss, far: fr };
        },
        Step::Overflow => {
            return Res { step: Step::Overflow, far: fr };
        },
    };
    if !t.is_char(p1, ';') {
        return Res { step: Step::Miss, far: umax(fr, p1) };
    }
    let d = decl(t, p1 + 1);
    let ft = umax(fr, d.far);
    match d.step {
        Step::Done(then, p2) => Res {
            step: Step::Done(Expr::Let { name, rhs: Box::new(rhs), then: Box::new(then) }, p2),
            far: ft,
        },
        Step::Miss => Res { step: Step::Miss, far: ft },
        Step::Overflow => Res { step: Step::Overflow, far: ft },
    }
}

/// `fn NAME(params) = sum; decl`.
fn fn_decl(t: &Src, i: usize) -> (r: Res<Expr>)
    requires
        t.wf(),
        i <= t.s().len(),
    ensures
        agrees(r, r_fn(t.s(), i as int), i as int, t.s().len() as int),
    decreases t.s().len() - i, 6nat,
{
    let kw = keyword_at(t, i, false);
    let e = match kw.step {
        Step::Done(e, _) => e,
        _ => {
            return Res { step: Step::Miss, far: kw.far };
        },
    };
    let n = ident(t, e);
    let f1 = umax(kw.far, n.far);
    let (name, k) = match n.step {
        Step::Done(name, k) => (name, k),
        _ => {
            return Res { step: Step::Miss, far: f1 };
        },
    };
    let k1 = t.ws_end(k);
    if !t.is_char(k1, '(') {
        return Res { step: Step::Miss, far: umax(f1, k1) };
    }
    let ps = params(t, t.ws_end(k1 + 1));
    let fp = umax(f1, ps.far);
    let (names, p) = match ps.step {
        Step::Done(names, p) => (names, p),
        _ => {
            return Res { step: Step::Miss, far: fp };
        },
    };
    let p0 = t.ws_end(p);
    if !t.is_char(p0, ')') {
        return Res { step: Step::Miss, far: umax(fp, p0) };
    }
    let q = t.ws_end(p0 + 1);
    if !t.is_char(q, '=') {
        return Res { step: Step::Miss, far: umax(fp, q) };
    }
    let b = sum(t, q + 1);
    let fb = umax(fp, b.far);
    let (body, p1) = match b.step {
        Step::Done(body, p1) => (body, p1),
        Step::Miss => {
            return Res { step: Step::Miss, far: fb };
        },
        Step::Overflow => {
            return Res { step: Step::Overflow, far: fb };
        },
    };
    if !t.is_char(p1, ';') {
        return Res { step: Step::Miss, far: umax(fb, p1) };
    }
    let d = decl(t, p1 + 1);
    let ft = umax(fb, d.far);
    match d.step {
        Step::Done(then, p2) => Res {
            step: Step::Done(Expr::Fn { name, args: names, body: Box::new(body), then: Box::new(then) }, p2),
            far: ft,
        },
        Step::Miss => Res { step: Step::Miss, far: ft },
        Step::Overflow => Res { step: Step::Overflow, far: ft },
    }
}

/// A `let`, a `fn` or a sum, with white space around it.
fn decl(t: &Src, i: usize) -> (r: Res<Expr>)
    requires
        t.wf(),
        i <= t.s().len(),
    ensures
        agrees(r, r_decl(t.s(), i as int), i as int, t.s().len() as int),
    decreases t.s().len() - i, 7nat,
{
    let j = t.ws_end(i);
    let a = let_in(t, j);
    if let Step::Overflow = a.step {
        return a;
    }
    let far = a.far;
    let a = if let Step::Miss = a.step {
        let b = fn_decl(t, j);
        let far = umax(far, b.far);
        if let Step::Miss = b.step {
            let c = sum(t, j);
            Res { step: c.step, far: umax(far, c.far) }
        } else {
            Res { step: b.step, far }
        }
    } else {
        a
    };
    match a.step {
        Step::Done(x, k) => {
            let k2 = t.ws_end(k);
            Res { step: Step::Done(x, k2), far: a.far }
        },
        _ => a,
    }
}


/// `r` is what a parse of `s` gives back when [`r_top`] is `t`: the
/// expression, or one syntax error at the furthest position that the parser
/// reached.
pub open spec fn parse_agrees(s: Seq<char>, t: Result<SpecExpr, int>, r: Result<Expr, Vec<SyntaxError>>) -> bool {
    match t {
        Ok(x) => r matches Ok(e) && e@ == x,
        Err(p) => r matches Err(es) && es@.len() == 1 && error_at(s, p, es@[0]),
    }
}

/// The parser of the language's programs.
pub struct ProgramParser;

/// The parser of the language's programs.
pub fn parser() -> (r: ProgramParser) {
    ProgramParser
}

impl ProgramParser {
    /// The parse of `src`, or `None` where an integer literal does not fit in `i64`.
    fn outcome(&self, src: &str) -> (r: Option<Result<Expr, Vec<SyntaxError>>>)
        ensures
            r is None <==> r_top(src@) is None,
            r matches Some(res) ==> parse_agrees(src@, r_top(src@)->Some_0, res),
    {
        let t = Src::new(src, FileId(0));
        let e = decl(&t, 0);
        let n = t.len();
        match e.step {
            Step::Done(x, k) => if k == n {
                Some(Ok(x))
            } else {
                Some(Err(t.error(umax(e.far, k))))
            },
            Step::Miss => Some(Err(t.error(e.far))),
            Step::Overflow => None,
        }
    }

    /// Parses `src` as one program, white space around it allowed: the
    /// expression, or the syntax error at the furthest position that the
    /// parser reached.
    pub fn parse(&self, src: &str) -> (r: Result<Expr, Vec<SyntaxError>>)
        requires
            r_top(src@) is Some,
        ensures
            parse_agrees(src@, r_top(src@)->Some_0, r),
    {
        self.outcome(src).unwrap()
    }

    /// Parses `src` as [`ProgramParser::parse`] does; `None` where an integer
    /// literal in it does not fit in `i64`.
    pub fn try_parse(&self, src: &str) -> (r: Option<Result<Expr, Vec<SyntaxError>>>)
        ensures
            r is None <==> r_top(src@) is None,
            r matches Some(res) ==> parse_agrees(src@, r_top(src@)->Some_0, res),
    {
        match self.outcome(src) {
            None => None,
            Some(_) => Some(self.parse(src)),
        }
    }
}


/// Law: a sum of two products joined by `+` or `-` is an addition or a
/// subtraction, as the operator written between them says, of the two
/// products: `a - b` is `Sub(a, b)` and `a + b` is `Add(a, b)`.
pub proof fn lemma_sum_follows_operator(s: Seq<char>, i: int, x: SpecExpr, k: int, y: SpecExpr, n: int)
    requires
        0 <= i,
        r_product(s, i).res == Parsed::Done(x, k),
        i < k <= s.len(),
        char_at(s, ws_end(s, k), '+') || char_at(s, ws_end(s, k), '-'),
        r_product(s, ws_end(s, ws_end(s, k) + 1)).res == Parsed::Done(y, n),
        k < n <= s.len(),
        !char_at(s, ws_end(s, n), '+') && !char_at(s, ws_end(s, n), '-'),
    ensures
        r_sum(s, i).res == Parsed::Done(
            if s[ws_end(s, k)] == '-' {
                SpecExpr::Sub(Box::new(x), Box::new(y))
            } else {
                SpecExpr::Add(Box::new(x), Box::new(y))
            },
            n,
        ),
{
    lemma_ws_end(s, k);
}

/// Law: a product of two negations joined by `*` or `/` is a multiplication
/// or a division, as the operator written between them says, of the two:
/// `a / b` is `Div(a, b)` and `a * b` is `Mul(a, b)`.
pub proof fn lemma_product_follows_operator(s: Seq<char>, i: int, x: SpecExpr, k: int, y: SpecExpr, n: int)
    requires
        0 <= i,
        r_unary(s, i).res == Parsed::Done(x, k),
        i < k <= s.len(),
        char_at(s, ws_end(s, k), '*') || char_at(s, ws_end(s, k), '/'),
        r_unary(s, ws_end(s, ws_end(s, k) + 1)).res == Parsed::Done(y, n),
        k < n <= s.len(),
        !char_at(s, ws_end(s, n), '*') && !char_at(s, ws_end(s, n), '/'),
    ensures
        r_product(s, i).res == Parsed::Done(
            if s[ws_end(s, k)] == '/' {
                SpecExpr::Div(Box::new(x), Box::new(y))
            } else {
                SpecExpr::Mul(Box::new(x), Box::new(y))
            },
            n,
        ),
{
    lemma_ws_end(s, k);
}

} // verus!
