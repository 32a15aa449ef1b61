//! A smaller language: literals, variables and parentheses, bound by chains of
//! `let`, each position recorded as a span of the source.
//!
//! The grammar (a parsing expression grammar: the first alternative that
//! succeeds is taken):
//!
//! ```text
//! top  := decl END
//! decl := WS* (let | atom) WS*
//! let  := "let" WS* IDENT WS* '=' atom ';' decl
//! atom := WS* INT '.' INT WS* | WS* INT WS* | WS* IDENT WS* | '(' atom ')'
//! ```
//!
//! The tokens are those of [`crate::grammar`]. A `let` spans from its keyword
//! to the end of the declaration after it, white space included.
use vstd::prelude::*;
use std::ops::Range;
use crate::debug::FileId;
use crate::grammar::{
    at_word, bpos, char_at, digits_value, error_at, ident_scan, int_scan, max, out, ws_end, Outcome, Parsed, Src,
    SyntaxError,
};
use crate::literal::{Decimal, SpecDecimal};

verus! {

/// Where an expression was written: a range of UTF-8 byte offsets.
#[derive(Debug)]
pub struct DebugInfo {
    pub span: Range<usize>,
}

impl DebugInfo {
    pub fn new(span: Range<usize>) -> (r: DebugInfo)
        ensures
            r.span == span,
    {
        DebugInfo { span }
    }
}

#[derive(Debug)]
pub enum Value {
    Integer(i64),
    Double(Decimal),
    Function(Box<Expr>),
    Enum { name: String, value: Box<Value> },
    /// The entries stand for a map from field name to value: a name occurs at most once.
    Struct { name: String, fields: Vec<(String, Box<Value>)> },
}

#[derive(Debug)]
pub enum Expr {
    Value(Value, DebugInfo),
    Var(String, DebugInfo),
    Let { name: String, rhs: Box<Expr>, then: Box<Expr>, debug: DebugInfo },
}

/// The model of a parsed [`Expr`]: the values that the parser produces, and
/// spans as pairs of byte offsets.
pub enum SpecExpr {
    Integer(i64, (usize, usize)),
    Double(SpecDecimal, (usize, usize)),
    Var(Seq<char>, (usize, usize)),
    Let { name: Seq<char>, rhs: Box<SpecExpr>, then: Box<SpecExpr>, span: (usize, usize) },
    /// A value that the parser does not produce.
    Other,
}

pub open spec fn span_of(d: DebugInfo) -> (usize, usize) {
    (d.span.start, d.span.end)
}

impl Expr {
    pub open spec fn view_rec(&self) -> SpecExpr
        decreases self,
    {
        match self {
            Expr::Value(Value::Integer(i), d) => SpecExpr::Integer(*i, span_of(*d)),
            Expr::Value(Value::Double(x), d) => SpecExpr::Double(x@, span_of(*d)),
            Expr::Value(_, _) => SpecExpr::Other,
            Expr::Var(n, d) => SpecExpr::Var(n@, span_of(*d)),
            Expr::Let { name, rhs, then, debug } => SpecExpr::Let {
                name: name@,
                rhs: Box::new((**rhs).view_rec()),
                then: Box::new((**then).view_rec()),
                span: span_of(*debug),
            },
        }
    }
}

impl View for Expr {
    type V = SpecExpr;

    open spec fn view(&self) -> SpecExpr {
        self.view_rec()
    }
}

/// The span of the characters from position `a` up to `b`.
pub open spec fn span(s: Seq<char>, a: int, b: int) -> (usize, usize) {
    (bpos(s, a) as usize, bpos(s, b) as usize)
}

pub open spec fn q_float(s: Seq<char>, i: int) -> Outcome<SpecExpr> {
    let j = ws_end(s, i);
    let (o1, f1) = int_scan(s, j);
    match o1 {
        None => out(Parsed::Miss, f1),
        Some(e1) => if char_at(s, e1, '.') {
            let (o2, f2) = int_scan(s, e1 + 1);
            match o2 {
                None => out(Parsed::Miss, max(f1, f2)),
                Some(e2) => out(
                    Parsed::Done(
                        SpecExpr::Double(
                            SpecDecimal { whole: s.subrange(j, e1), fraction: s.subrange(e1 + 1, e2) },
                            span(s, j, e2),
                        ),
                        ws_end(s, e2),
                    ),
                    max(f1, f2),
                ),
            }
        } else {
            out(Parsed::Miss, max(f1, e1))
        },
    }
}

pub open spec fn q_int(s: Seq<char>, i: int) -> Outcome<SpecExpr> {
    let j = ws_end(s, i);
    let (o, f1) = int_scan(s, j);
    match o {
        None => out(Parsed::Miss, f1),
        Some(e) => if digits_value(s.subrange(j, e)) > i64::MAX {
            out(Parsed::Overflow, f1)
        } else {
            out(Parsed::Done(SpecExpr::Integer(digits_value(s.subrange(j, e)) as i64, span(s, j, e)), ws_end(s, e)), f1)
        },
    }
}

pub open spec fn q_var(s: Seq<char>, i: int) -> Outcome<SpecExpr> {
    let j = ws_end(s, i);
    let (o, f1) = ident_scan(s, j);
    match o {
        None => out(Parsed::Miss, f1),
        Some(e) => out(Parsed::Done(SpecExpr::Var(s.subrange(j, e), span(s, j, e)), ws_end(s, e)), f1),
    }
}

/// A decimal, an integer, a variable or a parenthesised atom (rank 0).
pub open spec fn q_atom(s: Seq<char>, i: int) -> Outcome<SpecExpr>
    decreases s.len() - i, 0nat,
{
    let a = q_float(s, i);
    match a.res {
        Parsed::Miss => {
            let b = q_int(s, i);
            match b.res {
                Parsed::Miss => {
                    let c = q_var(s, i);
                    let fc = max(max(a.far, b.far), c.far);
                    match c.res {
                        Parsed::Miss => if char_at(s, i, '(') {
                            let d = q_atom(s, i + 1);
                            let fd = max(fc, d.far);
                            match d.res {
                                Parsed::Done(x, k) => if char_at(s, k, ')') {
                                    out(Parsed::Done(x, k + 1), fd)
                                } else {
                                    out(Parsed::Miss, max(fd, k))
                                },
                                Parsed::Miss => out(Parsed::Miss, fd),
                                Parsed::Overflow => out(Parsed::Overflow, fd),
                            }
                        } else {
                            out(Parsed::Miss, max(fc, i))
                        },
                        _ => out(c.res, fc),
                    }
                },
                _ => out(b.res, max(a.far, b.far)),
            }
        },
        _ => a,
    }
}

/// `let NAME = atom; decl` (rank 1).
pub open spec fn q_let(s: Seq<char>, i: int) -> Outcome<SpecExpr>
    decreases s.len() - i, 1nat,
{
    let (o, f1) = ident_scan(s, i);
    match o {
        None => out(Parsed::Miss, f1),
        Some(e) => if !at_word(s, i, e, seq!['l', 'e', 't']) {
            out(Parsed::Miss, f1)
        } else {
            let j = ws_end(s, e);
            let (o2, f2) = ident_scan(s, j);
            match o2 {
                None => out(Parsed::Miss, max(f1, f2)),
                Some(e2) => {
                    let k = ws_end(s, e2);
                    if !char_at(s, k, '=') || k < i {
                        out(Parsed::Miss, max(max(f1, f2), k))
                    } else {
                        let r = q_atom(s, k + 1);
                        let fr = max(max(f1, f2), r.far);
                        match r.res {
                            Parsed::Miss => out(Parsed::Miss, fr),
                            Parsed::Overflow => out(Parsed::Overflow, fr),
                            Parsed::Done(rhs, p1) => if !char_at(s, p1, ';') || p1 < i {
                                out(Parsed::Miss, max(fr, p1))
                            } else {
                                let t = q_decl(s, p1 + 1);
                                let ft = max(fr, t.far);
                                match t.res {
                                    Parsed::Miss => out(Parsed::Miss, ft),
                                    Parsed::Overflow => out(Parsed::Overflow, ft),
                                    Parsed::Done(then, p2) => out(
                                        Parsed::Done(
                                            SpecExpr::Let {
                                                name: s.subrange(j, e2),
                                                rhs: Box::new(rhs),
                                                then: Box::new(then),
                                                span: span(s, i, p2),
                                            },
                                            p2,
                                        ),
                                        ft,
                                    ),
                                }
                            },
                        }
                    }
                },
            }
        },
    }
}

/// A `let` or an atom, with white space around it (rank 2).
pub open spec fn q_decl(s: Seq<char>, i: int) -> Outcome<SpecExpr>
    decreases s.len() - i, 2nat,
{
    let j = ws_end(s, i);
    if j < i || j > s.len() {
        out(Parsed::Miss, i)
    } else {
        let a = q_let(s, j);
        match a.res {
            Parsed::Done(x, k) => out(Parsed::Done(x, ws_end(s, k)), a.far),
            Parsed::Overflow => a,
            Parsed::Miss => {
                let b = q_atom(s, j);
                match b.res {
                    Parsed::Done(x, k) => out(Parsed::Done(x, ws_end(s, k)), max(a.far, b.far)),
                    Parsed::Overflow => out(Parsed::Overflow, max(a.far, b.far)),
                    Parsed::Miss => out(Parsed::Miss, max(a.far, b.far)),
                }
            },
        }
    }
}

/// The whole input as one declaration: `Ok` with the expression, `Err` with
/// the furthest position that the parser reached, or `None` when an integer
/// literal does not fit in `i64`.
pub open spec fn q_top(s: Seq<char>) -> Option<Result<SpecExpr, int>> {
    let e = q_decl(s, 0);
    match e.res {
        Parsed::Done(x, k) => if k == s.len() {
            Some(Ok(x))
        } else {
            Some(Err(max(e.far, k)))
        },
        Parsed::Miss => Some(Err(e.far)),
        Parsed::Overflow => None,
    }
}


/// How one parsing function ended.
enum Step {
    Done(Expr, usize),
    Miss,
    Overflow,
}

/// The result of one parsing function, with the furthest position at which it
/// met something that it could not use.
struct Res {
    step: Step,
    far: usize,
}

/// `r` is the outcome `o` of a parse that started at `i` in an input of `n` characters.
spec fn agrees(r: Res, o: Outcome<SpecExpr>, i: int, n: int) -> bool {
    &&& r.far as int == o.far
    &&& r.far <= n
    &&& match r.step {
        Step::Done(x, k) => o.res == Parsed::Done(x@, k as int) && i < k <= n,
        Step::Miss => o.res is Miss,
        Step::Overflow => o.res is Overflow,
    }
}

fn umax(a: usize, b: usize) -> (r: usize)
    ensures
        r as int == max(a as int, b as int),
{
    if a >= b {
        a
    } else {
        b
    }
}

/// The span of the characters from `a` up to `b`.
fn span_at(t: &Src, a: usize, b: usize) -> (r: DebugInfo)
    requires
        t.wf(),
        a <= b <= t.s().len(),
    ensures
        span_of(r) == span(t.s(), a as int, b as int),
{
    DebugInfo { span: Range { start: t.offs[a], end: t.offs[b] } }
}

fn float(t: &Src, i: usize) -> (r: Res)
    requires
        t.wf(),
        i <= t.s().len(),
    ensures
        agrees(r, q_float(t.s(), i as int), i as int, t.s().len() as int),
{
    let j = t.ws_end(i);
    let (o1, f1) = t.int_scan(j);
    match o1 {
        None => Res { step: Step::Miss, far: f1 },
        Some(e1) => if t.is_char(e1, '.') {
            let (o2, f2) = t.int_scan(e1 + 1);
            match o2 {
                None => Res { step: Step::Miss, far: umax(f1, f2) },
                Some(e2) => {
                    let d = Decimal { whole: t.text_of(j, e1), fraction: t.text_of(e1 + 1, e2) };
                    let x = Expr::Value(Value::Double(d), span_at(t, j, e2));
                    let k = t.ws_end(e2);
                    Res { step: Step::Done(x, k), far: umax(f1, f2) }
                },
            }
        } else {
            Res { step: Step::Miss, far: umax(f1, e1) }
        },
    }
}

fn integer(t: &Src, i: usize) -> (r: Res)
    requires
        t.wf(),
        i <= t.s().len(),
    ensures
        agrees(r, q_int(t.s(), i as int), i as int, t.s().len() as int),
{
    let j = t.ws_end(i);
    let (o, f1) = t.int_scan(j);
    match o {
        None => Res { step: Step::Miss, far: f1 },
        Some(e) => match t.digits_value(j, e) {
            None => Res { step: Step::Overflow, far: f1 },
            Some(v) => {
                let x = Expr::Value(Value::Integer(v), span_at(t, j, e));
                let k = t.ws_end(e);
                Res { step: Step::Done(x, k), far: f1 }
            },
        },
    }
}

fn var(t: &Src, i: usize) -> (r: Res)
    requires
        t.wf(),
        i <= t.s().len(),
    ensures
        agrees(r, q_var(t.s(), i as int), i as int, t.s().len() as int),
{
    let j = t.ws_end(i);
    let (o, f1) = t.ident_scan(j);
    match o {
        None => Res { step: Step::Miss, far: f1 },
        Some(e) => {
            let x = Expr::Var(t.text_of(j, e), span_at(t, j, e));
            let k = t.ws_end(e);
            Res { step: Step::Done(x, k), far: f1 }
        },
    }
}

fn atom(t: &Src, i: usize) -> (r: Res)
    requires
        t.wf(),
        i <= t.s().len(),
    ensures
        agrees(r, q_atom(t.s(), i as int), i as int, t.s().len() as int),
    decreases t.s().len() - i, 0nat,
{
    let a = float(t, i);
    match a.step {
        Step::Miss => {
            let b = integer(t, i);
            match b.step {
                Step::Miss => {
                    let c = var(t, i);
                    let fc = umax(umax(a.far, b.far), c.far);
                    match c.step {
                        Step::Miss => if t.is_char(i, '(') {
                            let d = atom(t, i + 1);
                            let fd = umax(fc, d.far);
                            match d.step {
                                Step::Done(x, k) => if t.is_char(k, ')') {
                                    Res { step: Step::Done(x, k + 1), far: fd }
                                } else {
                                    Res { step: Step::Miss, far: umax(fd, k) }
                                },
                                Step::Miss => Res { step: Step::Miss, far: fd },
                                Step::Overflow => Res { step: Step::Overflow, far: fd },
                            }
                        } else {
                            Res { step: Step::Miss, far: umax(fc, i) }
                        },
                        step => Res { step, far: fc },
                    }
                },
                step => Res { step, far: umax(a.far, b.far) },
            }
        },
        _ => a,
    }
}

fn let_in(t: &Src, i: usize) -> (r: Res)
    requires
        t.wf(),
        i <= t.s().len(),
    ensures
        agrees(r, q_let(t.s(), i as int), i as int, t.s().len() as int),
    decreases t.s().len() - i, 1nat,
{
    let (o, f1) = t.ident_scan(i);
    let e = match o {
        None => {
            return Res { step: Step::Miss, far: f1 };
        },
        Some(e) => e,
    };
    if !t.is_let(i, e) {
        return Res { step: Step::Miss, far: f1 };
    }
    let j = t.ws_end(e);
    let (o2, f2) = t.ident_scan(j);
    let e2 = match o2 {
        None => {
            return Res { step: Step::Miss, far: umax(f1, f2) };
        },
        Some(e2) => e2,
    };
    let k = t.ws_end(e2);
    if !t.is_char(k, '=') {
        return Res { step: Step::Miss, far: umax(umax(f1, f2), k) };
    }
    let r = atom(t, k + 1);
    let fr = umax(umax(f1, f2), r.far);
    let (rhs, p1) = match r.step {
        Step::Miss => {
            return Res { step: Step::Miss, far: fr };
        },
        Step::Overflow => {
            return Res { step: Step::Overflow, far: fr };
        },
        Step::Done(rhs, p1) => (rhs, p1),
    };
    if !t.is_char(p1, ';') {
        return Res { step: Step::Miss, far: umax(fr, p1) };
    }
    let d = decl(t, p1 + 1);
    let ft = umax(fr, d.far);
    let (then, p2) = match d.step {
        Step::Miss => {
            return Res { step: Step::Miss, far: ft };
        },
        Step::Overflow => {
            return Res { step: Step::Overflow, far: ft };
        },
        Step::Done(then, p2) => (then, p2),
    };
    let x = Expr::Let { name: t.text_of(j, e2), rhs: Box::new(rhs), then: Box::new(then), debug: span_at(t, i, p2) };
    Res { step: Step::Done(x, p2), far: ft }
}

fn decl(t: &Src, i: usize) -> (r: Res)
    requires
        t.wf(),
        i <= t.s().len(),
    ensures
        agrees(r, q_decl(t.s(), i as int), i as int, t.s().len() as int),
    decreases t.s().len() - i, 2nat,
{
    let j = t.ws_end(i);
    let a = let_in(t, j);
    if let Step::Overflow = a.step {
        return a;
    }
    let far = a.far;
    let a = if let Step::Miss = a.step {
        let b = atom(t, j);
        Res { step: b.step, far: umax(far, b.far) }
    } else {
        a
    };
    match a.step {
        Step::Done(x, k) => {
            let k2 = t.ws_end(k);
            Res { step: Step::Done(x, k2), far: a.far }
        },
        _ => a,
    }
}

/// `r` is what a parse of `s` gives back when [`q_top`] is `t`: the
/// expression, or one syntax error at the furthest position that the parser
/// reached.
pub open spec fn parse_agrees(s: Seq<char>, t: Result<SpecExpr, int>, r: Result<Expr, Vec<SyntaxError>>) -> bool {
    match t {
        Ok(x) => r matches Ok(e) && e@ == x,
        Err(p) => r matches Err(es) && es@.len() == 1 && error_at(s, p, es@[0]),
    }
}

/// The parser of the language's declarations.
pub struct DeclParser;

/// The parser of the language's declarations.
pub fn parser() -> (r: DeclParser) {
    DeclParser
}

impl DeclParser {
    /// The parse of `src`, or `None` where an integer literal does not fit in `i64`.
    fn outcome(&self, src: &str) -> (r: Option<Result<Expr, Vec<SyntaxError>>>)
        ensures
            r is None <==> q_top(src@) is None,
            r matches Some(res) ==> parse_agrees(src@, q_top(src@)->Some_0, res),
    {
        let t = Src::new(src, FileId(0));
        let e = decl(&t, 0);
        let n = t.len();
        match e.step {
            Step::Done(x, k) => if k == n {
                Some(Ok(x))
            } else {
                Some(Err(t.error(umax(e.far, k))))
            },
            Step::Miss => Some(Err(t.error(e.far))),
            Step::Overflow => None,
        }
    }

    /// Parses `src` as one declaration, white space around it allowed: the
    /// expression, or the syntax error at the furthest position that the
    /// parser reached.
    pub fn parse(&self, src: &str) -> (r: Result<Expr, Vec<SyntaxError>>)
        requires
            q_top(src@) is Some,
        ensures
            parse_agrees(src@, q_top(src@)->Some_0, r),
    {
        self.outcome(src).unwrap()
    }

    /// Parses `src` as [`DeclParser::parse`] does; `None` where an integer
    /// literal in it does not fit in `i64`.
    pub fn try_parse(&self, src: &str) -> (r: Option<Result<Expr, Vec<SyntaxError>>>)
        ensures
            r is None <==> q_top(src@) is None,
            r matches Some(res) ==> parse_agrees(src@, q_top(src@)->Some_0, res),
    {
        match self.outcome(src) {
            None => None,
            Some(_) => Some(self.parse(src)),
        }
    }
}

} // verus!
