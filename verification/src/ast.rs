//! The surface syntax: expressions as they are written, with names for variables.
use vstd::prelude::*;
use std::collections::HashMap;
use crate::debug::{DebugContext, DebugInfo, Error, FileId, Site};
use crate::grammar::{found_at, bpos, p_top};
use crate::literal::{Decimal, SpecDecimal};
pub use crate::grammar::{parser, ExprParser, SyntaxError};

verus! {

#[derive(Debug)]
pub enum Value {
    Integer(i64),
    Double(Decimal),
    String(String),
}

/// Expressions of the surface syntax.
///
/// The entries of `Struct` stand for a map from field name to expression: a
/// name occurs at most once.
#[derive(Debug)]
pub enum Expr {
    Value(Value, DebugInfo),
    Var(String, DebugInfo),
    Neg(Box<Expr>, DebugInfo),
    Add(Box<Expr>, Box<Expr>, DebugInfo),
    Sub(Box<Expr>, Box<Expr>, DebugInfo),
    Mul(Box<Expr>, Box<Expr>, DebugInfo),
    Div(Box<Expr>, Box<Expr>, DebugInfo),
    Function { args: Vec<String>, body: Box<Expr> },
    Enum { name: String, value: Box<Expr> },
    Struct { name: String, fields: Vec<(String, Box<Expr>)> },
    Let { name: String, rhs: Box<Expr>, then: Box<Expr>, debug: DebugInfo },
}

/// The model of a [`Value`].
pub enum SpecValue {
    Integer(i64),
    Double(SpecDecimal),
    String(Seq<char>),
}

/// The model of an [`Expr`].
pub enum SpecExpr {
    Value(SpecValue, DebugInfo),
    Var(Seq<char>, DebugInfo),
    Neg(Box<SpecExpr>, DebugInfo),
    Add(Box<SpecExpr>, Box<SpecExpr>, DebugInfo),
    Sub(Box<SpecExpr>, Box<SpecExpr>, DebugInfo),
    Mul(Box<SpecExpr>, Box<SpecExpr>, DebugInfo),
    Div(Box<SpecExpr>, Box<SpecExpr>, DebugInfo),
    Function { args: Seq<Seq<char>>, body: Box<SpecExpr> },
    Enum { name: Seq<char>, value: Box<SpecExpr> },
    Struct { name: Seq<char>, fields: Seq<(Seq<char>, SpecExpr)> },
    Let { name: Seq<char>, rhs: Box<SpecExpr>, then: Box<SpecExpr>, debug: DebugInfo },
}

impl View for Value {
    type V = SpecValue;

    open spec fn view(&self) -> SpecValue {
        match self {
            Value::Integer(i) => SpecValue::Integer(*i),
            Value::Double(d) => SpecValue::Double(d@),
            Value::String(s) => SpecValue::String(s@),
        }
    }
}

pub open spec fn view_names(ns: Seq<String>) -> Seq<Seq<char>> {
    Seq::new(ns.len(), |i: int| ns[i]@)
}

pub open spec fn view_fields(fs: Seq<(String, Box<Expr>)>) -> Seq<(Seq<char>, SpecExpr)>
    decreases fs, 0nat,
{
    Seq::new(
        fs.len(),
        |i: int|
            if 0 <= i < fs.len() {
                (fs[i].0@, (*fs[i].1).view_rec())
            } else {
                (Seq::empty(), SpecExpr::Var(Seq::empty(), arbitrary()))
            },
    )
}

impl Expr {
    pub open spec fn view_rec(&self) -> SpecExpr
        decreases self, 1nat,
    {
        match self {
            Expr::Value(v, d) => SpecExpr::Value(v@, *d),
            Expr::Var(n, d) => SpecExpr::Var(n@, *d),
            Expr::Neg(a, d) => SpecExpr::Neg(Box::new((**a).view_rec()), *d),
            Expr::Add(a, b, d) => SpecExpr::Add(Box::new((**a).view_rec()), Box::new((**b).view_rec()), *d),
            Expr::Sub(a, b, d) => SpecExpr::Sub(Box::new((**a).view_rec()), Box::new((**b).view_rec()), *d),
            Expr::Mul(a, b, d) => SpecExpr::Mul(Box::new((**a).view_rec()), Box::new((**b).view_rec()), *d),
            Expr::Div(a, b, d) => SpecExpr::Div(Box::new((**a).view_rec()), Box::new((**b).view_rec()), *d),
            Expr::Function { args, body } => SpecExpr::Function {
                args: view_names(args@),
                body: Box::new((**body).view_rec()),
            },
            Expr::Enum { name, value } => SpecExpr::Enum { name: name@, value: Box::new((**value).view_rec()) },
            Expr::Struct { name, fields } => SpecExpr::Struct { name: name@, fields: view_fields(fields@) },
            Expr::Let { name, rhs, then, debug } => SpecExpr::Let {
                name: name@,
                rhs: Box::new((**rhs).view_rec()),
                then: Box::new((**then).view_rec()),
                debug: *debug,
            },
        }
    }
}

impl View for Expr {
    type V = SpecExpr;

    open spec fn view(&self) -> SpecExpr {
        self.view_rec()
    }
}


/// The debug info of an expression: its own, or for an expression without one
/// that of its body, value or first field; `None` for a struct without fields.
pub open spec fn debug_of(e: SpecExpr) -> Option<DebugInfo>
    decreases e,
{
    match e {
        SpecExpr::Value(_, d) => Some(d),
        SpecExpr::Var(_, d) => Some(d),
        SpecExpr::Neg(_, d) => Some(d),
        SpecExpr::Add(_, _, d) => Some(d),
        SpecExpr::Sub(_, _, d) => Some(d),
        SpecExpr::Mul(_, _, d) => Some(d),
        SpecExpr::Div(_, _, d) => Some(d),
        SpecExpr::Function { body, .. } => debug_of(*body),
        SpecExpr::Enum { value, .. } => debug_of(*value),
        SpecExpr::Struct { fields, .. } => if fields.len() > 0 {
            debug_of(fields[0].1)
        } else {
            None
        },
        SpecExpr::Let { debug, .. } => Some(debug),
    }
}

impl Expr {
    /// Where this expression came from (see [`debug_of`]).
    pub fn debug_info(&self) -> (r: &DebugInfo)
        requires
            debug_of(self@) is Some,
        ensures
            Some(*r) == debug_of(self@),
        decreases self,
    {
        match self {
            Expr::Value(_, d) => d,
            Expr::Var(_, d) => d,
            Expr::Neg(_, d) => d,
            Expr::Add(_, _, d) => d,
            Expr::Sub(_, _, d) => d,
            Expr::Mul(_, _, d) => d,
            Expr::Div(_, _, d) => d,
            Expr::Function { body, .. } => body.debug_info(),
            Expr::Enum { value, .. } => value.debug_info(),
            Expr::Struct { fields, .. } => {
                assert(view_fields(fields@)[0].1 == (*fields@[0].1)@);
                fields[0].1.debug_info()
            },
            Expr::Let { debug, .. } => debug,
        }
    }
}

/// The model of a [`ParseContext`].
pub struct SpecParseContext {
    /// The text of each file that was read, by file number.
    pub sources: Map<usize, Seq<char>>,
    /// The path of each file, the file with number `i` at index `i`.
    pub paths: Seq<Seq<char>>,
}

/// The source files that were read, and their paths.
pub struct ParseContext {
    files: HashMap<usize, String>,
    dbg: DebugContext,
}

impl View for ParseContext {
    type V = SpecParseContext;

    closed spec fn view(&self) -> SpecParseContext {
        SpecParseContext { sources: self.files@.map_values(|t: String| t@), paths: self.dbg@ }
    }
}

/// The number that the file at `path` gets: its earlier one, or the next.
pub open spec fn file_number(paths: Seq<Seq<char>>, path: Seq<char>) -> int {
    if paths.contains(path) {
        paths.index_of(path)
    } else {
        paths.len() as int
    }
}

/// Whether one more file at `path` can be given a number.
pub open spec fn has_room(paths: Seq<Seq<char>>, path: Seq<char>) -> bool {
    !paths.contains(path) ==> paths.len() < u32::MAX
}

/// The paths after the file at `path` was given its number.
pub open spec fn with_path(paths: Seq<Seq<char>>, path: Seq<char>) -> Seq<Seq<char>> {
    if paths.contains(path) {
        paths
    } else {
        paths.push(path)
    }
}

/// `r` is what [`parse`] returns for a parse outcome `t` of the text `s` of file `f`.
pub open spec fn parse_result(f: FileId, s: Seq<char>, t: Result<SpecExpr, int>, r: Result<Expr, Error>) -> bool {
    match t {
        Ok(x) => r matches Ok(e) && e@ == x,
        Err(p) => r matches Err(Error::Site(es)) && es@.len() == 1 && {
            &&& es@[0].site.file == f
            &&& es@[0].site.span.start == bpos(s, p)
            &&& es@[0].site.span.end == (if p < s.len() { bpos(s, p + 1) } else { bpos(s, p) })
            &&& es@[0].reason@ == found_at(s, p)
        },
    }
}

impl ParseContext {
    /// Paths are told apart: none occurs twice, and there is room for their numbers.
    pub closed spec fn wf(&self) -> bool {
        self.dbg.wf()
    }

    pub fn new() -> (r: Self)
        ensures
            r.wf(),
            r@.sources == Map::<usize, Seq<char>>::empty(),
            r@.paths == Seq::<Seq<char>>::empty(),
    {
        let r = ParseContext { files: HashMap::new(), dbg: DebugContext::new() };
        assert(r@.sources =~= Map::<usize, Seq<char>>::empty());
        r
    }

    /// The text of each file that was read, by file number.
    pub fn files(&self) -> (r: &HashMap<usize, String>)
        ensures
            r@.map_values(|t: String| t@) == self@.sources,
    {
        &self.files
    }

    /// The paths of the files.
    pub fn dbg(&self) -> (r: &DebugContext)
        ensures
            r@ == self@.paths,
            self.wf() ==> r.wf(),
    {
        &self.dbg
    }

    /// Records `contents` as the text of the file at `path`, and gives the file
    /// its number.
    pub fn add_file(&mut self, path: &str, contents: String) -> (r: FileId)
        requires
            old(self).wf(),
            has_room(old(self)@.paths, path@),
        ensures
            final(self).wf(),
            r.0 == file_number(old(self)@.paths, path@),
            r.0 < final(self)@.paths.len(),
            final(self)@.paths[r.0 as int] == path@,
            final(self)@.paths == with_path(old(self)@.paths, path@),
            final(self)@.sources == old(self)@.sources.insert(r.0, contents@),
    {
        let ghost old_paths = self@.paths;
        proof {
            self.dbg.lemma_wf();
        }
        let id = self.dbg.get_file_id(path);
        proof {
            if old_paths.contains(path@) {
                let k = old_paths.index_of(path@);
                assert(old_paths[k] == path@);
                lemma_no_dup_index(old_paths, k, id.0 as int);
            }
        }
        let ghost c = contents@;
        self.files.insert(id.0, contents);
        assert(self@.sources =~= old(self)@.sources.insert(id.0, c));
        id
    }
}

/// In a sequence without duplicates, two indices that hold the same value are equal.
proof fn lemma_no_dup_index<A>(s: Seq<A>, i: int, j: int)
    requires
        s.no_duplicates(),
        0 <= i < s.len(),
        0 <= j < s.len(),
        s[i] == s[j],
    ensures
        i == j,
{
}

/// Parses `contents`, the text of the file at `path`, which is recorded in `ctx`
/// under the file's number: the expression, or the syntax error at the furthest
/// position that the parser reached.
pub fn parse(ctx: &mut ParseContext, path: &str, contents: String) -> (r: Result<Expr, Error>)
    requires
        old(ctx).wf(),
        has_room(old(ctx)@.paths, path@),
        p_top(FileId(file_number(old(ctx)@.paths, path@) as usize), contents@) is Some,
    ensures
        final(ctx).wf(),
        final(ctx)@.paths == with_path(old(ctx)@.paths, path@),
        final(ctx)@.sources == old(ctx)@.sources.insert(file_number(old(ctx)@.paths, path@) as usize, contents@),
        parse_result(
            FileId(file_number(old(ctx)@.paths, path@) as usize),
            contents@,
            p_top(FileId(file_number(old(ctx)@.paths, path@) as usize), contents@)->Some_0,
            r,
        ),
{
    let text = contents.clone();
    let file_id = ctx.add_file(path, contents);
    match parser(file_id).parse(text.as_str()) {
        Ok(e) => Ok(e),
        Err(errors) => Err(Error::from_parse_errors(file_id, errors)),
    }
}

/// Parses as [`parse`] does; `None` where an integer literal in `contents` does
/// not fit in `i64` (the file is recorded either way).
pub fn try_parse(ctx: &mut ParseContext, path: &str, contents: String) -> (r: Option<Result<Expr, Error>>)
    requires
        old(ctx).wf(),
        has_room(old(ctx)@.paths, path@),
    ensures
        final(ctx).wf(),
        final(ctx)@.paths == with_path(old(ctx)@.paths, path@),
        final(ctx)@.sources == old(ctx)@.sources.insert(file_number(old(ctx)@.paths, path@) as usize, contents@),
        r is None <==> p_top(FileId(file_number(old(ctx)@.paths, path@) as usize), contents@) is None,
        r matches Some(res) ==> parse_result(
            FileId(file_number(old(ctx)@.paths, path@) as usize),
            contents@,
            p_top(FileId(file_number(old(ctx)@.paths, path@) as usize), contents@)->Some_0,
            res,
        ),
{
    let text = contents.clone();
    let file_id = ctx.add_file(path, text);
    if parser(file_id).try_parse(contents.as_str()).is_none() {
        return None;
    }
    proof {
        let p1 = ctx@.paths;
        assert(p1[file_id.0 as int] == path@);
        assert(p1.contains(path@));
        ctx.dbg.lemma_wf();
        lemma_no_dup_index(p1, p1.index_of(path@), file_id.0 as int);
    }
    Some(parse(ctx, path, contents))
}


/// Law: the number of a file never changes: recording the same path again
/// keeps the paths as they are and gives the same number, the number leads
/// back to the path, and every other path keeps its number.
pub proof fn lemma_file_number_stable(paths: Seq<Seq<char>>, path: Seq<char>)
    requires
        paths.no_duplicates(),
    ensures
        with_path(with_path(paths, path), path) == with_path(paths, path),
        file_number(with_path(paths, path), path) == file_number(paths, path),
        with_path(paths, path)[file_number(paths, path)] == path,
        forall|q: Seq<char>| q != path && paths.contains(q) ==> #[trigger] file_number(with_path(paths, path), q) == file_number(paths, q),
{
    let p1 = with_path(paths, path);
    let k = file_number(paths, path);
    if paths.contains(path) {
        assert(paths[paths.index_of(path)] == path);
    } else {
        assert(p1[paths.len() as int] == path);
    }
    assert(p1[k] == path);
    assert(p1.contains(path));
    assert(p1.no_duplicates()) by {
        if !paths.contains(path) {
            assert forall|a: int, b: int| 0 <= a < p1.len() && 0 <= b < p1.len() && a != b implies p1[a] != p1[b] by {
                if a == paths.len() {
                    assert(paths[b] == p1[b]);
                } else if b == paths.len() {
                    assert(paths[a] == p1[a]);
                }
            }
        }
    }
    lemma_no_dup_index(p1, p1.index_of(path), k);
    assert forall|q: Seq<char>| q != path && paths.contains(q) implies #[trigger] file_number(p1, q) == file_number(paths, q) by {
        let i = paths.index_of(q);
        assert(paths[i] == q);
        assert(p1[i] == q);
        assert(p1.contains(q));
        lemma_no_dup_index(p1, p1.index_of(q), i);
    }
}

} // verus!
