//! The grammar of the surface syntax, and its parser.
//!
//! The grammar (a parsing expression grammar: the first alternative that
//! succeeds is taken):
//!
//! ```text
//! top     := expr END
//! expr    := WS* (let | sum | product | unary | atom) WS*
//! let     := "let" WS* IDENT WS* '=' expr ';' expr ';'?
//! sum     := product (WS* ('+' | '-') WS* product)*        left-nested
//! product := atom (WS* ('*' | '/') WS* atom)*              left-nested
//! unary   := (WS* '-' WS*)* atom                           right-nested
//! atom    := WS* INT '.' INT WS* | WS* INT WS* | WS* IDENT WS* | '(' expr ')'
//! ```
//!
//! `INT` is `0` or a non-zero digit followed by digits; `IDENT` is an identifier
//! start character followed by identifier characters, and "let" is the keyword
//! only when no identifier character follows it. Spans are UTF-8 byte ranges; a
//! binary operation spans from where its leftmost operand's parse began to where
//! its right operand's parse ended, trailing white space included.
use vstd::prelude::*;
use vstd::string::*;
use vstd::utf8::*;
use std::ops::Range;
use crate::ast::{Expr, SpecExpr, SpecValue, Value};
use crate::debug::{DebugInfo, FileId, Site};
use crate::literal::{Decimal, SpecDecimal};

verus! {

/// Whether the character counts as white space: it has Unicode's White_Space
/// property (what `char::is_whitespace` tests). The bidirectional controls that
/// chumsky rejects on top of that test do not have the property.
pub open spec fn is_ws(c: char) -> bool {
    ||| '\u{9}' <= c <= '\u{d}'
    ||| c == ' '
    ||| c == '\u{85}'
    ||| c == '\u{a0}'
    ||| c == '\u{1680}'
    ||| '\u{2000}' <= c <= '\u{200a}'
    ||| c == '\u{2028}'
    ||| c == '\u{2029}'
    ||| c == '\u{202f}'
    ||| c == '\u{205f}'
    ||| c == '\u{3000}'
}

/// Whether the character can start an identifier (Unicode XID_Start, or `_`).
pub uninterp spec fn is_ident_start(c: char) -> bool;

/// Whether the character can continue an identifier (Unicode XID_Continue).
pub uninterp spec fn is_ident_continue(c: char) -> bool;

/// Whether `c` can start an identifier, as the parser asks it: the answer is
/// [`is_ident_start`], which for ASCII means a letter or `_`.
pub fn can_start_identifier(c: char) -> (r: bool)
    ensures
        r == is_ident_start(c),
        c <= '\u{7f}' ==> (r <==> (is_ascii_letter(c) || c == '_')),
{
    ident_start_char(c)
}

/// Whether `c` can continue an identifier, as the parser asks it: the answer
/// is [`is_ident_continue`], which for ASCII means a letter, a digit or `_`.
pub fn can_continue_identifier(c: char) -> (r: bool)
    ensures
        r == is_ident_continue(c),
        c <= '\u{7f}' ==> (r <==> (is_ascii_letter(c) || ('0' <= c <= '9') || c == '_')),
{
    ident_continue_char(c)
}

/// Whether the character is an ASCII letter.
pub open spec fn is_ascii_letter(c: char) -> bool {
    ('A' <= c <= 'Z') || ('a' <= c <= 'z')
}

/// Calls `chumsky::text::unicode::is_whitespace`, the test that chumsky's
/// `padded` uses: `char::is_whitespace` without nine bidirectional controls,
/// which is the White_Space property, [`is_ws`].
#[verifier::external_body]
fn ws_char(c: char) -> (r: bool)
    ensures
        r == is_ws(c),
{
    chumsky::text::unicode::is_whitespace(c)
}

/// Calls chumsky's `Char::is_ident_start` for `char` (`unicode_ident::is_xid_start`
/// or `_`), the test that `text::ident` uses for the first character. Its
/// result is named [`is_ident_start`]; for ASCII, where `unicode_ident` looks
/// the character up in a fixed table, it is a letter or `_`.
#[verifier::external_body]
fn ident_start_char(c: char) -> (r: bool)
    ensures
        r == is_ident_start(c),
        c <= '\u{7f}' ==> (r <==> (is_ascii_letter(c) || c == '_')),
{
    chumsky::text::Char::is_ident_start(&c)
}

/// Calls chumsky's `Char::is_ident_continue` for `char`
/// (`unicode_ident::is_xid_continue`), the test that `text::ident` uses after
/// the first character. Its result is named [`is_ident_continue`]; for ASCII,
/// where `unicode_ident` looks the character up in a fixed table, it is a
/// letter, a digit or `_`.
#[verifier::external_body]
fn ident_continue_char(c: char) -> (r: bool)
    ensures
        r == is_ident_continue(c),
        c <= '\u{7f}' ==> (r <==> (is_ascii_letter(c) || ('0' <= c <= '9') || c == '_')),
{
    chumsky::text::Char::is_ident_continue(&c)
}

pub open spec fn is_digit(c: char) -> bool {
    '0' <= c <= '9'
}

pub open spec fn is_nonzero_digit(c: char) -> bool {
    '1' <= c <= '9'
}

/// The number that a sequence of decimal digits denotes.
pub open spec fn digits_value(ds: Seq<char>) -> int
    decreases ds.len(),
{
    if ds.len() == 0 {
        0
    } else {
        digits_value(ds.drop_last()) * 10 + (ds.last() as int - '0' as int)
    }
}

/// The number of UTF-8 bytes of the character.
pub open spec fn utf8_width(c: char) -> int {
    if (c as u32) < 0x80 {
        1
    } else if (c as u32) < 0x800 {
        2
    } else if (c as u32) < 0x10000 {
        3
    } else {
        4
    }
}

/// The UTF-8 byte offset of character position `i`.
pub open spec fn bpos(s: Seq<char>, i: int) -> int
    decreases i,
{
    if i <= 0 {
        0
    } else {
        bpos(s, i - 1) + utf8_width(s[i - 1])
    }
}

/// The debug info for the characters from position `a` up to `b`.
pub open spec fn dbg(file: FileId, s: Seq<char>, a: int, b: int) -> DebugInfo {
    DebugInfo { site: Site { file, span: Range { start: bpos(s, a) as usize, end: bpos(s, b) as usize } } }
}

pub open spec fn max(a: int, b: int) -> int {
    if a >= b { a } else { b }
}

/// The position after the white space that starts at `i`.
pub open spec fn ws_end(s: Seq<char>, i: int) -> int
    decreases s.len() - i,
{
    if 0 <= i < s.len() && is_ws(s[i]) {
        ws_end(s, i + 1)
    } else {
        i
    }
}

pub proof fn lemma_ws_end(s: Seq<char>, i: int)
    requires
        0 <= i <= s.len(),
    ensures
        i <= ws_end(s, i) <= s.len(),
    decreases s.len() - i,
{
    if 0 <= i < s.len() && is_ws(s[i]) {
        lemma_ws_end(s, i + 1);
    }
}

pub open spec fn digits_end(s: Seq<char>, i: int) -> int
    decreases s.len() - i,
{
    if 0 <= i < s.len() && is_digit(s[i]) {
        digits_end(s, i + 1)
    } else {
        i
    }
}

pub open spec fn ident_rest(s: Seq<char>, i: int) -> int
    decreases s.len() - i,
{
    if 0 <= i < s.len() && is_ident_continue(s[i]) {
        ident_rest(s, i + 1)
    } else {
        i
    }
}

pub open spec fn char_at(s: Seq<char>, i: int, c: char) -> bool {
    0 <= i < s.len() && s[i] == c
}

/// An integer token at `j`: its end, if there is one, and the position where
/// the scan stopped.
pub open spec fn int_scan(s: Seq<char>, j: int) -> (Option<int>, int) {
    if char_at(s, j, '0') {
        (Some(j + 1), j)
    } else if 0 <= j < s.len() && is_nonzero_digit(s[j]) {
        let e = digits_end(s, j + 1);
        (Some(e), e)
    } else {
        (None, j)
    }
}

/// An identifier token at `j`: its end, if there is one, and the position where
/// the scan stopped.
pub open spec fn ident_scan(s: Seq<char>, j: int) -> (Option<int>, int) {
    if 0 <= j < s.len() && is_ident_start(s[j]) {
        let e = ident_rest(s, j + 1);
        (Some(e), e)
    } else {
        (None, j)
    }
}

/// How a parse ends: with a result and the position after it, with no match, or
/// on an integer literal too large for `i64` (where the parse stops at once).
pub enum Parsed<T> {
    Done(T, int),
    Miss,
    Overflow,
}

/// A parse result with the furthest position at which the parser met a
/// character (or the end) that it could not use.
pub struct Outcome<T> {
    pub res: Parsed<T>,
    pub far: int,
}

pub open spec fn out<T>(res: Parsed<T>, far: int) -> Outcome<T> {
    Outcome { res, far }
}

pub open spec fn p_float(f: FileId, s: Seq<char>, i: int) -> Outcome<SpecExpr> {
    let j = ws_end(s, i);
    let (o1, f1) = int_scan(s, j);
    match o1 {
        None => out(Parsed::Miss, f1),
        Some(e1) => if char_at(s, e1, '.') {
            let (o2, f2) = int_scan(s, e1 + 1);
            match o2 {
                None => out(Parsed::Miss, max(f1, f2)),
                Some(e2) => out(
                    Parsed::Done(
                        SpecExpr::Value(
                            SpecValue::Double(SpecDecimal { whole: s.subrange(j, e1), fraction: s.subrange(e1 + 1, e2) }),
                            dbg(f, s, j, e2),
                        ),
                        ws_end(s, e2),
                    ),
                    max(f1, f2),
                ),
            }
        } else {
            out(Parsed::Miss, max(f1, e1))
        },
    }
}

pub open spec fn p_int(f: FileId, s: Seq<char>, i: int) -> Outcome<SpecExpr> {
    let j = ws_end(s, i);
    let (o, f1) = int_scan(s, j);
    match o {
        None => out(Parsed::Miss, f1),
        Some(e) => if digits_value(s.subrange(j, e)) > i64::MAX {
            out(Parsed::Overflow, f1)
        } else {
            out(
                Parsed::Done(
                    SpecExpr::Value(SpecValue::Integer(digits_value(s.subrange(j, e)) as i64), dbg(f, s, j, e)),
                    ws_end(s, e),
                ),
                f1,
            )
        },
    }
}

pub open spec fn p_var(f: FileId, s: Seq<char>, i: int) -> Outcome<SpecExpr> {
    let j = ws_end(s, i);
    let (o, f1) = ident_scan(s, j);
    match o {
        None => out(Parsed::Miss, f1),
        Some(e) => out(Parsed::Done(SpecExpr::Var(s.subrange(j, e), dbg(f, s, j, e)), ws_end(s, e)), f1),
    }
}

/// The `-` operators at `i`: where each one's parse began, where they end, and
/// where the scan stopped.
pub open spec fn neg_ops(s: Seq<char>, i: int) -> (Seq<int>, int, int)
    decreases s.len() - i,
{
    let j = ws_end(s, i);
    if char_at(s, j, '-') && i <= j {
        proof {
            lemma_ws_end(s, j + 1);
        }
        let (st, e, fr) = neg_ops(s, ws_end(s, j + 1));
        (seq![i] + st, e, fr)
    } else {
        (Seq::empty(), i, j)
    }
}

pub proof fn lemma_neg_ops(s: Seq<char>, i: int)
    requires
        0 <= i <= s.len(),
    ensures
        i <= neg_ops(s, i).1 <= s.len(),
    decreases s.len() - i,
{
    let j = ws_end(s, i);
    lemma_ws_end(s, i);
    if char_at(s, j, '-') && i <= j {
        lemma_ws_end(s, j + 1);
        lemma_neg_ops(s, ws_end(s, j + 1));
    }
}

/// The negations started at `starts`, outermost first, around `x`, all ending at `k`.
pub open spec fn fold_neg(f: FileId, s: Seq<char>, starts: Seq<int>, x: SpecExpr, k: int) -> SpecExpr
    decreases starts.len(),
{
    if starts.len() == 0 {
        x
    } else {
        SpecExpr::Neg(Box::new(fold_neg(f, s, starts.drop_first(), x, k)), dbg(f, s, starts[0], k))
    }
}

pub open spec fn sum_node(op: char, a: SpecExpr, b: SpecExpr, d: DebugInfo) -> SpecExpr {
    if op == '+' {
        SpecExpr::Add(Box::new(a), Box::new(b), d)
    } else {
        SpecExpr::Sub(Box::new(a), Box::new(b), d)
    }
}

pub open spec fn product_node(op: char, a: SpecExpr, b: SpecExpr, d: DebugInfo) -> SpecExpr {
    if op == '*' {
        SpecExpr::Mul(Box::new(a), Box::new(b), d)
    } else {
        SpecExpr::Div(Box::new(a), Box::new(b), d)
    }
}

/// Whether `s` from `i` on starts with the characters of `w`.
pub open spec fn at_word(s: Seq<char>, i: int, e: int, w: Seq<char>) -> bool {
    0 <= i <= e <= s.len() && s.subrange(i, e) == w
}

/// The expression at `i` (rank 7); see the module documentation for the grammar.
pub open spec fn p_expr(f: FileId, s: Seq<char>, i: int) -> Outcome<SpecExpr>
    decreases s.len() - i, 7nat,
{
    let j = ws_end(s, i);
    if j < i || j > s.len() {
        out(Parsed::Miss, i)
    } else {
        let a = p_let(f, s, j);
        match a.res {
            Parsed::Done(x, k) => out(Parsed::Done(x, ws_end(s, k)), a.far),
            Parsed::Overflow => a,
            Parsed::Miss => {
                let b = p_sum(f, s, j);
                match b.res {
                    Parsed::Done(x, k) => out(Parsed::Done(x, ws_end(s, k)), max(a.far, b.far)),
                    Parsed::Overflow => out(Parsed::Overflow, max(a.far, b.far)),
                    Parsed::Miss => {
                        let c = p_product(f, s, j);
                        match c.res {
                            Parsed::Done(x, k) => out(Parsed::Done(x, ws_end(s, k)), max(max(a.far, b.far), c.far)),
                            Parsed::Overflow => out(Parsed::Overflow, max(max(a.far, b.far), c.far)),
                            Parsed::Miss => {
                                let d = p_unary(f, s, j);
                                let fd = max(max(max(a.far, b.far), c.far), d.far);
                                match d.res {
                                    Parsed::Done(x, k) => out(Parsed::Done(x, ws_end(s, k)), fd),
                                    Parsed::Overflow => out(Parsed::Overflow, fd),
                                    Parsed::Miss => {
                                        let e = p_atom(f, s, j);
                                        match e.res {
                                            Parsed::Done(x, k) => out(Parsed::Done(x, ws_end(s, k)), max(fd, e.far)),
                                            Parsed::Overflow => out(Parsed::Overflow, max(fd, e.far)),
                                            Parsed::Miss => out(Parsed::Miss, max(fd, e.far)),
                                        }
                                    },
                                }
                            },
                        }
                    },
                }
            },
        }
    }
}

/// `let NAME = expr; expr` with an optional `;` at the end (rank 6).
pub open spec fn p_let(f: FileId, s: Seq<char>, i: int) -> Outcome<SpecExpr>
    decreases s.len() - i, 6nat,
{
    let (o, f1) = ident_scan(s, i);
    match o {
        None => out(Parsed::Miss, f1),
        Some(e) => if !at_word(s, i, e, seq!['l', 'e', 't']) {
            out(Parsed::Miss, f1)
        } else {
            let j = ws_end(s, e);
            let (o2, f2) = ident_scan(s, j);
            match o2 {
                None => out(Parsed::Miss, max(f1, f2)),
                Some(e2) => {
                    let k = ws_end(s, e2);
                    if !char_at(s, k, '=') || k < i {
                        out(Parsed::Miss, max(max(f1, f2), k))
                    } else {
                        let r = p_expr(f, s, k + 1);
                        let fr = max(max(f1, f2), r.far);
                        match r.res {
                            Parsed::Miss => out(Parsed::Miss, fr),
                            Parsed::Overflow => out(Parsed::Overflow, fr),
                            Parsed::Done(rhs, p1) => if !char_at(s, p1, ';') || p1 < i {
                                out(Parsed::Miss, max(fr, p1))
                            } else {
                                let t = p_expr(f, s, p1 + 1);
                                let ft = max(fr, t.far);
                                match t.res {
                                    Parsed::Miss => out(Parsed::Miss, ft),
                                    Parsed::Overflow => out(Parsed::Overflow, ft),
                                    Parsed::Done(then, p2) => {
                                        let end = if char_at(s, p2, ';') { p2 + 1 } else { p2 };
                                        let fe = if char_at(s, p2, ';') { ft } else { max(ft, p2) };
                                        out(
                                            Parsed::Done(
                                                SpecExpr::Let {
                                                    name: s.subrange(j, e2),
                                                    rhs: Box::new(rhs),
                                                    then: Box::new(then),
                                                    debug: dbg(f, s, i, end),
                                                },
                                                end,
                                            ),
                                            fe,
                                        )
                                    },
                                }
                            },
                        }
                    }
                },
            }
        },
    }
}

/// A product followed by any number of `+`/`-` products, nested to the left (rank 5).
pub open spec fn p_sum(f: FileId, s: Seq<char>, i: int) -> Outcome<SpecExpr>
    decreases s.len() - i, 5nat,
{
    let a = p_product(f, s, i);
    match a.res {
        Parsed::Done(x, k) => if k <= i || k > s.len() {
            out(Parsed::Miss, a.far)
        } else {
            p_sum_tail(f, s, i, x, k, a.far)
        },
        _ => a,
    }
}

/// The rest of a sum that began at `start`: `lhs` ends at `pos` (rank 0).
pub open spec fn p_sum_tail(f: FileId, s: Seq<char>, start: int, lhs: SpecExpr, pos: int, far: int) -> Outcome<SpecExpr>
    decreases s.len() - pos, 0nat,
{
    let j = ws_end(s, pos);
    if (char_at(s, j, '+') || char_at(s, j, '-')) && pos <= j {
        proof {
            lemma_ws_end(s, j + 1);
        }
        let b = p_product(f, s, ws_end(s, j + 1));
        match b.res {
            Parsed::Done(y, k) => if k <= pos || k > s.len() {
                out(Parsed::Miss, max(far, b.far))
            } else {
                p_sum_tail(f, s, start, sum_node(s[j], lhs, y, dbg(f, s, start, k)), k, max(far, b.far))
            },
            Parsed::Miss => out(Parsed::Done(lhs, pos), max(far, b.far)),
            Parsed::Overflow => out(Parsed::Overflow, max(far, b.far)),
        }
    } else {
        out(Parsed::Done(lhs, pos), max(far, j))
    }
}

/// An atom followed by any number of `*`/`/` atoms, nested to the left (rank 4).
pub open spec fn p_product(f: FileId, s: Seq<char>, i: int) -> Outcome<SpecExpr>
    decreases s.len() - i, 4nat,
{
    let a = p_atom(f, s, i);
    match a.res {
        Parsed::Done(x, k) => if k <= i || k > s.len() {
            out(Parsed::Miss, a.far)
        } else {
            p_product_tail(f, s, i, x, k, a.far)
        },
        _ => a,
    }
}

/// The rest of a product that began at `start`: `lhs` ends at `pos` (rank 0).
pub open spec fn p_product_tail(f: FileId, s: Seq<char>, start: int, lhs: SpecExpr, pos: int, far: int) -> Outcome<SpecExpr>
    decreases s.len() - pos, 0nat,
{
    let j = ws_end(s, pos);
    if (char_at(s, j, '*') || char_at(s, j, '/')) && pos <= j {
        proof {
            lemma_ws_end(s, j + 1);
        }
        let b = p_atom(f, s, ws_end(s, j + 1));
        match b.res {
            Parsed::Done(y, k) => if k <= pos || k > s.len() {
                out(Parsed::Miss, max(far, b.far))
            } else {
                p_product_tail(f, s, start, product_node(s[j], lhs, y, dbg(f, s, start, k)), k, max(far, b.far))
            },
            Parsed::Miss => out(Parsed::Done(lhs, pos), max(far, b.far)),
            Parsed::Overflow => out(Parsed::Overflow, max(far, b.far)),
        }
    } else {
        out(Parsed::Done(lhs, pos), max(far, j))
    }
}

/// Any number of `-` followed by an atom (rank 3).
pub open spec fn p_unary(f: FileId, s: Seq<char>, i: int) -> Outcome<SpecExpr>
    decreases s.len() - i, 3nat,
{
    let (starts, e, fo) = neg_ops(s, i);
    if e < i || e > s.len() {
        out(Parsed::Miss, fo)
    } else {
        let a = p_atom(f, s, e);
        match a.res {
            Parsed::Done(x, k) => out(Parsed::Done(fold_neg(f, s, starts, x, k), k), max(fo, a.far)),
            Parsed::Miss => out(Parsed::Miss, max(fo, a.far)),
            Parsed::Overflow => out(Parsed::Overflow, max(fo, a.far)),
        }
    }
}

/// A decimal, an integer, a variable or a parenthesised expression (rank 2).
pub open spec fn p_atom(f: FileId, s: Seq<char>, i: int) -> Outcome<SpecExpr>
    decreases s.len() - i, 2nat,
{
    let a = p_float(f, s, i);
    match a.res {
        Parsed::Miss => {
            let b = p_int(f, s, i);
            match b.res {
                Parsed::Miss => {
                    let c = p_var(f, s, i);
                    let fc = max(max(a.far, b.far), c.far);
                    match c.res {
                        Parsed::Miss => if char_at(s, i, '(') {
                            let d = p_expr(f, s, i + 1);
                            let fd = max(fc, d.far);
                            match d.res {
                                Parsed::Done(x, k) => if char_at(s, k, ')') {
                                    out(Parsed::Done(x, k + 1), fd)
                                } else {
                                    out(Parsed::Miss, max(fd, k))
                                },
                                Parsed::Miss => out(Parsed::Miss, fd),
                                Parsed::Overflow => out(Parsed::Overflow, fd),
                            }
                        } else {
                            out(Parsed::Miss, max(fc, i))
                        },
                        _ => out(c.res, fc),
                    }
                },
                _ => out(b.res, max(a.far, b.far)),
            }
        },
        _ => a,
    }
}

/// The whole input as one expression: `Ok` with the expression, `Err` with the
/// furthest position that the parser reached, or `None` when an integer literal
/// does not fit in `i64`.
pub open spec fn p_top(f: FileId, s: Seq<char>) -> Option<Result<SpecExpr, int>> {
    let e = p_expr(f, s, 0);
    match e.res {
        Parsed::Done(x, k) => if k == s.len() {
            Some(Ok(x))
        } else {
            Some(Err(max(e.far, k)))
        },
        Parsed::Miss => Some(Err(e.far)),
        Parsed::Overflow => None,
    }
}


/// The UTF-8 width of a character, as `char::len_utf8` documents it.
fn width_of(c: char) -> (r: usize)
    ensures
        r == utf8_width(c),
{
    let u = c as u32;
    if u < 0x80 {
        1
    } else if u < 0x800 {
        2
    } else if u < 0x10000 {
        3
    } else {
        4
    }
}

pub proof fn lemma_encode_utf8_append(a: Seq<char>, b: Seq<char>)
    ensures
        encode_utf8(a + b) == encode_utf8(a) + encode_utf8(b),
    decreases a.len(),
{
    if a.len() == 0 {
        assert(a + b =~= b);
        assert(encode_utf8(a) + encode_utf8(b) =~= encode_utf8(b));
    } else {
        assert((a + b).drop_first() =~= a.drop_first() + b);
        assert((a + b)[0] == a[0]);
        lemma_encode_utf8_append(a.drop_first(), b);
        assert(encode_utf8(a + b) =~= encode_utf8(a) + encode_utf8(b));
    }
}

pub proof fn lemma_encode_char_len(c: char)
    ensures
        encode_utf8(seq![c]).len() == utf8_width(c),
{
    broadcast use char_is_scalar;
    let e = Seq::<char>::empty();
    assert(seq![c].drop_first() =~= e);
    assert(encode_utf8(e) =~= Seq::<u8>::empty());
    assert(seq![c][0] == c);
    assert(encode_utf8(seq![c]) == encode_scalar(c as u32) + encode_utf8(e));
    assert(is_scalar(c as u32));
    assert(encode_scalar(c as u32).len() == utf8_width(c));
}

/// The byte offset of a position is the length of the UTF-8 encoding before it.
pub proof fn lemma_bpos_encode(s: Seq<char>, i: int)
    requires
        0 <= i <= s.len(),
    ensures
        bpos(s, i) == encode_utf8(s.take(i)).len(),
    decreases i,
{
    if i == 0 {
        assert(s.take(0) =~= Seq::<char>::empty());
    } else {
        lemma_bpos_encode(s, i - 1);
        assert(s.take(i) =~= s.take(i - 1) + seq![s[i - 1]]);
        lemma_encode_utf8_append(s.take(i - 1), seq![s[i - 1]]);
        lemma_encode_char_len(s[i - 1]);
    }
}

pub proof fn lemma_bpos_mono(s: Seq<char>, i: int, j: int)
    requires
        0 <= i <= j,
    ensures
        bpos(s, i) <= bpos(s, j),
    decreases j,
{
    if i < j {
        lemma_bpos_mono(s, i, j - 1);
    }
}

/// A syntax error: where it was found and what was found there.
///
/// The reason names only what was found (`found 'c'` or `found end of
/// input`). The set of what was expected there, which chumsky's own errors
/// add, is not given: it comes from how chumsky merges the errors of the
/// alternatives it tried. A failed parse reports this one error, at the
/// furthest position that the parser reached.
#[derive(Debug)]
pub struct SyntaxError {
    pub span: Range<usize>,
    pub reason: String,
}

/// An integer literal in the input does not fit in `i64`.
#[derive(Debug)]
pub struct LiteralOverflow;

/// The input, as characters, with the byte offset of every position.
pub(crate) struct Src<'a> {
    pub(crate) text: &'a str,
    pub(crate) chars: Vec<char>,
    pub(crate) offs: Vec<usize>,
    pub(crate) file: FileId,
}

impl<'a> Src<'a> {
    pub(crate) open spec fn s(&self) -> Seq<char> {
        self.chars@
    }

    pub(crate) open spec fn wf(&self) -> bool {
        &&& self.chars@ == self.text@
        &&& self.chars@.len() < usize::MAX
        &&& self.offs@.len() == self.chars@.len() + 1
        &&& forall|i: int| 0 <= i <= self.chars@.len() ==> #[trigger] self.offs@[i] == bpos(self.chars@, i)
    }

    pub(crate) fn new(text: &'a str, file: FileId) -> (r: Src<'a>)
        ensures
            r.wf(),
            r.text == text,
            r.file == file,
    {
        let n = text.unicode_len();
        let total = text.as_bytes().len();
        let mut chars: Vec<char> = Vec::new();
        let mut offs: Vec<usize> = Vec::new();
        offs.push(0);
        let mut i: usize = 0;
        proof {
            lemma_bpos_encode(text@, text@.len() as int);
            assert(text@.take(text@.len() as int) =~= text@);
        }
        while i < n
            invariant
                i <= n,
                n == text@.len(),
                total as int == bpos(text@, n as int),
                chars@ == text@.take(i as int),
                offs@.len() == i + 1,
                forall|k: int| 0 <= k <= i ==> #[trigger] offs@[k] == bpos(text@, k),
            decreases n - i,
        {
            let c = text.get_char(i);
            let w = width_of(c);
            proof {
                lemma_bpos_mono(text@, i + 1, n as int);
            }
            let o = offs[i] + w;
            chars.push(c);
            offs.push(o);
            i = i + 1;
            assert(chars@ =~= text@.take(i as int));
        }
        assert(chars@ =~= text@);
        let m = offs.len();
        assert(m == n + 1);
        let r = Src { text, chars, offs, file };
        assert forall|k: int| 0 <= k <= r.chars@.len() implies #[trigger] r.offs@[k] == bpos(r.chars@, k) by {
            assert(r.chars@ == text@);
        }
        r
    }

    pub(crate) fn len(&self) -> (r: usize)
        requires
            self.wf(),
        ensures
            r == self.s().len(),
    {
        self.chars.len()
    }

    pub(crate) fn is_char(&self, i: usize, c: char) -> (r: bool)
        ensures
            r == char_at(self.s(), i as int, c),
    {
        i < self.chars.len() && self.chars[i] == c
    }

    pub(crate) fn ws_end(&self, i: usize) -> (r: usize)
        requires
            self.wf(),
            i <= self.s().len(),
        ensures
            r == ws_end(self.s(), i as int),
            i <= r <= self.s().len(),
    {
        let mut j = i;
        proof {
            lemma_ws_end(self.s(), i as int);
        }
        while j < self.chars.len() && ws_char(self.chars[j])
            invariant
                i <= j <= self.s().len(),
                ws_end(self.s(), i as int) == ws_end(self.s(), j as int),
            decreases self.s().len() - j,
        {
            j = j + 1;
        }
        j
    }

    fn digits_end(&self, i: usize) -> (r: usize)
        requires
            self.wf(),
            i <= self.s().len(),
        ensures
            r == digits_end(self.s(), i as int),
            i <= r <= self.s().len(),
            forall|k: int| i <= k < r ==> is_digit(#[trigger] self.s()[k]),
    {
        let mut j = i;
        while j < self.chars.len() && '0' <= self.chars[j] && self.chars[j] <= '9'
            invariant
                i <= j <= self.s().len(),
                digits_end(self.s(), i as int) == digits_end(self.s(), j as int),
                forall|k: int| i <= k < j ==> is_digit(#[trigger] self.s()[k]),
            decreases self.s().len() - j,
        {
            j = j + 1;
        }
        j
    }

    fn ident_rest(&self, i: usize) -> (r: usize)
        requires
            self.wf(),
            i <= self.s().len(),
        ensures
            r == ident_rest(self.s(), i as int),
            i <= r <= self.s().len(),
    {
        let mut j = i;
        while j < self.chars.len() && ident_continue_char(self.chars[j])
            invariant
                i <= j <= self.s().len(),
                ident_rest(self.s(), i as int) == ident_rest(self.s(), j as int),
            decreases self.s().len() - j,
        {
            j = j + 1;
        }
        j
    }

    pub(crate) fn int_scan(&self, j: usize) -> (r: (Option<usize>, usize))
        requires
            self.wf(),
            j <= self.s().len(),
        ensures
            r.1 as int == int_scan(self.s(), j as int).1,
            r.1 <= self.s().len(),
            match r.0 {
                Some(e) => {
                    &&& int_scan(self.s(), j as int).0 == Some(e as int)
                    &&& j < e <= self.s().len()
                    &&& forall|k: int| j <= k < e ==> is_digit(#[trigger] self.s()[k])
                },
                None => int_scan(self.s(), j as int).0 is None,
            },
    {
        if j < self.chars.len() && self.chars[j] == '0' {
            (Some(j + 1), j)
        } else if j < self.chars.len() && '1' <= self.chars[j] && self.chars[j] <= '9' {
            let e = self.digits_end(j + 1);
            (Some(e), e)
        } else {
            (None, j)
        }
    }

    pub(crate) fn ident_scan(&self, j: usize) -> (r: (Option<usize>, usize))
        requires
            self.wf(),
            j <= self.s().len(),
        ensures
            r.1 as int == ident_scan(self.s(), j as int).1,
            r.1 <= self.s().len(),
            match r.0 {
                Some(e) => ident_scan(self.s(), j as int).0 == Some(e as int) && j < e <= self.s().len(),
                None => ident_scan(self.s(), j as int).0 is None,
            },
    {
        if j < self.chars.len() && ident_start_char(self.chars[j]) {
            let e = self.ident_rest(j + 1);
            (Some(e), e)
        } else {
            (None, j)
        }
    }

    fn dbg(&self, a: usize, b: usize) -> (r: DebugInfo)
        requires
            self.wf(),
            a <= b <= self.s().len(),
        ensures
            r == dbg(self.file, self.s(), a as int, b as int),
    {
        DebugInfo { site: Site { file: self.file, span: Range { start: self.offs[a], end: self.offs[b] } } }
    }

    pub(crate) fn text_of(&self, a: usize, b: usize) -> (r: String)
        requires
            self.wf(),
            a <= b <= self.s().len(),
        ensures
            r@ == self.s().subrange(a as int, b as int),
    {
        self.text.substring_char(a, b).to_owned()
    }

    /// The value of the digits from `a` up to `b`, unless it exceeds `i64::MAX`.
    pub(crate) fn digits_value(&self, a: usize, b: usize) -> (r: Option<i64>)
        requires
            self.wf(),
            a <= b <= self.s().len(),
            forall|k: int| a <= k < b ==> is_digit(#[trigger] self.s()[k]),
        ensures
            match r {
                Some(v) => v as int == digits_value(self.s().subrange(a as int, b as int)),
                None => digits_value(self.s().subrange(a as int, b as int)) > i64::MAX,
            },
    {
        let mut v: i64 = 0;
        let mut k = a;
        assert(self.s().subrange(a as int, a as int) =~= Seq::<char>::empty());
        while k < b
            invariant
                a <= k <= b <= self.s().len(),
                forall|m: int| a <= m < b ==> is_digit(#[trigger] self.s()[m]),
                0 <= v,
                v as int == digits_value(self.s().subrange(a as int, k as int)),
            decreases b - k,
        {
            let d = (self.chars[k] as u32 - '0' as u32) as i64;
            assert(self.s().subrange(a as int, k + 1).drop_last() =~= self.s().subrange(a as int, k as int));
            assert(self.s().subrange(a as int, k + 1).last() == self.s()[k as int]);
            if v > (i64::MAX - d) / 10 {
                proof {
                    assert(v * 10 + d > i64::MAX) by (nonlinear_arith)
                        requires
                            v > (i64::MAX - d) / 10,
                            0 <= d <= 9,
                    ;
                    lemma_digits_value_grows(self.s(), a as int, k + 1, b as int);
                }
                return None;
            }
            assert(v * 10 + d <= i64::MAX) by (nonlinear_arith)
                requires
                    v <= (i64::MAX - d) / 10,
                    0 <= d <= 9,
                    0 <= v,
            ;
            v = v * 10 + d;
            k = k + 1;
        }
        Some(v)
    }
}

/// A longer run of digits never denotes a smaller number.
pub proof fn lemma_digits_value_grows(s: Seq<char>, a: int, p: int, q: int)
    requires
        0 <= a <= p <= q <= s.len(),
        forall|k: int| a <= k < q ==> is_digit(#[trigger] s[k]),
    ensures
        digits_value(s.subrange(a, p)) <= digits_value(s.subrange(a, q)),
    decreases q - p,
{
    if p < q {
        lemma_digits_value_grows(s, a, p, q - 1);
        assert(s.subrange(a, q).drop_last() =~= s.subrange(a, q - 1));
        lemma_digits_value_nonneg(s.subrange(a, q - 1));
        assert(is_digit(s[q - 1]));
    }
}

pub proof fn lemma_digits_value_nonneg(ds: Seq<char>)
    requires
        forall|k: int| 0 <= k < ds.len() ==> is_digit(#[trigger] ds[k]),
    ensures
        digits_value(ds) >= 0,
    decreases ds.len(),
{
    if ds.len() > 0 {
        assert forall|k: int| 0 <= k < ds.drop_last().len() implies is_digit(#[trigger] ds.drop_last()[k]) by {
            assert(ds.drop_last()[k] == ds[k]);
        }
        lemma_digits_value_nonneg(ds.drop_last());
        assert(is_digit(ds.last()));
    }
}


/// How one parsing function ended: with a result and the position after it,
/// with no match, or on an integer literal too large for `i64`.
enum Step {
    Done(Expr, usize),
    Miss,
    Overflow,
}

/// The result of one parsing function, with the furthest position at which it
/// met something that it could not use.
struct Res {
    step: Step,
    far: usize,
}

/// `r` is the outcome `o` of a parse that started at `i` in an input of `n`
/// characters.
spec fn agrees(r: Res, o: Outcome<SpecExpr>, i: int, n: int) -> bool {
    &&& r.far as int == o.far
    &&& r.far <= n
    &&& match r.step {
        Step::Done(x, k) => o.res == Parsed::Done(x@, k as int) && i < k <= n,
        Step::Miss => o.res is Miss,
        Step::Overflow => o.res is Overflow,
    }
}

fn umax(a: usize, b: usize) -> (r: usize)
    ensures
        r as int == max(a as int, b as int),
{
    if a >= b {
        a
    } else {
        b
    }
}

impl<'a> Src<'a> {
    /// Whether the characters from `i` up to `e` are the keyword `let`.
    pub(crate) fn is_let(&self, i: usize, e: usize) -> (r: bool)
        requires
            self.wf(),
            i <= e <= self.s().len(),
        ensures
            r == at_word(self.s(), i as int, e as int, seq!['l', 'e', 't']),
    {
        if e - i == 3 && self.chars[i] == 'l' && self.chars[i + 1] == 'e' && self.chars[i + 2] == 't' {
            assert(self.s().subrange(i as int, e as int) =~= seq!['l', 'e', 't']);
            true
        } else {
            proof {
                let w = self.s().subrange(i as int, e as int);
                if w == seq!['l', 'e', 't'] {
                    assert(w.len() == 3);
                    assert(w[0] == 'l' && w[1] == 'e' && w[2] == 't');
                    assert(self.s()[i as int] == w[0]);
                    assert(self.s()[i + 1] == w[1]);
                    assert(self.s()[i + 2] == w[2]);
                }
            }
            false
        }
    }

    fn float(&self, i: usize) -> (r: Res)
        requires
            self.wf(),
            i <= self.s().len(),
        ensures
            agrees(r, p_float(self.file, self.s(), i as int), i as int, self.s().len() as int),
    {
        let j = self.ws_end(i);
        let (o1, f1) = self.int_scan(j);
        match o1 {
            None => Res { step: Step::Miss, far: f1 },
            Some(e1) => if self.is_char(e1, '.') {
                let (o2, f2) = self.int_scan(e1 + 1);
                match o2 {
                    None => Res { step: Step::Miss, far: umax(f1, f2) },
                    Some(e2) => {
                        let d = Decimal { whole: self.text_of(j, e1), fraction: self.text_of(e1 + 1, e2) };
                        let x = Expr::Value(Value::Double(d), self.dbg(j, e2));
                        let k = self.ws_end(e2);
                        Res { step: Step::Done(x, k), far: umax(f1, f2) }
                    },
                }
            } else {
                Res { step: Step::Miss, far: umax(f1, e1) }
            },
        }
    }

    fn integer(&self, i: usize) -> (r: Res)
        requires
            self.wf(),
            i <= self.s().len(),
        ensures
            agrees(r, p_int(self.file, self.s(), i as int), i as int, self.s().len() as int),
    {
        let j = self.ws_end(i);
        let (o, f1) = self.int_scan(j);
        match o {
            None => Res { step: Step::Miss, far: f1 },
            Some(e) => match self.digits_value(j, e) {
                None => Res { step: Step::Overflow, far: f1 },
                Some(v) => {
                    let x = Expr::Value(Value::Integer(v), self.dbg(j, e));
                    let k = self.ws_end(e);
                    Res { step: Step::Done(x, k), far: f1 }
                },
            },
        }
    }

    fn var(&self, i: usize) -> (r: Res)
        requires
            self.wf(),
            i <= self.s().len(),
        ensures
            agrees(r, p_var(self.file, self.s(), i as int), i as int, self.s().len() as int),
    {
        let j = self.ws_end(i);
        let (o, f1) = self.ident_scan(j);
        match o {
            None => Res { step: Step::Miss, far: f1 },
            Some(e) => {
                let x = Expr::Var(self.text_of(j, e), self.dbg(j, e));
                let k = self.ws_end(e);
                Res { step: Step::Done(x, k), far: f1 }
            },
        }
    }
}


impl<'a> Src<'a> {
    /// The `-` operators at `i`, as [`neg_ops`] describes them.
    pub(crate) fn neg_ops(&self, i: usize) -> (r: (Vec<usize>, usize, usize))
        requires
            self.wf(),
            i <= self.s().len(),
        ensures
            r.0@.map_values(|v: usize| v as int) == neg_ops(self.s(), i as int).0,
            r.1 as int == neg_ops(self.s(), i as int).1,
            r.2 as int == neg_ops(self.s(), i as int).2,
            i <= r.1 <= self.s().len(),
            r.2 <= self.s().len(),
            forall|k: int| 0 <= k < r.0@.len() ==> i <= #[trigger] r.0@[k] <= r.1,
    {
        let mut starts: Vec<usize> = Vec::new();
        let mut pos = i;
        loop
            invariant
                self.wf(),
                i <= pos <= self.s().len(),
                neg_ops(self.s(), i as int) == (
                    starts@.map_values(|v: usize| v as int) + neg_ops(self.s(), pos as int).0,
                    neg_ops(self.s(), pos as int).1,
                    neg_ops(self.s(), pos as int).2,
                ),
                forall|k: int| 0 <= k < starts@.len() ==> i <= #[trigger] starts@[k] <= pos,
            decreases self.s().len() - pos,
        {
            let j = self.ws_end(pos);
            if self.is_char(j, '-') {
                proof {
                    lemma_ws_end(self.s(), j + 1);
                    let rest = neg_ops(self.s(), ws_end(self.s(), j + 1));
                    assert(neg_ops(self.s(), pos as int).0 == seq![pos as int] + rest.0);
                    assert(starts@.push(pos).map_values(|v: usize| v as int)
                        =~= starts@.map_values(|v: usize| v as int).push(pos as int));
                    assert(starts@.map_values(|v: usize| v as int) + (seq![pos as int] + rest.0)
                        =~= starts@.map_values(|v: usize| v as int).push(pos as int) + rest.0);
                }
                starts.push(pos);
                pos = self.ws_end(j + 1);
            } else {
                proof {
                    assert(neg_ops(self.s(), pos as int).0 =~= Seq::<int>::empty());
                    assert(starts@.map_values(|v: usize| v as int) + Seq::<int>::empty()
                        =~= starts@.map_values(|v: usize| v as int));
                }
                return (starts, pos, j);
            }
        }
    }

    /// A decimal, an integer, a variable or a parenthesised expression.
    fn atom(&self, i: usize) -> (r: Res)
        requires
            self.wf(),
            i <= self.s().len(),
        ensures
            agrees(r, p_atom(self.file, self.s(), i as int), i as int, self.s().len() as int),
        decreases self.s().len() - i, 2nat,
    {
        let a = self.float(i);
        match a.step {
            Step::Miss => {
                let b = self.integer(i);
                match b.step {
                    Step::Miss => {
                        let c = self.var(i);
                        let fc = umax(umax(a.far, b.far), c.far);
                        match c.step {
                            Step::Miss => if self.is_char(i, '(') {
                                let d = self.expr(i + 1);
                                let fd = umax(fc, d.far);
                                match d.step {
                                    Step::Done(x, k) => if self.is_char(k, ')') {
                                        Res { step: Step::Done(x, k + 1), far: fd }
                                    } else {
                                        Res { step: Step::Miss, far: umax(fd, k) }
                                    },
                                    Step::Miss => Res { step: Step::Miss, far: fd },
                                    Step::Overflow => Res { step: Step::Overflow, far: fd },
                                }
                            } else {
                                Res { step: Step::Miss, far: umax(fc, i) }
                            },
                            step => Res { step, far: fc },
                        }
                    },
                    step => Res { step, far: umax(a.far, b.far) },
                }
            },
            _ => a,
        }
    }

    /// Any number of `-` followed by an atom.
    fn unary(&self, i: usize) -> (r: Res)
        requires
            self.wf(),
            i <= self.s().len(),
        ensures
            agrees(r, p_unary(self.file, self.s(), i as int), i as int, self.s().len() as int),
        decreases self.s().len() - i, 3nat,
    {
        let (starts, e, fo) = self.neg_ops(i);
        let ghost gs = starts@.map_values(|v: usize| v as int);
        let a = self.atom(e);
        let far = umax(fo, a.far);
        match a.step {
            Step::Done(x, k) => {
                let ghost inner = x@;
                let mut cur = x;
                let mut n = starts.len();
                assert(gs.subrange(n as int, gs.len() as int) =~= Seq::<int>::empty());
                while n > 0
                    invariant
                        self.wf(),
                        n <= starts@.len(),
                        gs == starts@.map_values(|v: usize| v as int),
                        k <= self.s().len(),
                        forall|m: int| 0 <= m < starts@.len() ==> #[trigger] starts@[m] <= k,
                        cur@ == fold_neg(self.file, self.s(), gs.subrange(n as int, gs.len() as int), inner, k as int),
                    decreases n,
                {
                    n = n - 1;
                    let d = self.dbg(starts[n], k);
                    proof {
                        let t = gs.subrange(n as int, gs.len() as int);
                        assert(t.drop_first() =~= gs.subrange(n + 1, gs.len() as int));
                        assert(t[0] == starts@[n as int] as int);
                    }
                    cur = Expr::Neg(Box::new(cur), d);
                }
                assert(gs.subrange(0, gs.len() as int) =~= gs);
                Res { step: Step::Done(cur, k), far }
            },
            Step::Miss => Res { step: Step::Miss, far },
            Step::Overflow => Res { step: Step::Overflow, far },
        }
    }

    /// An atom followed by any number of `*`/`/` atoms, nested to the left.
    fn product(&self, i: usize) -> (r: Res)
        requires
            self.wf(),
            i <= self.s().len(),
        ensures
            agrees(r, p_product(self.file, self.s(), i as int), i as int, self.s().len() as int),
        decreases self.s().len() - i, 4nat,
    {
        let a = self.atom(i);
        match a.step {
            Step::Done(x, k) => {
                let mut lhs = x;
                let mut pos = k;
                let mut far = a.far;
                loop
                    invariant
                        self.wf(),
                        i < pos <= self.s().len(),
                        far <= self.s().len(),
                        p_product(self.file, self.s(), i as int)
                            == p_product_tail(self.file, self.s(), i as int, lhs@, pos as int, far as int),
                    decreases self.s().len() - pos,
                {
                    let j = self.ws_end(pos);
                    let star = self.is_char(j, '*');
                    if star || self.is_char(j, '/') {
                        proof {
                            lemma_ws_end(self.s(), j + 1);
                        }
                        let b = self.atom(self.ws_end(j + 1));
                        match b.step {
                            Step::Done(y, k2) => {
                                let d = self.dbg(i, k2);
                                lhs = if star {
                                    Expr::Mul(Box::new(lhs), Box::new(y), d)
                                } else {
                                    Expr::Div(Box::new(lhs), Box::new(y), d)
                                };
                                pos = k2;
                                far = umax(far, b.far);
                            },
                            Step::Miss => {
                                return Res { step: Step::Done(lhs, pos), far: umax(far, b.far) };
                            },
                            Step::Overflow => {
                                return Res { step: Step::Overflow, far: umax(far, b.far) };
                            },
                        }
                    } else {
                        return Res { step: Step::Done(lhs, pos), far: umax(far, j) };
                    }
                }
            },
            _ => a,
        }
    }

    /// A product followed by any number of `+`/`-` products, nested to the left.
    fn sum(&self, i: usize) -> (r: Res)
        requires
            self.wf(),
            i <= self.s().len(),
        ensures
            agrees(r, p_sum(self.file, self.s(), i as int), i as int, self.s().len() as int),
        decreases self.s().len() - i, 5nat,
    {
        let a = self.product(i);
        match a.step {
            Step::Done(x, k) => {
                let mut lhs = x;
                let mut pos = k;
                let mut far = a.far;
                loop
                    invariant
                        self.wf(),
                        i < pos <= self.s().len(),
                        far <= self.s().len(),
                        p_sum(self.file, self.s(), i as int)
                            == p_sum_tail(self.file, self.s(), i as int, lhs@, pos as int, far as int),
                    decreases self.s().len() - pos,
                {
                    let j = self.ws_end(pos);
                    let plus = self.is_char(j, '+');
                    if plus || self.is_char(j, '-') {
                        proof {
                            lemma_ws_end(self.s(), j + 1);
                        }
                        let b = self.product(self.ws_end(j + 1));
                        match b.step {
                            Step::Done(y, k2) => {
                                let d = self.dbg(i, k2);
                                lhs = if plus {
                                    Expr::Add(Box::new(lhs), Box::new(y), d)
                                } else {
                                    Expr::Sub(Box::new(lhs), Box::new(y), d)
                                };
                                pos = k2;
                                far = umax(far, b.far);
                            },
                            Step::Miss => {
                                return Res { step: Step::Done(lhs, pos), far: umax(far, b.far) };
                            },
                            Step::Overflow => {
                                return Res { step: Step::Overflow, far: umax(far, b.far) };
                            },
                        }
                    } else {
                        return Res { step: Step::Done(lhs, pos), far: umax(far, j) };
                    }
                }
            },
            _ => a,
        }
    }

    /// `let NAME = expr; expr` with an optional `;` at the end.
    fn let_in(&self, i: usize) -> (r: Res)
        requires
            self.wf(),
            i <= self.s().len(),
        ensures
            agrees(r, p_let(self.file, self.s(), i as int), i as int, self.s().len() as int),
        decreases self.s().len() - i, 6nat,
    {
        let (o, f1) = self.ident_scan(i);
        let e = match o {
            None => {
                return Res { step: Step::Miss, far: f1 };
            },
            Some(e) => e,
        };
        if !self.is_let(i, e) {
            return Res { step: Step::Miss, far: f1 };
        }
        let j = self.ws_end(e);
        let (o2, f2) = self.ident_scan(j);
        let e2 = match o2 {
            None => {
                return Res { step: Step::Miss, far: umax(f1, f2) };
            },
            Some(e2) => e2,
        };
        let k = self.ws_end(e2);
        if !self.is_char(k, '=') {
            return Res { step: Step::Miss, far: umax(umax(f1, f2), k) };
        }
        let r = self.expr(k + 1);
        let fr = umax(umax(f1, f2), r.far);
        let (rhs, p1) = match r.step {
            Step::Miss => {
                return Res { step: Step::Miss, far: fr };
            },
            Step::Overflow => {
                return Res { step: Step::Overflow, far: fr };
            },
            Step::Done(rhs, p1) => (rhs, p1),
        };
        if !self.is_char(p1, ';') {
            return Res { step: Step::Miss, far: umax(fr, p1) };
        }
        let t = self.expr(p1 + 1);
        let ft = umax(fr, t.far);
        let (then, p2) = match t.step {
            Step::Miss => {
                return Res { step: Step::Miss, far: ft };
            },
            Step::Overflow => {
                return Res { step: Step::Overflow, far: ft };
            },
            Step::Done(then, p2) => (then, p2),
        };
        let semi = self.is_char(p2, ';');
        let end = if semi { p2 + 1 } else { p2 };
        let fe = if semi { ft } else { umax(ft, p2) };
        let x = Expr::Let {
            name: self.text_of(j, e2),
            rhs: Box::new(rhs),
            then: Box::new(then),
            debug: self.dbg(i, end),
        };
        Res { step: Step::Done(x, end), far: fe }
    }

    /// An expression: the first of a `let`, a sum, a product, a negation or an
    /// atom that matches, with white space around it.
    fn expr(&self, i: usize) -> (r: Res)
        requires
            self.wf(),
            i <= self.s().len(),
        ensures
            agrees(r, p_expr(self.file, self.s(), i as int), i as int, self.s().len() as int),
        decreases self.s().len() - i, 7nat,
    {
        let j = self.ws_end(i);
        let a = self.let_in(j);
        if let Step::Overflow = a.step {
            return a;
        }
        let far = a.far;
        let a = if let Step::Miss = a.step {
            let b = self.sum(j);
            let far = umax(far, b.far);
            if let Step::Miss = b.step {
                let c = self.product(j);
                let far = umax(far, c.far);
                if let Step::Miss = c.step {
                    let d = self.unary(j);
                    let far = umax(far, d.far);
                    if let Step::Miss = d.step {
                        let e = self.atom(j);
                        Res { step: e.step, far: umax(far, e.far) }
                    } else {
                        Res { step: d.step, far }
                    }
                } else {
                    Res { step: c.step, far }
                }
            } else {
                Res { step: b.step, far }
            }
        } else {
            a
        };
        match a.step {
            Step::Done(x, k) => {
                let k2 = self.ws_end(k);
                Res { step: Step::Done(x, k2), far: a.far }
            },
            _ => a,
        }
    }
}


/// What the syntax error at position `p` says it found there.
pub open spec fn found_at(s: Seq<char>, p: int) -> Seq<char> {
    if 0 <= p < s.len() {
        "found '"@ + seq![s[p]] + "'"@
    } else {
        "found end of input"@
    }
}

/// `e` is the syntax error reported at position `p`: it spans the character
/// there (nothing at the end of the input) and says what it found.
pub open spec fn error_at(s: Seq<char>, p: int, e: SyntaxError) -> bool {
    &&& e.span.start == bpos(s, p)
    &&& e.span.end == (if p < s.len() { bpos(s, p + 1) } else { bpos(s, p) })
    &&& e.reason@ == found_at(s, p)
}

/// `r` is what a parse of `s` gives back when [`p_top`] is `t`: the expression,
/// or one syntax error at the furthest position that the parser reached.
pub open spec fn parse_agrees(s: Seq<char>, t: Result<SpecExpr, int>, r: Result<Expr, Vec<SyntaxError>>) -> bool {
    match t {
        Ok(x) => r matches Ok(e) && e@ == x,
        Err(p) => r matches Err(es) && es@.len() == 1 && error_at(s, p, es@[0]),
    }
}

impl<'a> Src<'a> {
    /// The syntax error at position `p`.
    pub(crate) fn error(&self, p: usize) -> (r: Vec<SyntaxError>)
        requires
            self.wf(),
            p <= self.s().len(),
        ensures
            r@.len() == 1,
            error_at(self.s(), p as int, r@[0]),
    {
        let mut r: Vec<SyntaxError> = Vec::new();
        if p < self.chars.len() {
            let found = self.text.substring_char(p, p + 1);
            assert(found@ =~= seq![self.s()[p as int]]);
            let reason = "found '".to_owned().concat(found).concat("'");
            r.push(SyntaxError { span: Range { start: self.offs[p], end: self.offs[p + 1] }, reason });
        } else {
            let reason = "found end of input".to_owned();
            r.push(SyntaxError { span: Range { start: self.offs[p], end: self.offs[p] }, reason });
        }
        r
    }
}

/// The parser of the surface syntax for the expressions of one source file.
pub struct ExprParser {
    pub file: FileId,
}

/// The parser for the expressions of the file `file_id`.
pub fn parser(file_id: FileId) -> (r: ExprParser)
    ensures
        r.file == file_id,
{
    ExprParser { file: file_id }
}

impl ExprParser {
    /// The parse of `src`, or `None` where an integer literal does not fit in `i64`.
    fn outcome(&self, src: &str) -> (r: Option<Result<Expr, Vec<SyntaxError>>>)
        ensures
            r is None <==> p_top(self.file, src@) is None,
            r matches Some(res) ==> parse_agrees(src@, p_top(self.file, src@)->Some_0, res),
    {
        let t = Src::new(src, self.file);
        let e = t.expr(0);
        let n = t.len();
        match e.step {
            Step::Done(x, k) => if k == n {
                Some(Ok(x))
            } else {
                Some(Err(t.error(umax(e.far, k))))
            },
            Step::Miss => Some(Err(t.error(e.far))),
            Step::Overflow => None,
        }
    }

    /// Parses `src` as one expression, white space around it allowed: the
    /// expression, or the syntax error at the furthest position that the parser
    /// reached.
    pub fn parse(&self, src: &str) -> (r: Result<Expr, Vec<SyntaxError>>)
        requires
            p_top(self.file, src@) is Some,
        ensures
            parse_agrees(src@, p_top(self.file, src@)->Some_0, r),
    {
        self.outcome(src).unwrap()
    }

    /// Parses `src` as [`ExprParser::parse`] does; `None` where an integer
    /// literal in it does not fit in `i64`.
    pub fn try_parse(&self, src: &str) -> (r: Option<Result<Expr, Vec<SyntaxError>>>)
        ensures
            r is None <==> p_top(self.file, src@) is None,
            r matches Some(res) ==> parse_agrees(src@, p_top(self.file, src@)->Some_0, res),
    {
        match self.outcome(src) {
            None => None,
            Some(_) => Some(self.parse(src)),
        }
    }
}


/// A run of digits reaches to the end of the input.
proof fn lemma_digits_end_all(s: Seq<char>, i: int)
    requires
        0 <= i <= s.len(),
        forall|k: int| 0 <= k < s.len() ==> is_digit(#[trigger] s[k]),
    ensures
        digits_end(s, i) == s.len(),
    decreases s.len() - i,
{
    if i < s.len() {
        lemma_digits_end_all(s, i + 1);
    }
}

/// Law: an input that is an integer literal alone (`0`, or digits that do not
/// start with `0`) whose value fits in `i64` parses as that integer, spanning
/// the whole input.
///
/// That a digit is neither white space nor an identifier start is a fact
/// about the character classes, which are outside functions; it is assumed
/// here of the input's characters.
pub proof fn lemma_parse_integer_literal(f: FileId, s: Seq<char>)
    requires
        s.len() > 0,
        forall|k: int| 0 <= k < s.len() ==> is_digit(#[trigger] s[k]),
        forall|k: int| 0 <= k < s.len() ==> !is_ident_start(#[trigger] s[k]),
        s[0] != '0' || s.len() == 1,
        digits_value(s) <= i64::MAX,
    ensures
        p_top(f, s) == Some(
            Ok::<SpecExpr, int>(SpecExpr::Value(SpecValue::Integer(digits_value(s) as i64), dbg(f, s, 0, s.len() as int))),
        ),
{
    let n = s.len() as int;
    let x = SpecExpr::Value(SpecValue::Integer(digits_value(s) as i64), dbg(f, s, 0, n));
    assert(ws_end(s, 0) == 0);
    assert(ws_end(s, n) == n);
    lemma_digits_end_all(s, 1);
    assert(s.subrange(0, n) =~= s);
    assert(int_scan(s, 0).0 == Some(n));
    assert(!char_at(s, n, '.'));
    assert(p_float(f, s, 0).res is Miss);
    assert(p_int(f, s, 0).res == Parsed::Done(x, n));
    assert(ident_scan(s, 0).0 is None);
    assert(p_var(f, s, 0).res is Miss);
    assert(p_atom(f, s, 0).res == Parsed::Done(x, n));
    assert(p_product_tail(f, s, 0, x, n, p_atom(f, s, 0).far).res == Parsed::Done(x, n));
    assert(p_product(f, s, 0).res == Parsed::Done(x, n));
    assert(p_sum_tail(f, s, 0, x, n, p_product(f, s, 0).far).res == Parsed::Done(x, n));
    assert(p_sum(f, s, 0).res == Parsed::Done(x, n));
    assert(p_let(f, s, 0).res is Miss);
    assert(p_expr(f, s, 0).res == Parsed::Done(x, n));
}


/// Law: a sum of two products joined by `+` or `-` is an addition or a
/// subtraction, as the operator written between them says, of the two
/// products, spanning both: `a - b` is `Sub(a, b)` and `a + b` is `Add(a, b)`.
pub proof fn lemma_sum_follows_operator(f: FileId, s: Seq<char>, i: int, x: SpecExpr, k: int, y: SpecExpr, n: int)
    requires
        0 <= i,
        p_product(f, s, i).res == Parsed::Done(x, k),
        i < k <= s.len(),
        char_at(s, ws_end(s, k), '+') || char_at(s, ws_end(s, k), '-'),
        p_product(f, s, ws_end(s, ws_end(s, k) + 1)).res == Parsed::Done(y, n),
        k < n <= s.len(),
        !char_at(s, ws_end(s, n), '+') && !char_at(s, ws_end(s, n), '-'),
    ensures
        p_sum(f, s, i).res == Parsed::Done(
            if s[ws_end(s, k)] == '-' {
                SpecExpr::Sub(Box::new(x), Box::new(y), dbg(f, s, i, n))
            } else {
                SpecExpr::Add(Box::new(x), Box::new(y), dbg(f, s, i, n))
            },
            n,
        ),
{
    lemma_ws_end(s, k);
}

/// Law: a product of two atoms joined by `*` or `/` is a multiplication or a
/// division, as the operator written between them says, of the two atoms,
/// spanning both: `a / b` is `Div(a, b)` and `a * b` is `Mul(a, b)`.
pub proof fn lemma_product_follows_operator(f: FileId, s: Seq<char>, i: int, x: SpecExpr, k: int, y: SpecExpr, n: int)
    requires
        0 <= i,
        p_atom(f, s, i).res == Parsed::Done(x, k),
        i < k <= s.len(),
        char_at(s, ws_end(s, k), '*') || char_at(s, ws_end(s, k), '/'),
        p_atom(f, s, ws_end(s, ws_end(s, k) + 1)).res == Parsed::Done(y, n),
        k < n <= s.len(),
        !char_at(s, ws_end(s, n), '*') && !char_at(s, ws_end(s, n), '/'),
    ensures
        p_product(f, s, i).res == Parsed::Done(
            if s[ws_end(s, k)] == '/' {
                SpecExpr::Div(Box::new(x), Box::new(y), dbg(f, s, i, n))
            } else {
                SpecExpr::Mul(Box::new(x), Box::new(y), dbg(f, s, i, n))
            },
            n,
        ),
{
    lemma_ws_end(s, k);
}

} // verus!
