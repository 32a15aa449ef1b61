//! Source positions attached to expressions, and the errors reported against them.
use vstd::prelude::*;
use std::ops::Range;
use string_interner::symbol::SymbolU32;
use string_interner::{DefaultBackend, StringInterner, Symbol};
use crate::grammar::SyntaxError;

verus! {

/// Identifies a source file: the index under which its path was interned.
#[derive(Debug, Copy, Clone, PartialEq, Eq, PartialOrd, Ord, Hash, Structural)]
pub struct FileId(pub usize);

/// A place in a source file: the file and a range of UTF-8 byte offsets.
#[derive(Debug)]
pub struct Site {
    pub file: FileId,
    pub span: Range<usize>,
}

/// What an expression knows about where it came from.
#[derive(Debug)]
pub struct DebugInfo {
    pub site: Site,
}

impl Site {
    pub fn new(file: FileId, span: Range<usize>) -> (r: Site)
        ensures
            r == (Site { file, span }),
    {
        Site { file, span }
    }

    pub fn file(&self) -> (r: FileId)
        ensures
            r == self.file,
    {
        self.file
    }

    pub fn span(&self) -> (r: &Range<usize>)
        ensures
            *r == self.span,
    {
        &self.span
    }

    pub fn copy(&self) -> (r: Site)
        ensures
            r == *self,
    {
        Site { file: self.file, span: Range { start: self.span.start, end: self.span.end } }
    }
}

impl Clone for Site {
    fn clone(&self) -> (r: Site)
        ensures
            r == *self,
    {
        self.copy()
    }
}

impl DebugInfo {
    pub fn new(site: Site) -> (r: DebugInfo)
        ensures
            r == (DebugInfo { site }),
    {
        DebugInfo { site }
    }

    pub fn site(&self) -> (r: &Site)
        ensures
            *r == self.site,
    {
        &self.site
    }

    pub fn copy(&self) -> (r: DebugInfo)
        ensures
            r == *self,
    {
        DebugInfo { site: self.site.copy() }
    }
}

impl Clone for DebugInfo {
    fn clone(&self) -> (r: DebugInfo)
        ensures
            r == *self,
    {
        self.copy()
    }
}

/// A copy of an optional debug info.
pub fn copy_debug(d: &Option<DebugInfo>) -> (r: Option<DebugInfo>)
    ensures
        r == *d,
{
    match d {
        Some(x) => Some(x.copy()),
        None => None,
    }
}


/// An error found at a place in a source file.
#[derive(Debug)]
pub struct SiteError {
    pub site: Site,
    pub reason: String,
}

impl SiteError {
    pub fn site(&self) -> (r: &Site)
        ensures
            *r == self.site,
    {
        &self.site
    }

    pub fn reason(&self) -> (r: &String)
        ensures
            *r == self.reason,
    {
        &self.reason
    }
}

/// What went wrong: a plain message, or errors found at places in the sources.
#[derive(Debug)]
pub enum Error {
    Simple(String),
    Site(Vec<SiteError>),
}

impl From<String> for Error {
    fn from(value: String) -> (r: Error) {
        Error::Simple(value)
    }
}

impl vstd::std_specs::convert::FromSpecImpl<String> for Error {
    open spec fn obeys_from_spec() -> bool {
        true
    }

    open spec fn from_spec(v: String) -> Error {
        Error::Simple(v)
    }
}

impl Error {
    /// The syntax errors of file `file_id`, one site error for each, in order.
    pub fn from_parse_errors(file_id: FileId, errors: Vec<SyntaxError>) -> (r: Error)
        ensures
            r matches Error::Site(es) && es@.len() == errors@.len() && forall|i: int|
                0 <= i < es@.len() ==> {
                    &&& (#[trigger] es@[i]).site == (Site { file: file_id, span: errors@[i].span })
                    &&& es@[i].reason@ == errors@[i].reason@
                },
    {
        let mut es: Vec<SiteError> = Vec::new();
        let mut i: usize = 0;
        while i < errors.len()
            invariant
                i <= errors@.len(),
                es@.len() == i,
                forall|k: int|
                    0 <= k < i ==> {
                        &&& (#[trigger] es@[k]).site == (Site { file: file_id, span: errors@[k].span })
                        &&& es@[k].reason@ == errors@[k].reason@
                    },
            decreases errors@.len() - i,
        {
            let e = &errors[i];
            let span = Range { start: e.span.start, end: e.span.end };
            es.push(SiteError { site: Site { file: file_id, span }, reason: e.reason.clone() });
            i = i + 1;
        }
        Error::Site(es)
    }
}

/// A string interner of the `string_interner` crate, held whole: Verus does not
/// accept a declaration of its type, whose parameter is bound by the crate's
/// `Backend` trait.
#[verifier::external_body]
pub struct Interner {
    inner: StringInterner<DefaultBackend>,
}

/// The strings that an interner holds, in the order in which they were first
/// interned: a string's index there is its symbol's number.
pub uninterp spec fn interned(i: Interner) -> Seq<Seq<char>>;

/// Calls `StringInterner::new`, which makes an interner that holds no string.
#[verifier::external_body]
fn new_interner() -> (r: Interner)
    ensures
        interned(r) == Seq::<Seq<char>>::empty(),
{
    Interner { inner: StringInterner::new() }
}

/// Calls `StringInterner::get_or_intern` and gives the symbol's number
/// (`Symbol::to_usize`): the index of the string where the interner holds it
/// already, else the string is appended and its index is the old count. The
/// call panics when a string is to be appended to an interner that holds
/// `u32::MAX` strings, which `requires` rules out.
#[verifier::external_body]
fn intern(interner: &mut Interner, s: &str) -> (r: usize)
    requires
        !interned(*old(interner)).contains(s@) ==> interned(*old(interner)).len() < u32::MAX,
    ensures
        interned(*old(interner)).contains(s@) ==> {
            &&& interned(*final(interner)) == interned(*old(interner))
            &&& r < interned(*old(interner)).len()
            &&& interned(*old(interner))[r as int] == s@
        },
        !interned(*old(interner)).contains(s@) ==> {
            &&& interned(*final(interner)) == interned(*old(interner)).push(s@)
            &&& r == interned(*old(interner)).len()
        },
{
    interner.inner.get_or_intern(s).to_usize()
}

/// Calls `StringInterner::resolve` on the symbol numbered `i`
/// (`Symbol::try_from_usize`): the string at index `i`, if there is one.
/// (`try_from_usize` truncates numbers above `u32::MAX`; `requires` rules them out.)
#[verifier::external_body]
fn resolve(interner: &Interner, i: usize) -> (r: Option<String>)
    requires
        i < u32::MAX,
    ensures
        match r {
            Some(s) => i < interned(*interner).len() && s@ == interned(*interner)[i as int],
            None => i >= interned(*interner).len(),
        },
{
    match SymbolU32::try_from_usize(i) {
        Some(sym) => interner.inner.resolve(sym).map(|p| p.to_owned()),
        None => None,
    }
}

/// Calls `StringInterner::len`: the number of strings the interner holds.
#[verifier::external_body]
fn interned_len(interner: &Interner) -> (r: usize)
    ensures
        r == interned(*interner).len(),
{
    interner.inner.len()
}

/// The paths of the source files, each under a number of its own.
pub struct DebugContext {
    interner: Interner,
}

impl View for DebugContext {
    type V = Seq<Seq<char>>;

    /// The paths, the file with number `i` at index `i`.
    closed spec fn view(&self) -> Seq<Seq<char>> {
        interned(self.interner)
    }
}

impl DebugContext {
    /// No path occurs twice, and there are at most `u32::MAX` of them.
    pub closed spec fn wf(&self) -> bool {
        &&& interned(self.interner).no_duplicates()
        &&& interned(self.interner).len() <= u32::MAX
    }

    pub fn new() -> (r: Self)
        ensures
            r.wf(),
            r@ == Seq::<Seq<char>>::empty(),
    {
        Self { interner: new_interner() }
    }

    /// What well-formedness says of the paths.
    pub proof fn lemma_wf(&self)
        requires
            self.wf(),
        ensures
            self@.no_duplicates(),
            self@.len() <= u32::MAX,
    {
    }

    /// The number of files that have an identifier.
    pub fn len(&self) -> (r: usize)
        ensures
            r == self@.len(),
    {
        interned_len(&self.interner)
    }

    /// The identifier of the file at `path`: the one it was given before, or
    /// else the next number, under which the path is recorded.
    pub fn get_file_id(&mut self, path: &str) -> (r: FileId)
        requires
            old(self).wf(),
            !old(self)@.contains(path@) ==> old(self)@.len() < u32::MAX,
        ensures
            final(self).wf(),
            r.0 < final(self)@.len(),
            final(self)@[r.0 as int] == path@,
            old(self)@.contains(path@) ==> final(self)@ == old(self)@,
            !old(self)@.contains(path@) ==> final(self)@ == old(self)@.push(path@),
    {
        let i = intern(&mut self.interner, path);
        proof {
            let o = interned(old(self).interner);
            if !o.contains(path@) {
                let n = o.push(path@);
                assert forall|a: int, b: int| 0 <= a < n.len() && 0 <= b < n.len() && a != b implies n[a] != n[b] by {
                    if a == o.len() {
                        assert(o[b] == n[b]);
                    } else if b == o.len() {
                        assert(o[a] == n[a]);
                    }
                }
            }
        }
        FileId(i)
    }

    /// The path of file `file`, if it has one.
    pub fn get_file_path(&self, file: &FileId) -> (r: Option<String>)
        requires
            self.wf(),
        ensures
            match r {
                Some(p) => file.0 < self@.len() && p@ == self@[file.0 as int],
                None => file.0 >= self@.len(),
            },
    {
        if file.0 >= u32::MAX as usize {
            return None;
        }
        resolve(&self.interner, file.0)
    }
}

} // verus!
