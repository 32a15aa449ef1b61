//! Context shared by the passes: interned strings.
use vstd::prelude::*;
use std::collections::HashMap;

verus! {

/// Identifies an interned string.
#[derive(Debug, Copy, Clone, PartialEq, Eq, PartialOrd, Ord, Hash, Structural)]
pub struct StringId(pub usize);

/// The strings interned so far, each with its identifier.
pub struct CommonCtx {
    pub interned_strings: HashMap<String, StringId>,
}

} // verus!
