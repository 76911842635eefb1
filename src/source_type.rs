//! The kinds of output a module contributes to a chunk.
use vstd::prelude::*;

verus! {

#[derive(Debug, Clone, Copy, PartialEq, Eq, Hash, Structural)]
pub enum SourceType {
    JavaScript,
    Css,
    CssImport,
    Wasm,
    Asset,
    Expose,
    Remote,
    ShareInit,
    ConsumeShared,
    Runtime,
    Unknown,
}

/// Whether `types` holds `t`.
pub fn source_types_contain(types: &Vec<SourceType>, t: SourceType) -> (r: bool)
    ensures
        r == types@.contains(t),
{
    let mut i: usize = 0;
    while i < types.len()
        invariant
            0 <= i <= types@.len(),
            forall|j: int| 0 <= j < i ==> types@[j] != t,
        decreases types@.len() - i,
    {
        if types[i] == t {
            return true;
        }
        i = i + 1;
    }
    false
}

} // verus!
