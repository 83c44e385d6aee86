use vstd::prelude::*;

verus! {

/// One frame of the structural path of a JSON token stream.
#[derive(Clone, Debug, PartialEq, Eq)]
pub enum Scope {
    /// Inside an array, at the element with this index.
    Array(usize),
    /// Inside an object, before its next key.
    Object,
    /// Inside an object, at the value of `key`, the `index`-th key of the object.
    ObjectAtKey { index: usize, key: String },
}

impl Scope {
    /// A copy of this frame that Verus knows to be equal to it.
    pub fn duplicate(&self) -> (r: Scope)
        ensures
            r == *self,
    {
        match self {
            Scope::Array(i) => Scope::Array(*i),
            Scope::Object => Scope::Object,
            Scope::ObjectAtKey { index, key } => Scope::ObjectAtKey { index: *index, key: key.clone() },
        }
    }
}

} // verus!
