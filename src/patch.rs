//! Patches as handed out by queries.

use vstd::prelude::*;

verus! {

/// A named group of faces, as handed out by the surface mesh.
#[derive(Debug, Clone)]
pub struct Patch {
    name: String,
}

impl Patch {
    /// Construct a patch from its name.
    pub fn new(name: &str) -> (r: Patch)
        ensures
            r@ == name@,
    {
        Patch { name: name.to_string() }
    }

    /// The name.
    pub fn name(&self) -> (r: &str)
        ensures
            r@ == self@,
    {
        self.name.as_str()
    }
}

impl View for Patch {
    type V = Seq<char>;

    closed spec fn view(&self) -> Seq<char> {
        self.name@
    }
}

} // verus!
