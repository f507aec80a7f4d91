//! Faces as handed out by queries: vertex lists with a patch.

use vstd::prelude::*;

verus! {

/// A polygonal face given by its vertex indices, as handed out by the surface
/// mesh.
#[derive(Debug, Clone)]
pub struct Face {
    vertices: Vec<usize>,
    patch: Option<usize>,
}

impl Face {
    /// Construct a face from its vertices and patch.
    pub fn new(vertices: Vec<usize>, patch: Option<usize>) -> (r: Face)
        ensures
            r.spec_vertices() == vertices@,
            r.spec_patch() == patch,
    {
        Face { vertices, patch }
    }

    pub closed spec fn spec_vertices(&self) -> Seq<usize> {
        self.vertices@
    }

    pub closed spec fn spec_patch(&self) -> Option<usize> {
        self.patch
    }

    /// The vertex indices, in winding order.
    pub fn vertices(&self) -> (r: &Vec<usize>)
        ensures
            r@ == self.spec_vertices(),
    {
        &self.vertices
    }

    /// The patch index, if the face belongs to one.
    pub fn patch(&self) -> (r: Option<usize>)
        ensures
            r == self.spec_patch(),
    {
        self.patch
    }
}

} // verus!
