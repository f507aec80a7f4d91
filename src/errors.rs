//! Errors of mesh construction and of indexed access.

use vstd::prelude::*;
use vstd::string::StringExecFns;

verus! {

/// An undirected edge, given by its two vertex indices, that more than two
/// half-edges share: such a surface is not a manifold.
#[derive(Debug, Clone, Copy, PartialEq, Eq, Structural)]
pub struct NonManifoldError {
    pub p: usize,
    pub q: usize,
}

/// Why a half-edge mesh could not be built from an interchange mesh.
#[derive(Debug, Clone, Copy, PartialEq, Eq, Structural)]
pub enum BuildError {
    /// More than two half-edges lie on one undirected edge.
    NonManifold(NonManifoldError),
    /// The face at this index has fewer than three vertices, names a vertex
    /// or a patch that does not exist.
    InvalidFace(usize),
}

/// An index at or past the number of elements it addresses.
#[derive(Debug, Clone, Copy, PartialEq, Eq, Structural)]
pub struct IndexError {
    pub index: usize,
    pub count: usize,
}

impl NonManifoldError {
    /// A short description of the error.
    pub fn message(&self) -> (r: String)
        ensures
            r@ == "non-manifold edge found"@,
    {
        String::from_str("non-manifold edge found")
    }
}

} // verus!
