//! The interchange mesh: a flat, order-keeping list of vertices, faces and
//! patches.

use vstd::prelude::*;

verus! {

/// A vertex of the interchange mesh: its position.
#[derive(Debug, Clone, Copy)]
pub struct IOVertex<P> {
    origin: P,
}

impl<P> IOVertex<P> {
    /// Construct a vertex from its position.
    pub fn new(origin: P) -> (r: IOVertex<P>)
        ensures
            r.spec_origin() == origin,
    {
        IOVertex { origin }
    }

    /// A reference to the position.
    pub fn origin_ref(&self) -> (r: &P)
        ensures
            *r == self.spec_origin(),
    {
        &self.origin
    }
}

impl<P: Copy> IOVertex<P> {
    /// The position.
    pub fn origin(&self) -> (r: P)
        ensures
            r == self.spec_origin(),
    {
        self.origin
    }
}

impl<P> IOVertex<P> {
    pub closed spec fn spec_origin(&self) -> P {
        self.origin
    }
}

/// A polygonal face of the interchange mesh: vertex indices in winding order
/// and an optional patch index.
#[derive(Debug, Clone)]
pub struct IOFace {
    vertices: Vec<usize>,
    patch: Option<usize>,
}

impl IOFace {
    /// Construct a face from its vertices and patch.
    pub fn new(vertices: Vec<usize>, patch: Option<usize>) -> (r: IOFace)
        ensures
            r.spec_vertices() == vertices@,
            r.spec_patch() == patch,
    {
        IOFace { vertices, patch }
    }

    pub closed spec fn spec_vertices(&self) -> Seq<usize> {
        self.vertices@
    }

    pub closed spec fn spec_patch(&self) -> Option<usize> {
        self.patch
    }

    /// The vertex indices.
    pub fn vertices(&self) -> (r: &Vec<usize>)
        ensures
            r@ == self.spec_vertices(),
    {
        &self.vertices
    }

    /// The patch index.
    pub fn patch(&self) -> (r: Option<usize>)
        ensures
            r == self.spec_patch(),
    {
        self.patch
    }
}

/// A named group of faces of the interchange mesh.
#[derive(Debug, Clone)]
pub struct IOPatch {
    name: String,
}

impl IOPatch {
    /// Construct a patch from its name.
    pub fn new(name: String) -> (r: IOPatch)
        ensures
            r@ == name@,
    {
        IOPatch { name }
    }

    /// The name.
    pub fn name(&self) -> (r: &str)
        ensures
            r@ == self@,
    {
        self.name.as_str()
    }
}

impl View for IOPatch {
    type V = Seq<char>;

    closed spec fn view(&self) -> Seq<char> {
        self.name@
    }
}

/// A flat, order-keeping polygonal surface: vertices, faces and patches as
/// read from or written to a file.
#[derive(Debug, Clone)]
pub struct IOMesh<P> {
    vertices: Vec<IOVertex<P>>,
    faces: Vec<IOFace>,
    patches: Vec<IOPatch>,
}

impl<P> IOMesh<P> {
    pub closed spec fn spec_vertices(&self) -> Seq<IOVertex<P>> {
        self.vertices@
    }

    pub closed spec fn spec_faces(&self) -> Seq<IOFace> {
        self.faces@
    }

    pub closed spec fn spec_patches(&self) -> Seq<IOPatch> {
        self.patches@
    }

    /// An empty mesh.
    pub fn new() -> (r: IOMesh<P>)
        ensures
            r.spec_vertices().len() == 0,
            r.spec_faces().len() == 0,
            r.spec_patches().len() == 0,
    {
        IOMesh { vertices: Vec::new(), faces: Vec::new(), patches: Vec::new() }
    }

    /// Insert a vertex; returns its index.
    pub fn insert_vertex(&mut self, vertex: IOVertex<P>) -> (r: usize)
        ensures
            r == old(self).spec_vertices().len(),
            final(self).spec_vertices() == old(self).spec_vertices().push(vertex),
            final(self).spec_faces() == old(self).spec_faces(),
            final(self).spec_patches() == old(self).spec_patches(),
    {
        let index = self.vertices.len();
        self.vertices.push(vertex);
        index
    }

    /// The number of vertices.
    pub fn number_of_vertices(&self) -> (r: usize)
        ensures
            r == self.spec_vertices().len(),
    {
        self.vertices.len()
    }

    /// Insert a face; returns its index.
    pub fn insert_face(&mut self, face: IOFace) -> (r: usize)
        ensures
            r == old(self).spec_faces().len(),
            final(self).spec_faces() == old(self).spec_faces().push(face),
            final(self).spec_vertices() == old(self).spec_vertices(),
            final(self).spec_patches() == old(self).spec_patches(),
    {
        let index = self.faces.len();
        self.faces.push(face);
        index
    }

    /// The number of faces.
    pub fn number_of_faces(&self) -> (r: usize)
        ensures
            r == self.spec_faces().len(),
    {
        self.faces.len()
    }

    /// Insert a patch; returns its index.
    pub fn insert_patch(&mut self, patch: IOPatch) -> (r: usize)
        ensures
            r == old(self).spec_patches().len(),
            final(self).spec_patches() == old(self).spec_patches().push(patch),
            final(self).spec_vertices() == old(self).spec_vertices(),
            final(self).spec_faces() == old(self).spec_faces(),
    {
        let index = self.patches.len();
        self.patches.push(patch);
        index
    }

    /// The number of patches.
    pub fn number_of_patches(&self) -> (r: usize)
        ensures
            r == self.spec_patches().len(),
    {
        self.patches.len()
    }

    /// The index of the patch inserted last, if any: the patch that newly
    /// read faces join.
    pub fn latest_patch(&self) -> (r: Option<usize>)
        ensures
            self.spec_patches().len() == 0 ==> r.is_none(),
            self.spec_patches().len() > 0 ==> r == Some((self.spec_patches().len() - 1) as usize),
    {
        if self.patches.len() == 0 {
            return None;
        }
        Some(self.patches.len() - 1)
    }

    /// The vertex at `index`.
    pub fn vertex(&self, index: usize) -> (r: &IOVertex<P>)
        requires
            index < self.spec_vertices().len(),
        ensures
            *r == self.spec_vertices()[index as int],
    {
        &self.vertices[index]
    }

    /// The face at `index`.
    pub fn face(&self, index: usize) -> (r: &IOFace)
        requires
            index < self.spec_faces().len(),
        ensures
            *r == self.spec_faces()[index as int],
    {
        &self.faces[index]
    }

    /// The patch at `index`.
    pub fn patch(&self, index: usize) -> (r: &IOPatch)
        requires
            index < self.spec_patches().len(),
        ensures
            *r == self.spec_patches()[index as int],
    {
        &self.patches[index]
    }
}

impl<P> Default for IOMesh<P> {
    fn default() -> (r: IOMesh<P>)
        ensures
            r.spec_vertices().len() == 0,
            r.spec_faces().len() == 0,
            r.spec_patches().len() == 0,
    {
        IOMesh::new()
    }
}

} // verus!
