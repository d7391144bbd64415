//! An indexed triangle mesh whose vertices are already placed in the
//! coordinate space where they are used.

use vstd::prelude::*;

verus! {

/// A face: three indices into the vertex list.
pub type Face = [u32; 3];

/// An indexed triangle mesh. The vertex type is left open so that the
/// geometry (kept outside this crate) can pick its own coordinates.
pub struct Mesh<V> {
    vertices: Vec<V>,
    faces: Vec<Face>,
}

impl<V> Mesh<V> {
    /// The vertices, in order.
    pub closed spec fn vertex_seq(&self) -> Seq<V> {
        self.vertices@
    }

    /// The faces, in order.
    pub closed spec fn face_seq(&self) -> Seq<Face> {
        self.faces@
    }

    /// Builds a mesh from vertices and faces exactly as given.
    pub fn new_uncentred(vertices: Vec<V>, faces: Vec<Face>) -> (mesh: Self)
        ensures
            mesh.vertex_seq() == vertices@,
            mesh.face_seq() == faces@,
    {
        Mesh { vertices, faces }
    }

    pub fn vertices(&self) -> (out: &[V])
        ensures
            out@ == self.vertex_seq(),
    {
        self.vertices.as_slice()
    }

    pub fn faces(&self) -> (out: &[Face])
        ensures
            out@ == self.face_seq(),
    {
        self.faces.as_slice()
    }

    pub fn face_count(&self) -> (n: usize)
        ensures
            n == self.face_seq().len(),
    {
        self.faces.len()
    }

    pub fn vertex_count(&self) -> (n: usize)
        ensures
            n == self.vertex_seq().len(),
    {
        self.vertices.len()
    }
}

} // verus!
