//! An indexed model as loaded from a mesh file format with its own
//! indexing (positions flat, three indices per triangle).
use vstd::prelude::*;

verus! {

/// A named, indexed mesh: flat position scalars and index triples.
pub struct Model {
    name: Option<String>,
    vertices: Vec<u32>,
    triangles: Vec<[u32; 3]>,
}

impl Model {
    pub closed spec fn spec_name(self) -> Option<String> {
        self.name
    }

    pub closed spec fn spec_vertices(self) -> Seq<u32> {
        self.vertices@
    }

    pub closed spec fn spec_triangles(self) -> Seq<[u32; 3]> {
        self.triangles@
    }

    /// An empty, unnamed model.
    pub fn new() -> (r: Model)
        ensures
            r.spec_name() is None,
            r.spec_vertices().len() == 0,
            r.spec_triangles().len() == 0,
    {
        Model { name: None, vertices: Vec::new(), triangles: Vec::new() }
    }

    /// Wraps already-indexed data as a model.
    pub fn from_raw(vertices: Vec<u32>, triangles: Vec<[u32; 3]>) -> (r: Model)
        ensures
            r.spec_name() is None,
            r.spec_vertices() == vertices@,
            r.spec_triangles() == triangles@,
    {
        let mut model = Model::new();
        model.vertices = vertices;
        model.triangles = triangles;
        model
    }
}

} // verus!
