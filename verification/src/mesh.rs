//! Mesh input and the errors the pipeline reports.

use vstd::prelude::*;

verus! {

/// The mesh data the graph pipeline reads: how many vertices the vertex
/// buffer holds, and the triangle index buffer.  Vertex positions play no
/// part in the graph logic and stay with the caller, keyed by vertex id.
pub struct Mesh {
    pub nb_vertices: usize,
    pub ibuff: Vec<(u32, u32, u32)>,
}

/// Errors reported by the pipeline.
#[derive(Clone, Copy, PartialEq, Eq, Structural, Debug)]
pub enum GraphError {
    /// A triangle names a vertex index outside the vertex buffer.
    InvalidTriangleIndex,
    /// Coloring was invoked on an empty edge graph (no constraints exist,
    /// so there is nothing to seed the coloring with).
    EmptyEdgeGraph,
}

/// Vertex index `a` occurs in triangle `t`.
pub open spec fn tri_has(t: (u32, u32, u32), a: int) -> bool {
    t.0 as int == a || t.1 as int == a || t.2 as int == a
}

/// Triangle `t` connects the two distinct vertices `a` and `b`.
pub open spec fn tri_connects(t: (u32, u32, u32), a: int, b: int) -> bool {
    a != b && tri_has(t, a) && tri_has(t, b)
}

/// Some triangle of the index buffer connects vertices `a` and `b`.
pub open spec fn mesh_adj(ib: Seq<(u32, u32, u32)>, a: int, b: int) -> bool {
    exists|t: int| 0 <= t < ib.len() && tri_connects(#[trigger] ib[t], a, b)
}

/// Every triangle index is a valid index into a vertex buffer of length `n`.
pub open spec fn mesh_valid(ib: Seq<(u32, u32, u32)>, n: int) -> bool {
    forall|t: int|
        0 <= t < ib.len() ==> (#[trigger] ib[t]).0 < n && ib[t].1 < n && ib[t].2 < n
}

impl Mesh {
    pub fn new(nb_vertices: usize, ib: Vec<(u32, u32, u32)>) -> (m: Mesh)
        ensures
            m.nb_vertices == nb_vertices,
            m.ibuff == ib,
    {
        Mesh { nb_vertices, ibuff: ib }
    }
}

} // verus!
