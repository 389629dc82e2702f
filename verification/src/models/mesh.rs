use vstd::prelude::*;
use crate::models::traits::Model;

verus! {

/// Vertices of type `V` and the triangle indices into them.
pub struct Mesh<V> {
    vertices: Vec<V>,
    indices: Vec<u32>,
}

impl<V: Clone> Mesh<V> {
    pub closed spec fn vertex_vec(&self) -> Vec<V> {
        self.vertices
    }

    pub closed spec fn index_vec(&self) -> Vec<u32> {
        self.indices
    }

    pub open spec fn vertex_list(&self) -> Seq<V> {
        self.vertex_vec()@
    }

    pub open spec fn index_list(&self) -> Seq<u32> {
        self.index_vec()@
    }

    /// The mesh of a model, as the model gives it.
    pub fn from_model<U, M: Model<V, U>>() -> (r: Self)
        ensures
            call_ensures(M::get_vertices, (), r.vertex_vec()),
            call_ensures(M::get_indices, (), r.index_vec()),
    {
        Mesh { vertices: M::get_vertices(), indices: M::get_indices() }
    }

    /// Builds a mesh from flat coordinate lists holding three numbers per vertex: vertex `i`
    /// is made by `vertex` from positions `3i`, `3i + 1`, `3i + 2` and the normal at the same
    /// places.
    pub fn from_obj_data<T: Copy, F: Fn((T, T, T), (T, T, T)) -> V>(
        positions: &Vec<T>,
        normals: &Vec<T>,
        indices: Vec<u32>,
        vertex: F,
    ) -> (r: Self)
        requires
            positions@.len() % 3 == 0,
            normals@.len() >= positions@.len(),
            forall|p: (T, T, T), n: (T, T, T)| #[trigger] call_requires(vertex, (p, n)),
        ensures
            r.vertex_list().len() == positions@.len() / 3,
            forall|i: int|
                0 <= i < r.vertex_list().len() ==> call_ensures(
                    vertex,
                    (
                        (positions@[3 * i], positions@[3 * i + 1], positions@[3 * i + 2]),
                        (normals@[3 * i], normals@[3 * i + 1], normals@[3 * i + 2]),
                    ),
                    #[trigger] r.vertex_list()[i],
                ),
            r.index_list() == indices@,
    {
        let plen = positions.len();
        let length = plen / 3;
        let mut vertices: Vec<V> = Vec::new();
        let mut i: usize = 0;
        while i < length
            invariant
                plen == positions@.len(),
                length == positions@.len() / 3,
                positions@.len() % 3 == 0,
                normals@.len() >= positions@.len(),
                forall|p: (T, T, T), n: (T, T, T)| #[trigger] call_requires(vertex, (p, n)),
                i <= length,
                vertices@.len() == i,
                forall|k: int|
                    0 <= k < i ==> call_ensures(
                        vertex,
                        (
                            (positions@[3 * k], positions@[3 * k + 1], positions@[3 * k + 2]),
                            (normals@[3 * k], normals@[3 * k + 1], normals@[3 * k + 2]),
                        ),
                        #[trigger] vertices@[k],
                    ),
            decreases length - i,
        {
            assert(3 * i + 2 < positions@.len()) by (nonlinear_arith)
                requires
                    i < length,
                    length == positions@.len() / 3,
                    positions@.len() % 3 == 0,
            ;
            let first = 3 * i;
            let position = (positions[first], positions[first + 1], positions[first + 2]);
            let normal = (normals[first], normals[first + 1], normals[first + 2]);
            let v = vertex(position, normal);
            vertices.push(v);
            i = i + 1;
        }
        Mesh { vertices, indices }
    }

    /// A copy of the vertices.
    pub fn get_vertices(&self) -> (r: Vec<V>)
        ensures
            r@.len() == self.vertex_list().len(),
            forall|i: int| 0 <= i < r@.len() ==> cloned::<V>(self.vertex_list()[i], #[trigger] r@[i]),
    {
        self.vertices.clone()
    }

    /// A copy of the indices.
    pub fn get_indicies(&self) -> (r: Vec<u32>)
        ensures
            r@ == self.index_list(),
    {
        let r = self.indices.clone();
        assert(r@ =~= self.indices@);
        r
    }
}

} // verus!
