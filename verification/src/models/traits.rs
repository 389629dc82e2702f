use vstd::prelude::*;

verus! {

/// A model that knows its own geometry: vertices of type `V`, triangle indices into them,
/// and the initial uniform data of type `U` for its shader.
pub trait Model<V, U> {
    fn get_indices() -> Vec<u32>;

    fn get_vertices() -> Vec<V>;

    fn get_initial_uniform_data() -> U;
}

} // verus!
