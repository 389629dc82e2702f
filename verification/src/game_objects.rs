pub mod movement;
pub mod transform;

use vstd::prelude::*;

verus! {

/// Name of a game object.
#[derive(Debug)]
pub struct NameComponent(pub String);

/// Tags a transform whose global model is reported every frame under the given label.
pub struct TransformTracker<'a>(pub &'a str);

/// Cycles a render object through a list of materials, one step per call.
#[derive(Clone)]
pub struct MaterialSwapper<M: Clone> {
    materials: Vec<M>,
    curent_index: usize,
}

impl<M: Clone> MaterialSwapper<M> {
    pub closed spec fn materials(&self) -> Seq<M> {
        self.materials@
    }

    pub closed spec fn index(&self) -> usize {
        self.curent_index
    }

    /// A swapper over `materials`, starting at the first one.
    pub fn new(materials: Vec<M>) -> (r: Self)
        ensures
            r.materials() == materials@,
            r.index() == 0,
    {
        Self { materials, curent_index: 0 }
    }

    /// Moves on to the next material, wrapping around after the last, and returns a copy of
    /// it.
    pub fn swap_material(&mut self) -> (r: M)
        requires
            old(self).materials().len() > 0,
            old(self).index() < old(self).materials().len(),
        ensures
            final(self).materials() == old(self).materials(),
            final(self).index() == (old(self).index() + 1) % (old(self).materials().len() as int),
            cloned::<M>(final(self).materials()[final(self).index() as int], r),
    {
        let n = self.materials.len();
        self.curent_index = (self.curent_index + 1) % n;
        self.materials[self.curent_index].clone()
    }
}

} // verus!
