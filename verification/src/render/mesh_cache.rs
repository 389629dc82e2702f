use vstd::prelude::*;
use crate::models::mesh::Mesh;
use crate::render::resource_manager::MeshID;

verus! {

/// `m` after inserting each pair of `items` in turn, a later pair replacing an earlier one
/// with the same id.
pub open spec fn insert_all<V>(m: Map<MeshID, Mesh<V>>, items: Seq<(MeshID, Mesh<V>)>) -> Map<
    MeshID,
    Mesh<V>,
>
    decreases items.len(),
{
    if items.len() == 0 {
        m
    } else {
        insert_all(m.insert(items[0].0, items[0].1), items.drop_first())
    }
}

/// Meshes loaded so far, each under the id it is kept as; each file is loaded once.
pub struct MeshCache<V> {
    loaded: Vec<(MeshID, Mesh<V>)>,
}

impl<V> MeshCache<V> {
    /// No id is held twice.
    pub closed spec fn wf(&self) -> bool {
        forall|i: int, j: int|
            0 <= i < self.loaded@.len() && 0 <= j < self.loaded@.len() && #[trigger] self.loaded@[i].0
                == #[trigger] self.loaded@[j].0 ==> i == j
    }

    /// The meshes held, by id.
    pub closed spec fn meshes(&self) -> Map<MeshID, Mesh<V>> {
        Map::new(
            |k: MeshID| exists|i: int| 0 <= i < self.loaded@.len() && #[trigger] self.loaded@[i].0 == k,
            |k: MeshID|
                self.loaded@[choose|i: int|
                    0 <= i < self.loaded@.len() && #[trigger] self.loaded@[i].0 == k].1,
        )
    }

    /// An empty cache.
    pub fn new() -> (r: Self)
        ensures
            r.wf(),
            r.meshes() == Map::<MeshID, Mesh<V>>::empty(),
    {
        let r = MeshCache { loaded: Vec::new() };
        assert(r.meshes() =~= Map::<MeshID, Mesh<V>>::empty());
        r
    }

    /// Where mesh `id` is held, if it is.
    fn position(&self, id: MeshID) -> (r: Option<usize>)
        ensures
            match r {
                Some(i) => i < self.loaded@.len() && self.loaded@[i as int].0 == id,
                None => forall|i: int| 0 <= i < self.loaded@.len() ==> #[trigger] self.loaded@[i].0 != id,
            },
    {
        let mut i: usize = 0;
        while i < self.loaded.len()
            invariant
                i <= self.loaded@.len(),
                forall|j: int| 0 <= j < i ==> #[trigger] self.loaded@[j].0 != id,
            decreases self.loaded@.len() - i,
        {
            if self.loaded[i].0 == id {
                return Some(i);
            }
            i = i + 1;
        }
        None
    }

    /// The mesh held under `id`, if any.
    pub fn get(&self, id: MeshID) -> (r: Option<&Mesh<V>>)
        requires
            self.wf(),
        ensures
            match r {
                Some(m) => self.meshes().contains_key(id) && *m == self.meshes()[id],
                None => !self.meshes().contains_key(id),
            },
    {
        match self.position(id) {
            Some(i) => {
                assert(self.meshes().contains_key(id));
                Some(&self.loaded[i].1)
            },
            None => None,
        }
    }

    /// Holds `mesh` under `id`, replacing the mesh held there before.
    pub fn insert(&mut self, id: MeshID, mesh: Mesh<V>)
        requires
            old(self).wf(),
        ensures
            final(self).wf(),
            final(self).meshes() == old(self).meshes().insert(id, mesh),
    {
        let ghost m0 = self.meshes();
        let ghost mut at: int = 0;
        match self.position(id) {
            Some(i) => {
                self.loaded.set(i, (id, mesh));
                proof {
                    at = i as int;
                }
            },
            None => {
                self.loaded.push((id, mesh));
                proof {
                    at = self.loaded@.len() - 1;
                }
            },
        }
        assert(self.loaded@[at].0 == id);
        assert(self.meshes() =~= m0.insert(id, mesh)) by {
            assert forall|k: MeshID| #[trigger] self.meshes().contains_key(k) == m0.insert(
                id,
                mesh,
            ).contains_key(k) by {
                if k == id {
                    assert(self.loaded@[at].0 == k);
                } else if m0.contains_key(k) {
                    let j = choose|j: int| 0 <= j < old(self).loaded@.len() && old(self).loaded@[j].0 == k;
                    assert(self.loaded@[j].0 == k);
                } else if self.meshes().contains_key(k) {
                    let j = choose|j: int| 0 <= j < self.loaded@.len() && self.loaded@[j].0 == k;
                    assert(old(self).loaded@[j].0 == k);
                }
            }
            assert forall|k: MeshID| #[trigger] self.meshes().contains_key(k) implies self.meshes()[k]
                == m0.insert(id, mesh)[k] by {
                let j = choose|j: int| 0 <= j < self.loaded@.len() && self.loaded@[j].0 == k;
                if k != id {
                    assert(old(self).loaded@[j].0 == k);
                    let j0 = choose|j0: int|
                        0 <= j0 < old(self).loaded@.len() && old(self).loaded@[j0].0 == k;
                    assert(j0 == j);
                }
            }
        }
    }

    /// Loads the meshes that `load` gives when mesh `id` is not held yet, keeping each under
    /// its id, a later one replacing an earlier one; `load` is not called when it is held.
    pub fn load_missing<F: FnOnce() -> Vec<(MeshID, Mesh<V>)>>(&mut self, id: MeshID, load: F)
        requires
            old(self).wf(),
            call_requires(load, ()),
        ensures
            final(self).wf(),
            old(self).meshes().contains_key(id) ==> final(self).meshes() == old(self).meshes(),
            !old(self).meshes().contains_key(id) ==> exists|items: Vec<(MeshID, Mesh<V>)>|
                call_ensures(load, (), items) && final(self).meshes() == insert_all(
                    old(self).meshes(),
                    items@,
                ),
    {
        if self.position(id).is_some() {
            return;
        }
        let mut items = load();
        let ghost all = items;
        while items.len() > 0
            invariant
                self.wf(),
                insert_all(self.meshes(), items@) == insert_all(old(self).meshes(), all@),
            decreases items@.len(),
        {
            let ghost rest = items@;
            let (k, m) = items.remove(0);
            assert(rest[0] == (k, m));
            assert(items@ =~= rest.drop_first());
            self.insert(k, m);
        }
        assert(call_ensures(load, (), all));
    }
}

} // verus!
