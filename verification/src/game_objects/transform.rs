use vstd::prelude::*;
use vstd::relations::injective_on;
use vstd::set_lib::*;

verus! {

/// Identifier of a transform inside a `TransformSystem`.
#[derive(PartialEq, Eq, Hash, Clone, Copy, Debug, Structural)]
pub struct TransformID(u32);

impl View for TransformID {
    type V = u32;

    closed spec fn view(&self) -> u32 {
        self.0
    }
}

impl TransformID {
    /// The raw integer behind this identifier.
    pub fn id(&self) -> (r: u32)
        ensures
            r == self@,
    {
        self.0
    }
}

#[derive(Debug, Clone, Copy, PartialEq, Eq, Structural)]
pub enum TransformError {
    IDNotFound,
}

/// Place of a transform in the hierarchy, and which of its models are up to date.
///
/// The models themselves (local from translation, rotation and scale; global from the
/// parent's global model) are computed by the caller; this records whether the stored ones
/// may still be used.
pub struct Transform {
    parent: Option<u32>,
    children: Vec<u32>,
    local_cached: bool,
    global_cached: bool,
    last_stored: bool,
}

/// One transform on the way from a root down to a requested transform, and what must be
/// recomputed there to obtain its global model.
#[derive(Clone, Copy, Debug, PartialEq, Eq, Structural)]
pub struct ModelStep {
    pub id: TransformID,
    /// the local model (from translation, rotation and scale) is out of date
    pub recompute_local: bool,
    /// the global model (parent's global model times the local model) is out of date
    pub recompute_global: bool,
}

impl Transform {
    pub closed spec fn parent_link(&self) -> Option<u32> {
        self.parent
    }

    pub closed spec fn child_ids(&self) -> Seq<u32> {
        self.children@
    }

    pub closed spec fn local_ok(&self) -> bool {
        self.local_cached
    }

    pub closed spec fn global_ok(&self) -> bool {
        self.global_cached
    }

    pub closed spec fn last_ok(&self) -> bool {
        self.last_stored
    }

    /// The global model must be recomputed before use.
    pub fn is_dirty(&self) -> (r: bool)
        ensures
            r == !self.global_ok(),
    {
        !self.global_cached
    }

    /// The parent transform, if any.
    pub fn parent(&self) -> (r: Option<TransformID>)
        ensures
            r matches Some(p) ==> self.parent_link() == Some(p@),
            r is None ==> self.parent_link() is None,
    {
        match self.parent {
            Some(p) => Some(TransformID(p)),
            None => None,
        }
    }

    /// Records that translation, rotation or scale changed: both models are out of date.
    pub fn mark_changed(&mut self)
        ensures
            !final(self).local_ok(),
            !final(self).global_ok(),
            final(self).last_ok() == old(self).last_ok(),
            final(self).parent_link() == old(self).parent_link(),
            final(self).child_ids() == old(self).child_ids(),
    {
        self.local_cached = false;
        self.global_cached = false;
    }
}

/// The hierarchy of transforms. Identifiers are handed out from 0 upwards and never reused,
/// so the transforms form a map whose keys are exactly `0 .. next_free()`: transform `id` is
/// stored at index `id` of a vector. The children of a transform and the top-level transforms
/// are sets, kept as lists without duplicates whose order carries no meaning.
pub struct TransformSystem {
    root: Vec<u32>,
    transforms: Vec<Transform>,
    next_id: u32,
    /// distance of each transform from the top of its hierarchy
    level: Ghost<Seq<nat>>,
}

impl TransformSystem {
    // ------------------------------------------------------------------
    // Model
    // ------------------------------------------------------------------
    /// Number of transforms.
    pub closed spec fn count(&self) -> nat {
        self.transforms@.len()
    }

    pub closed spec fn transform(&self, x: int) -> Transform {
        self.transforms@[x]
    }

    pub open spec fn has(&self, x: int) -> bool {
        0 <= x < self.count()
    }

    pub open spec fn parent_of(&self, x: int) -> Option<u32> {
        self.transform(x).parent_link()
    }

    pub open spec fn children_of(&self, x: int) -> Seq<u32> {
        self.transform(x).child_ids()
    }

    pub closed spec fn roots(&self) -> Seq<u32> {
        self.root@
    }

    pub closed spec fn next_free(&self) -> u32 {
        self.next_id
    }

    pub closed spec fn level_of(&self, x: int) -> nat {
        self.level@[x]
    }

    /// The ancestor `n` generations above `x` (`x` itself for `n == 0`).
    pub open spec fn ancestor(&self, x: int, n: nat) -> Option<int>
        decreases n,
    {
        if n == 0 {
            Some(x)
        } else {
            match self.parent_of(x) {
                None => None,
                Some(p) => self.ancestor(p as int, (n - 1) as nat),
            }
        }
    }

    /// `x` is `c` or one of its descendants.
    pub open spec fn in_subtree(&self, x: int, c: int) -> bool {
        &&& self.has(x)
        &&& self.has(c)
        &&& self.level_of(c) <= self.level_of(x)
        &&& self.ancestor(x, (self.level_of(x) - self.level_of(c)) as nat) == Some(c)
    }

    spec fn node_ok(&self, x: int) -> bool {
        &&& match self.parent_of(x) {
            None => self.level_of(x) == 0 && self.roots().contains(x as u32),
            Some(p) => self.has(p as int) && self.level_of(x) == self.level_of(p as int) + 1
                && self.children_of(p as int).contains(x as u32) && !self.roots().contains(
                x as u32,
            ),
        }
        &&& self.children_of(x).no_duplicates()
        &&& forall|k: int|
            0 <= k < self.children_of(x).len() ==> {
                let c = #[trigger] self.children_of(x)[k] as int;
                self.has(c) && self.parent_of(c) == Some(x as u32)
            }
    }

    /// Parents, children and roots agree, and every transform lies a finite number of
    /// generations below a root.
    pub closed spec fn wf(&self) -> bool {
        &&& self.count() == self.next_id
        &&& self.level@.len() == self.count()
        &&& self.roots().no_duplicates()
        &&& forall|k: int|
            0 <= k < self.roots().len() ==> {
                let r = #[trigger] self.roots()[k] as int;
                self.has(r) && self.parent_of(r) is None
            }
        &&& forall|x: int| self.has(x) ==> #[trigger] self.node_ok(x)
    }

    // ------------------------------------------------------------------
    // Lemmas
    // ------------------------------------------------------------------
    proof fn lemma_ancestor_level(&self, x: int, n: nat)
        requires
            self.wf(),
            self.has(x),
            n <= self.level_of(x),
        ensures
            self.ancestor(x, n) matches Some(a) && self.has(a) && self.level_of(a) == self.level_of(
                x,
            ) - n,
        decreases n,
    {
        if n > 0 {
            assert(self.node_ok(x));
            let p = self.parent_of(x).unwrap() as int;
            self.lemma_ancestor_level(p, (n - 1) as nat);
        }
    }

    /// The transforms above `x`, one per level, are distinct; so the level is below the count.
    proof fn lemma_level_bound(&self, x: int)
        requires
            self.wf(),
            self.has(x),
        ensures
            self.level_of(x) < self.count(),
    {
        let top = self.level_of(x) as int;
        let levels = set_int_range(0, top + 1);
        let g = |l: int| self.ancestor(x, (top - l) as nat).unwrap();
        lemma_int_range(0, top + 1);
        assert forall|l: int| #[trigger] levels.contains(l) implies self.has(g(l)) && self.level_of(g(l))
            == l by {
            self.lemma_ancestor_level(x, (top - l) as nat);
        }
        assert(injective_on(g, levels)) by {
            assert forall|a: int, b: int|
                levels.contains(a) && levels.contains(b) && #[trigger] g(a) == #[trigger] g(b) implies a
                == b by {
                assert(self.level_of(g(a)) == a);
                assert(self.level_of(g(b)) == b);
            }
        }
        let s = levels.map(g);
        lemma_map_size(levels, s, g);
        lemma_int_range(0, self.count() as int);
        assert forall|a: int| s.contains(a) implies set_int_range(0, self.count() as int).contains(a) by {
            let l = choose|l: int| levels.contains(l) && g(l) == a;
            assert(self.has(g(l)));
        }
        lemma_len_subset(s, set_int_range(0, self.count() as int));
    }

    proof fn lemma_subtree_self(&self, x: int)
        requires
            self.has(x),
            self.level@.len() == self.count(),
        ensures
            self.in_subtree(x, x),
    {
        assert(self.ancestor(x, 0) == Some(x));
    }

    /// A descendant of `c` other than `c` has its parent in the subtree of `c`.
    proof fn lemma_subtree_up(&self, x: int, c: int)
        requires
            self.wf(),
            self.in_subtree(x, c),
            x != c,
        ensures
            self.parent_of(x) matches Some(p) && self.in_subtree(p as int, c),
    {
        assert(self.node_ok(x));
        let n = (self.level_of(x) - self.level_of(c)) as nat;
        if n == 0 {
            assert(self.ancestor(x, 0) == Some(x));
        } else {
            let p = self.parent_of(x).unwrap() as int;
            assert(self.ancestor(x, n) == self.ancestor(p, (n - 1) as nat));
        }
    }

    /// The child of a transform in the subtree of `c` is in that subtree.
    proof fn lemma_subtree_down(&self, x: int, c: int)
        requires
            self.wf(),
            self.has(x),
            self.parent_of(x) matches Some(p) && self.in_subtree(p as int, c),
        ensures
            self.in_subtree(x, c),
    {
        assert(self.node_ok(x));
        let p = self.parent_of(x).unwrap() as int;
        let n = (self.level_of(p) - self.level_of(c)) as nat;
        assert(self.ancestor(x, n + 1) == self.ancestor(p, n));
        assert((self.level_of(x) - self.level_of(c)) as nat == n + 1);
    }

    /// A descendant of `c` other than `c` lies below one of the children of `c`.
    proof fn lemma_subtree_via_child(&self, x: int, c: int) -> (k: int)
        requires
            self.wf(),
            self.in_subtree(x, c),
            x != c,
        ensures
            0 <= k < self.children_of(c).len(),
            self.in_subtree(x, self.children_of(c)[k] as int),
    {
        let n = (self.level_of(x) - self.level_of(c)) as nat;
        assert(n > 0) by {
            if n == 0 {
                assert(self.ancestor(x, 0) == Some(x));
            }
        }
        self.lemma_ancestor_level(x, (n - 1) as nat);
        let d = self.ancestor(x, (n - 1) as nat).unwrap();
        self.lemma_ancestor_chain(x, (n - 1) as nat);
        assert(self.node_ok(d));
        assert(self.level_of(d) == self.level_of(c) + 1);
        let p = self.parent_of(d).unwrap() as int;
        assert(self.ancestor(d, 1) == self.ancestor(p, 0));
        self.lemma_ancestor_compose(x, (n - 1) as nat, 1);
        assert(p == c);
        assert(self.node_ok(c));
        assert(self.children_of(c).contains(d as u32));
        let k = choose|k: int| 0 <= k < self.children_of(c).len() && self.children_of(c)[k] == d as u32;
        assert(self.has(d));
        k
    }

    proof fn lemma_ancestor_chain(&self, x: int, n: nat)
        requires
            self.wf(),
            self.has(x),
            n <= self.level_of(x),
        ensures
            self.in_subtree(x, self.ancestor(x, n).unwrap()),
        decreases n,
    {
        self.lemma_ancestor_level(x, n);
    }

    proof fn lemma_ancestor_compose(&self, x: int, a: nat, b: nat)
        requires
            self.wf(),
            self.has(x),
            a <= self.level_of(x),
        ensures
            self.ancestor(x, a + b) == self.ancestor(self.ancestor(x, a).unwrap(), b),
        decreases a,
    {
        self.lemma_ancestor_level(x, a);
        if a > 0 {
            assert(self.node_ok(x));
            let p = self.parent_of(x).unwrap() as int;
            self.lemma_ancestor_compose(p, (a - 1) as nat, b);
            assert(self.ancestor(x, a + b) == self.ancestor(p, (a + b - 1) as nat));
        }
    }

    /// Same hierarchy: the same transforms, parents, children, roots and levels.
    pub closed spec fn same_links(&self, other: &Self) -> bool {
        &&& self.root@ == other.root@
        &&& self.next_id == other.next_id
        &&& self.level@ == other.level@
        &&& self.transforms@.len() == other.transforms@.len()
        &&& forall|x: int|
            0 <= x < self.transforms@.len() ==> #[trigger] self.transforms@[x].parent
                == other.transforms@[x].parent && self.transforms@[x].children@
                == other.transforms@[x].children@
    }

    proof fn lemma_same_links_ancestor(&self, other: &Self, x: int, n: nat)
        requires
            self.same_links(other),
            other.wf(),
            other.has(x),
        ensures
            self.ancestor(x, n) == other.ancestor(x, n),
        decreases n,
    {
        if n > 0 {
            assert(self.transforms@[x].parent == other.transforms@[x].parent);
            if let Some(p) = other.parent_of(x) {
                assert(other.node_ok(x));
                self.lemma_same_links_ancestor(other, p as int, (n - 1) as nat);
            }
        }
    }

    proof fn lemma_same_links_wf(&self, other: &Self)
        requires
            self.same_links(other),
            other.wf(),
        ensures
            self.wf(),
            forall|x: int, c: int| #[trigger] self.in_subtree(x, c) == other.in_subtree(x, c),
    {
        assert forall|x: int| self.has(x) implies #[trigger] self.node_ok(x) by {
            assert(other.node_ok(x));
            assert(self.transforms@[x].parent == other.transforms@[x].parent);
            if let Some(p) = other.parent_of(x) {
                assert(self.transforms@[p as int].parent == other.transforms@[p as int].parent);
            }
            assert forall|k: int| 0 <= k < self.children_of(x).len() implies {
                let c = #[trigger] self.children_of(x)[k] as int;
                self.has(c) && self.parent_of(c) == Some(x as u32)
            } by {
                let c = other.children_of(x)[k] as int;
                assert(self.transforms@[c].parent == other.transforms@[c].parent);
            }
        }
        assert forall|x: int, c: int| #[trigger] self.in_subtree(x, c) == other.in_subtree(x, c) by {
            if other.has(x) {
                self.lemma_same_links_ancestor(other, x, (self.level_of(x) - self.level_of(c)) as nat);
            }
        }
    }

    /// `self` is `old` with the global models of `id` and all its descendants out of date.
    pub open spec fn dirtied_from(&self, old: &Self, id: int) -> bool {
        forall|x: int|
            old.has(x) ==> {
                &&& #[trigger] self.transform(x).global_ok() == (old.transform(x).global_ok()
                    && !old.in_subtree(x, id))
                &&& self.transform(x).local_ok() == old.transform(x).local_ok()
                &&& self.transform(x).last_ok() == old.transform(x).last_ok()
            }
    }

    /// `self` is `old` with every transform from the top of the hierarchy down to `id` cleaned:
    /// global models up to date, and local models too where the global one was recomputed.
    pub open spec fn cleaned_from(&self, old: &Self, id: int) -> bool {
        forall|x: int|
            old.has(x) ==> {
                &&& #[trigger] self.transform(x).global_ok() == (old.transform(x).global_ok()
                    || old.in_subtree(id, x))
                &&& self.transform(x).local_ok() == (old.transform(x).local_ok() || (old.in_subtree(
                    id,
                    x,
                ) && !old.transform(x).global_ok()))
                &&& self.transform(x).last_ok() == old.transform(x).last_ok()
            }
    }

    /// `self` is `old` cleaned as by `cleaned_from`, with the last model of `id` stored.
    pub open spec fn stored_from(&self, old: &Self, id: int) -> bool {
        forall|x: int|
            old.has(x) ==> {
                &&& #[trigger] self.transform(x).global_ok() == (old.transform(x).global_ok()
                    || old.in_subtree(id, x))
                &&& self.transform(x).local_ok() == (old.transform(x).local_ok() || (old.in_subtree(
                    id,
                    x,
                ) && !old.transform(x).global_ok()))
                &&& self.transform(x).last_ok() == (old.transform(x).last_ok() || x == id)
            }
    }

    /// The transforms from the top of the hierarchy down to `id`, with what must be
    /// recomputed on each.
    pub open spec fn steps_for(&self, id: int, steps: Seq<ModelStep>) -> bool {
        &&& steps.len() == self.level_of(id) + 1
        &&& forall|k: int|
            0 <= k < steps.len() ==> {
                let a = self.ancestor(id, (self.level_of(id) - k) as nat).unwrap();
                &&& (#[trigger] steps[k]).id@ == a
                &&& steps[k].recompute_global == !self.transform(a).global_ok()
                &&& steps[k].recompute_local == (!self.transform(a).global_ok()
                    && !self.transform(a).local_ok())
            }
    }

    /// Some child of `id` among the first `k` has `x` in its subtree.
    spec fn below_children(&self, id: int, k: int, x: int) -> bool {
        exists|j: int| 0 <= j < k && #[trigger] self.in_subtree(x, self.children_of(id)[j] as int)
    }

    /// The subtree of a child of `p` lies within the subtree of `p`.
    proof fn lemma_subtree_in(&self, x: int, c: int, p: int)
        requires
            self.wf(),
            self.in_subtree(x, c),
            self.has(c),
            self.parent_of(c) == Some(p as u32),
            self.has(p),
        ensures
            self.in_subtree(x, p),
    {
        assert(self.node_ok(c));
        let n = (self.level_of(x) - self.level_of(c)) as nat;
        self.lemma_ancestor_compose(x, n, 1);
        assert(self.ancestor(c, 1) == self.ancestor(p, 0));
        assert((self.level_of(x) - self.level_of(p)) as nat == n + 1);
    }

    proof fn lemma_remove_distinct(s: Seq<u32>, k: int)
        requires
            s.no_duplicates(),
            0 <= k < s.len(),
        ensures
            s.remove(k).no_duplicates(),
            forall|y: u32| #[trigger] s.remove(k).contains(y) <==> (s.contains(y) && y != s[k]),
    {
        let r = s.remove(k);
        assert forall|y: u32| #[trigger] r.contains(y) <==> (s.contains(y) && y != s[k]) by {
            if r.contains(y) {
                let j = choose|j: int| 0 <= j < r.len() && r[j] == y;
                if j < k {
                    assert(s[j] == y);
                } else {
                    assert(s[j + 1] == y);
                }
            }
            if s.contains(y) && y != s[k] {
                let j = choose|j: int| 0 <= j < s.len() && s[j] == y;
                if j < k {
                    assert(r[j] == y);
                } else {
                    assert(j != k);
                    assert(r[j - 1] == y);
                }
            }
        }
        assert forall|a: int, b: int| 0 <= a < r.len() && 0 <= b < r.len() && a != b implies r[a] != r[b] by {
            let a2 = if a < k { a } else { a + 1 };
            let b2 = if b < k { b } else { b + 1 };
            assert(r[a] == s[a2]);
            assert(r[b] == s[b2]);
        }
    }

    proof fn lemma_push_distinct(s: Seq<u32>, v: u32)
        requires
            s.no_duplicates(),
            !s.contains(v),
        ensures
            s.push(v).no_duplicates(),
            forall|y: u32| #[trigger] s.push(v).contains(y) <==> (s.contains(y) || y == v),
    {
        let r = s.push(v);
        assert forall|y: u32| #[trigger] r.contains(y) <==> (s.contains(y) || y == v) by {
            if r.contains(y) {
                let j = choose|j: int| 0 <= j < r.len() && r[j] == y;
                if j < s.len() {
                    assert(s[j] == y);
                }
            }
            if s.contains(y) {
                let j = choose|j: int| 0 <= j < s.len() && s[j] == y;
                assert(r[j] == y);
            }
            if y == v {
                assert(r[s.len() as int] == y);
            }
        }
        assert forall|a: int, b: int| 0 <= a < r.len() && 0 <= b < r.len() && a != b implies r[a] != r[b] by {
            if a < s.len() && b < s.len() {
                assert(r[a] == s[a] && r[b] == s[b]);
            } else if a < s.len() {
                assert(r[a] == s[a]);
                assert(s.contains(s[a]));
            } else if b < s.len() {
                assert(r[b] == s[b]);
                assert(s.contains(s[b]));
            }
        }
    }

    /// The state `new` is `old` with transform `c` moved under `np` (to the top level when
    /// `None`) and its subtree's levels shifted accordingly; it is well formed.
    proof fn lemma_relink(old: &Self, new: &Self, c: int, np: Option<u32>)
        requires
            old.wf(),
            old.has(c),
            np matches Some(p) ==> old.has(p as int) && !old.in_subtree(p as int, c),
            new.count() == old.count(),
            new.next_id == old.next_id,
            forall|x: int|
                old.has(x) ==> #[trigger] new.parent_of(x) == if x == c {
                    np
                } else {
                    old.parent_of(x)
                },
            forall|x: int| old.has(x) ==> #[trigger] new.children_of(x).no_duplicates(),
            forall|x: int, y: u32|
                old.has(x) ==> (#[trigger] new.children_of(x).contains(y) <==> (old.children_of(
                    x,
                ).contains(y) && y != c) || (np == Some(x as u32) && y == c)),
            new.roots().no_duplicates(),
            forall|y: u32|
                #[trigger] new.roots().contains(y) <==> (old.roots().contains(y) && y != c) || (np
                    is None && y == c),
            new.level@ == Seq::new(
                old.count(),
                |x: int|
                    if old.in_subtree(x, c) {
                        (old.level_of(x) - old.level_of(c) + match np {
                            Some(p) => old.level_of(p as int) + 1,
                            None => 0,
                        }) as nat
                    } else {
                        old.level_of(x)
                    },
            ),
        ensures
            new.wf(),
    {
        assert forall|k: int| 0 <= k < new.roots().len() implies {
            let r = #[trigger] new.roots()[k] as int;
            new.has(r) && new.parent_of(r) is None
        } by {
            let r = new.roots()[k];
            assert(new.roots().contains(r));
            if r != c {
                let j = choose|j: int| 0 <= j < old.roots().len() && old.roots()[j] == r;
                assert(old.has(old.roots()[j] as int));
            }
        }
        assert forall|x: int| new.has(x) implies #[trigger] new.node_ok(x) by {
            assert(old.node_ok(x));
            assert(new.parent_of(x) == if x == c { np } else { old.parent_of(x) });
            match new.parent_of(x) {
                None => {
                    if x != c {
                        assert(old.roots().contains(x as u32));
                        if old.in_subtree(x, c) {
                            old.lemma_subtree_up(x, c);
                        }
                    }
                    assert(new.roots().contains(x as u32));
                },
                Some(p) => {
                    let p = p as int;
                    if x == c {
                        assert(!old.in_subtree(p, c));
                        assert(new.children_of(p).contains(x as u32));
                    } else {
                        assert(old.parent_of(x) == Some(p as u32));
                        if old.in_subtree(x, c) {
                            old.lemma_subtree_up(x, c);
                        } else if old.in_subtree(p, c) {
                            old.lemma_subtree_down(x, c);
                        }
                        assert(old.children_of(p).contains(x as u32));
                        assert(new.children_of(p).contains(x as u32));
                        assert(!old.roots().contains(x as u32));
                    }
                    assert(!new.roots().contains(x as u32));
                },
            }
            assert forall|k: int| 0 <= k < new.children_of(x).len() implies {
                let y = #[trigger] new.children_of(x)[k] as int;
                new.has(y) && new.parent_of(y) == Some(x as u32)
            } by {
                let y = new.children_of(x)[k];
                assert(new.children_of(x).contains(y));
                if y != c {
                    assert(old.children_of(x).contains(y));
                    let j = choose|j: int|
                        0 <= j < old.children_of(x).len() && old.children_of(x)[j] == y;
                    assert(old.has(old.children_of(x)[j] as int));
                }
            }
        }
    }

    // ------------------------------------------------------------------
    // Operations
    // ------------------------------------------------------------------
    /// An empty system.
    pub fn new() -> (r: Self)
        ensures
            r.wf(),
            r.count() == 0,
            r.next_free() == 0,
    {
        TransformSystem { root: Vec::new(), transforms: Vec::new(), next_id: 0, level: Ghost(Seq::empty()) }
    }

    /// Adds a transform under `parent` (at the top level when `None`) and returns its new
    /// identifier; all its models are out of date.
    #[verifier::spinoff_prover]
    pub fn add_transform(&mut self, parent: Option<TransformID>) -> (id: TransformID)
        requires
            old(self).wf(),
            old(self).next_free() < u32::MAX,
            parent matches Some(p) ==> old(self).has(p@ as int),
        ensures
            final(self).wf(),
            id@ == old(self).next_free(),
            final(self).next_free() == old(self).next_free() + 1,
            !old(self).has(id@ as int),
            final(self).has(id@ as int),
            final(self).count() == old(self).count() + 1,
            final(self).parent_of(id@ as int) == match parent {
                Some(p) => Some(p@),
                None => None::<u32>,
            },
            !final(self).transform(id@ as int).local_ok(),
            !final(self).transform(id@ as int).global_ok(),
            !final(self).transform(id@ as int).last_ok(),
            final(self).children_of(id@ as int).len() == 0,
            forall|x: int|
                old(self).has(x) ==> #[trigger] final(self).parent_of(x) == old(self).parent_of(x)
                    && final(self).transform(x).local_ok() == old(self).transform(x).local_ok()
                    && final(self).transform(x).global_ok() == old(self).transform(x).global_ok()
                    && final(self).transform(x).last_ok() == old(self).transform(x).last_ok(),
            forall|x: int|
                old(self).has(x) ==> #[trigger] final(self).children_of(x) == if parent matches Some(p)
                    && p@ == x {
                    old(self).children_of(x).push(id@)
                } else {
                    old(self).children_of(x)
                },
            final(self).roots() == if parent is None {
                old(self).roots().push(id@)
            } else {
                old(self).roots()
            },
    {
        let ghost s0 = *self;
        let id = self.next_id;
        let link = match parent {
            Some(p) => Some(p.0),
            None => None,
        };
        let ghost new_level: nat = match parent {
            Some(p) => self.level@[p@ as int] + 1,
            None => 0,
        };
        assert(forall|x: int| s0.has(x) ==> s0.node_ok(x));
        match parent {
            Some(p) => {
                self.transforms[p.0 as usize].children.push(id);
            },
            None => {
                self.root.push(id);
            },
        }
        self.transforms.push(
            Transform {
                parent: link,
                children: Vec::new(),
                local_cached: false,
                global_cached: false,
                last_stored: false,
            },
        );
        self.level = Ghost(self.level@.push(new_level));
        self.next_id = id + 1;
        let ghost s1 = *self;
        assert(!s0.roots().contains(id)) by {
            if s0.roots().contains(id) {
                let k = choose|k: int| 0 <= k < s0.roots().len() && s0.roots()[k] == id;
                assert(s0.has(s0.roots()[k] as int));
            }
        }
        assert forall|x: int| s0.has(x) implies !s0.children_of(x).contains(id) by {
            assert(s0.node_ok(x));
            if s0.children_of(x).contains(id) {
                let k = choose|k: int|
                    0 <= k < s0.children_of(x).len() && s0.children_of(x)[k] == id;
                assert(s0.has(s0.children_of(x)[k] as int));
            }
        }
        assert forall|x: int| s1.has(x) implies #[trigger] s1.node_ok(x) by {
            if x < s0.count() {
                assert(s0.node_ok(x));
                assert(s1.transform(x).parent_link() == s0.transform(x).parent_link());
                if let Some(p) = s0.parent_of(x) {
                    assert(s0.children_of(p as int).contains(x as u32));
                    if parent == Some(TransformID(p)) {
                        assert(s1.children_of(p as int) == s0.children_of(p as int).push(id));
                        let k = choose|k: int|
                            0 <= k < s0.children_of(p as int).len() && s0.children_of(p as int)[k]
                                == x as u32;
                        assert(s1.children_of(p as int)[k] == x as u32);
                    }
                } else {
                    let k = choose|k: int| 0 <= k < s0.roots().len() && s0.roots()[k] == x as u32;
                    if parent is None {
                        assert(s1.roots()[k] == x as u32);
                    }
                }
                if parent == Some(TransformID(x as u32)) {
                    assert(s1.children_of(x) == s0.children_of(x).push(id));
                    assert forall|k: int| 0 <= k < s1.children_of(x).len() implies {
                        let c = #[trigger] s1.children_of(x)[k] as int;
                        s1.has(c) && s1.parent_of(c) == Some(x as u32)
                    } by {
                        if k < s0.children_of(x).len() {
                            let c = s0.children_of(x)[k] as int;
                            assert(s0.has(c));
                        }
                    }
                } else {
                    assert(s1.children_of(x) == s0.children_of(x));
                    assert forall|k: int| 0 <= k < s1.children_of(x).len() implies {
                        let c = #[trigger] s1.children_of(x)[k] as int;
                        s1.has(c) && s1.parent_of(c) == Some(x as u32)
                    } by {
                        let c = s0.children_of(x)[k] as int;
                        assert(s0.has(c));
                    }
                }
            } else {
                assert(x == id);
                match parent {
                    Some(p) => {
                        assert(s1.children_of(p@ as int) == s0.children_of(p@ as int).push(id));
                        assert(s1.children_of(p@ as int).last() == id);
                        assert(s0.node_ok(p@ as int));
                    },
                    None => {
                        assert(s1.roots() == s0.roots().push(id));
                        assert(s1.roots().last() == id);
                    },
                }
            }
        }
        assert forall|k: int| 0 <= k < s1.roots().len() implies {
            let r = #[trigger] s1.roots()[k] as int;
            s1.has(r) && s1.parent_of(r) is None
        } by {
            if k < s0.roots().len() {
                assert(s1.roots()[k] == s0.roots()[k]);
            }
        }
        TransformID(id)
    }

    /// Adds a top-level transform with default placement and returns its identifier.
    pub fn next(&mut self) -> (r: Option<TransformID>)
        requires
            old(self).wf(),
            old(self).next_free() < u32::MAX,
        ensures
            final(self).wf(),
            r matches Some(id) && id@ == old(self).next_free() && final(self).parent_of(id@ as int) is None,
            final(self).count() == old(self).count() + 1,
            final(self).next_free() == old(self).next_free() + 1,
    {
        Some(self.add_transform(None))
    }


    /// Flag the global model of the corresponding transform and all its children as dirty
    ///
    /// Dirty models are recalculated when they are next retrived
    #[verifier::spinoff_prover]
    fn dirty(&mut self, id: u32) -> (r: Result<(), TransformError>)
        requires
            old(self).wf(),
        ensures
            final(self).wf(),
            final(self).same_links(old(self)),
            r is Ok <==> old(self).has(id as int),
            final(self).dirtied_from(old(self), id as int),
        decreases old(self).count() - old(self).level_of(id as int),
    {
        if id as usize >= self.transforms.len() {
            assert(self.dirtied_from(old(self), id as int));
            return Err(TransformError::IDNotFound);
        }
        let ghost s0 = *self;
        self.transforms[id as usize].global_cached = false;
        let ghost s1 = *self;
        assert(s1.same_links(&s0));
        proof {
            s1.lemma_same_links_wf(&s0);
            s0.lemma_subtree_self(id as int);
        }
        let n = self.transforms[id as usize].children.len();
        let mut k: usize = 0;
        while k < n
            invariant
                s0 == *old(self),
                self.wf(),
                self.same_links(&s0),
                s0.wf(),
                s0.has(id as int),
                n == s0.children_of(id as int).len(),
                k <= n,
                forall|x: int|
                    s0.has(x) ==> {
                        &&& #[trigger] self.transform(x).global_ok() == (s0.transform(x).global_ok()
                            && !(x == id || s0.below_children(id as int, k as int, x)))
                        &&& self.transform(x).local_ok() == s0.transform(x).local_ok()
                        &&& self.transform(x).last_ok() == s0.transform(x).last_ok()
                    },
            decreases n - k,
        {
            assert(self.transforms@[id as int].parent == s0.transforms@[id as int].parent);
            assert(self.transforms@[id as int].children@ == s0.transforms@[id as int].children@);
            let c = self.transforms[id as usize].children[k];
            assert(s0.node_ok(id as int));
            assert(s0.has(c as int) && s0.parent_of(c as int) == Some(id));
            assert(s0.node_ok(c as int));
            proof {
                s0.lemma_level_bound(c as int);
                self.lemma_same_links_wf(&s0);
            }
            let ghost before = *self;
            assert(self.level_of(c as int) == s0.level_of(c as int));
            assert(self.level_of(id as int) == s0.level_of(id as int));
            assert(self.count() == s0.count());
            assert(0 <= self.count() - self.level_of(c as int));
            assert(self.count() - self.level_of(c as int) < s0.count() - s0.level_of(id as int));
            match self.dirty(c) {
                Ok(()) => {},
                Err(e) => {
                    assert(false);
                    return Err(e);
                },
            }
            proof {
                self.lemma_same_links_wf(&before);
                assert(self.same_links(&s0));
                before.lemma_same_links_wf(&s0);
                assert forall|x: int| s0.has(x) implies {
                    &&& #[trigger] self.transform(x).global_ok() == (s0.transform(x).global_ok()
                        && !(x == id || s0.below_children(id as int, (k + 1) as int, x)))
                    &&& self.transform(x).local_ok() == s0.transform(x).local_ok()
                    &&& self.transform(x).last_ok() == s0.transform(x).last_ok()
                } by {
                    assert(before.has(x));
                    assert(before.transform(x).global_ok() == (s0.transform(x).global_ok() && !(x
                        == id || s0.below_children(id as int, k as int, x))));
                    assert(self.dirtied_from(&before, c as int));
                    assert(self.transform(x).global_ok() == (before.transform(x).global_ok()
                        && !before.in_subtree(x, c as int)));
                    assert(before.in_subtree(x, c as int) == s0.in_subtree(x, c as int));
                    assert(s0.children_of(id as int)[k as int] == c);
                    if s0.in_subtree(x, c as int) {
                        assert(s0.in_subtree(x, s0.children_of(id as int)[k as int] as int));
                        assert(s0.below_children(id as int, (k + 1) as int, x));
                    }
                    if s0.below_children(id as int, (k + 1) as int, x) && !s0.below_children(
                        id as int,
                        k as int,
                        x,
                    ) {
                        let j = choose|j: int|
                            0 <= j < k + 1 && #[trigger] s0.in_subtree(
                                x,
                                s0.children_of(id as int)[j] as int,
                            );
                        assert(j == k);
                    }
                }
            }
            k = k + 1;
        }
        proof {
            assert forall|x: int| s0.has(x) implies {
                &&& #[trigger] self.transform(x).global_ok() == (s0.transform(x).global_ok()
                    && !s0.in_subtree(x, id as int))
                &&& self.transform(x).local_ok() == s0.transform(x).local_ok()
                &&& self.transform(x).last_ok() == s0.transform(x).last_ok()
            } by {
                if x != id && s0.in_subtree(x, id as int) {
                    let j = s0.lemma_subtree_via_child(x, id as int);
                    assert(s0.in_subtree(x, s0.children_of(id as int)[j] as int));
                    assert(s0.below_children(id as int, n as int, x));
                }
                if s0.below_children(id as int, n as int, x) {
                    let j = choose|j: int|
                        0 <= j < n && #[trigger] s0.in_subtree(x, s0.children_of(id as int)[j] as int);
                    let c = s0.children_of(id as int)[j] as int;
                    assert(s0.node_ok(id as int));
                    s0.lemma_subtree_in(x, c, id as int);
                }
            }
            assert(self.dirtied_from(old(self), id as int));
        }
        Ok(())
    }

    /// Position of `x` in `v`.
    fn find_index(v: &Vec<u32>, x: u32) -> (k: usize)
        requires
            v@.contains(x),
        ensures
            k < v.len(),
            v@[k as int] == x,
    {
        let mut k: usize = 0;
        while k < v.len()
            invariant
                v@.contains(x),
                k <= v.len(),
                forall|j: int| 0 <= j < k ==> v@[j] != x,
            decreases v.len() - k,
        {
            if v[k] == x {
                return k;
            }
            k = k + 1;
        }
        proof {
            let j = choose|j: int| 0 <= j < v@.len() && v@[j] == x;
        }
        0
    }

    /// swaps parent of child with given parent, dirtying the child accordingly
    ///
    /// `parent` must not be `child` or one of its descendants: the hierarchy would no longer
    /// be a tree, and a later walk down from the roots would never end.
    ///
    /// Both ids are checked before anything changes: when either is missing, the call fails
    /// with `IDNotFound` and leaves the system as it was (the child is not detached from its
    /// old parent first).
    #[verifier::spinoff_prover]
    pub fn set_parent(&mut self, child: &TransformID, parent: Option<TransformID>) -> (r: Result<
        (),
        TransformError,
    >)
        requires
            old(self).wf(),
            parent matches Some(p) ==> !old(self).in_subtree(p@ as int, child@ as int),
        ensures
            final(self).wf(),
            final(self).count() == old(self).count(),
            r is Err <==> !old(self).has(child@ as int) || (parent matches Some(p) && !old(self).has(p@ as int)),
            r is Err ==> r == Err::<(), TransformError>(TransformError::IDNotFound) && *final(self)
                == *old(self),
            r is Ok ==> {
                &&& final(self).dirtied_from(old(self), child@ as int)
                &&& final(self).parent_of(child@ as int) == match parent {
                    Some(p) => Some(p@),
                    None => None::<u32>,
                }
                &&& forall|x: int|
                    old(self).has(x) && x != child@ ==> #[trigger] final(self).parent_of(x) == old(self).parent_of(x)
                &&& forall|x: int, y: u32|
                    old(self).has(x) ==> (#[trigger] final(self).children_of(x).contains(y) <==> (old(
                        self,
                    ).children_of(x).contains(y) && y != child@) || (parent matches Some(p) && p@
                        == x && y == child@))
                &&& forall|y: u32|
                    #[trigger] final(self).roots().contains(y) <==> (old(self).roots().contains(y) && y
                        != child@) || (parent is None && y == child@)
            },
    {
        let c = child.0;
        if c as usize >= self.transforms.len() {
            return Err(TransformError::IDNotFound);
        }
        let np: Option<u32> = match parent {
            Some(p) => {
                if p.0 as usize >= self.transforms.len() {
                    return Err(TransformError::IDNotFound);
                }
                Some(p.0)
            },
            None => None,
        };
        let ghost s0 = *self;
        let _ = self.dirty(c);
        let ghost s1 = *self;
        proof {
            s1.lemma_same_links_wf(&s0);
            assert(s1.transforms@[c as int].parent == s0.transforms@[c as int].parent);
            assert(s0.node_ok(c as int));
        }
        let old_parent = self.transforms[c as usize].parent;
        match old_parent {
            Some(op) => {
                assert(self.transforms@[op as int].parent == s0.transforms@[op as int].parent);
                let k = Self::find_index(&self.transforms[op as usize].children, c);
                proof {
                    assert(s0.node_ok(op as int));
                    Self::lemma_remove_distinct(self.transforms@[op as int].children@, k as int);
                }
                self.transforms[op as usize].children.remove(k);
            },
            None => {
                let k = Self::find_index(&self.root, c);
                proof {
                    Self::lemma_remove_distinct(self.root@, k as int);
                }
                self.root.remove(k);
            },
        }
        let ghost s2 = *self;
        match np {
            Some(p) => {
                proof {
                    assert(s1.transforms@[p as int].parent == s0.transforms@[p as int].parent);
                    assert(s0.node_ok(p as int));
                    if s2.children_of(p as int).contains(c) {
                        assert(s0.children_of(p as int).contains(c));
                        let j = choose|j: int|
                            0 <= j < s0.children_of(p as int).len() && s0.children_of(p as int)[j]
                                == c;
                        assert(s0.parent_of(s0.children_of(p as int)[j] as int) == Some(p));
                    }
                    Self::lemma_push_distinct(s2.children_of(p as int), c);
                }
                self.transforms[p as usize].children.push(c);
            },
            None => {
                proof {
                    if s2.roots().contains(c) {
                        assert(s0.roots().contains(c));
                        let j = choose|j: int| 0 <= j < s0.roots().len() && s0.roots()[j] == c;
                        assert(s0.parent_of(s0.roots()[j] as int) is None);
                    }
                    Self::lemma_push_distinct(s2.roots(), c);
                }
                self.root.push(c);
            },
        }
        self.transforms[c as usize].parent = np;
        let ghost lc: nat = match np {
            Some(p) => s0.level_of(p as int) + 1,
            None => 0,
        };
        self.level = Ghost(
            Seq::new(
                s0.count(),
                |x: int|
                    if s0.in_subtree(x, c as int) {
                        (s0.level_of(x) - s0.level_of(c as int) + lc) as nat
                    } else {
                        s0.level_of(x)
                    },
            ),
        );
        proof {
            let s3 = *self;
            assert forall|x: int| s0.has(x) implies #[trigger] s3.parent_of(x) == if x == c {
                np
            } else {
                s0.parent_of(x)
            } by {
                assert(s1.transforms@[x].parent == s0.transforms@[x].parent);
            }
            assert forall|x: int| s0.has(x) implies #[trigger] s3.children_of(x).no_duplicates() by {
                assert(s1.transforms@[x].parent == s0.transforms@[x].parent);
                assert(s0.node_ok(x));
            }
            assert forall|x: int, y: u32|
                s0.has(x) implies (#[trigger] s3.children_of(x).contains(y) <==> (s0.children_of(
                x,
            ).contains(y) && y != c) || (np == Some(x as u32) && y == c)) by {
                assert(s1.transforms@[x].parent == s0.transforms@[x].parent);
                if old_parent != Some(x as u32) && np != Some(x as u32) {
                    assert(s3.children_of(x) == s0.children_of(x));
                    if s0.children_of(x).contains(c) {
                        let j = choose|j: int|
                            0 <= j < s0.children_of(x).len() && s0.children_of(x)[j] == c;
                        assert(s0.node_ok(x));
                        assert(s0.parent_of(s0.children_of(x)[j] as int) == Some(x as u32));
                    }
                }
            }
            assert forall|y: u32|
                #[trigger] s3.roots().contains(y) <==> (s0.roots().contains(y) && y != c) || (np
                    is None && y == c) by {
                if old_parent is Some && np is Some {
                    assert(s3.roots() == s0.roots());
                    if s0.roots().contains(c) {
                        let j = choose|j: int| 0 <= j < s0.roots().len() && s0.roots()[j] == c;
                        assert(s0.parent_of(s0.roots()[j] as int) is None);
                    }
                }
            }
            assert(s3.level@ =~= Seq::new(
                s0.count(),
                |x: int|
                    if s0.in_subtree(x, c as int) {
                        (s0.level_of(x) - s0.level_of(c as int) + match np {
                            Some(p) => s0.level_of(p as int) + 1,
                            None => 0,
                        }) as nat
                    } else {
                        s0.level_of(x)
                    },
            ));
            Self::lemma_relink(&s0, &s3, c as int, np);
            assert(s3.dirtied_from(&s0, c as int)) by {
                assert forall|x: int| s0.has(x) implies {
                    &&& #[trigger] s3.transform(x).global_ok() == (s0.transform(x).global_ok()
                        && !s0.in_subtree(x, c as int))
                    &&& s3.transform(x).local_ok() == s0.transform(x).local_ok()
                    &&& s3.transform(x).last_ok() == s0.transform(x).last_ok()
                } by {
                    assert(s1.dirtied_from(&s0, c as int));
                    assert(s3.transform(x).global_ok() == s1.transform(x).global_ok());
                }
            }
        }
        Ok(())
    }

    /// The transforms from the top of the hierarchy down to `id`, each with whether its local
    /// and global models must be recomputed (in that order, each global model being the
    /// parent's global model times the local model); those models are then marked up to date.
    #[verifier::spinoff_prover]
    pub fn global_model_steps(&mut self, id: &TransformID) -> (r: Result<
        Vec<ModelStep>,
        TransformError,
    >)
        requires
            old(self).wf(),
        ensures
            final(self).wf(),
            final(self).same_links(old(self)),
            r is Err <==> !old(self).has(id@ as int),
            r is Err ==> r == Err::<Vec<ModelStep>, TransformError>(TransformError::IDNotFound)
                && *final(self) == *old(self),
            r matches Ok(steps) ==> old(self).steps_for(id@ as int, steps@) && final(self).cleaned_from(old(self), id@ as int),
    {
        let x = id.0;
        if x as usize >= self.transforms.len() {
            return Err(TransformError::IDNotFound);
        }
        let ghost s0 = *self;
        let ghost top = s0.level_of(x as int);
        // walk up to the top of the hierarchy
        let mut ups: Vec<u32> = Vec::new();
        let mut cur = x;
        proof {
            s0.lemma_ancestor_level(x as int, 0);
        }
        loop
            invariant_except_break
                ups@.len() <= top,
                s0.ancestor(x as int, ups@.len() as nat) == Some(cur as int),
                s0.level_of(cur as int) == top - ups@.len(),
            invariant
                s0 == *self,
                s0.wf(),
                s0.has(x as int),
                top == s0.level_of(x as int),
                s0.has(cur as int),
                forall|i: int|
                    0 <= i < ups@.len() ==> s0.ancestor(x as int, i as nat) == Some(
                        #[trigger] ups@[i] as int,
                    ),
            ensures
                ups@.len() == top + 1,
                forall|i: int|
                    0 <= i < ups@.len() ==> s0.ancestor(x as int, i as nat) == Some(
                        #[trigger] ups@[i] as int,
                    ),
            decreases s0.level_of(cur as int),
        {
            let ghost j = ups@.len();
            assert(s0.node_ok(cur as int));
            ups.push(cur);
            match self.transforms[cur as usize].parent {
                Some(p) => {
                    proof {
                        s0.lemma_ancestor_compose(x as int, j, 1);
                        assert(s0.ancestor(cur as int, 1) == s0.ancestor(p as int, 0));
                    }
                    cur = p;
                },
                None => {
                    assert(s0.level_of(cur as int) == 0);
                    assert(ups@[j as int] == cur);
                    break ;
                },
            }
        }
        let n = ups.len();
        let ghost ancestors = ups@;
        proof {
            assert forall|i: int| 0 <= i < n implies s0.in_subtree(x as int, #[trigger] ancestors[i] as int)
                && s0.level_of(ancestors[i] as int) == top - i by {
                s0.lemma_ancestor_level(x as int, i as nat);
                s0.lemma_ancestor_chain(x as int, i as nat);
            }
        }
        let mut steps: Vec<ModelStep> = Vec::new();
        let mut k: usize = 0;
        while k < n
            invariant
                s0.wf(),
                s0.has(x as int),
                top == s0.level_of(x as int),
                n == top + 1,
                ups@ == ancestors,
                ups.len() == n,
                forall|i: int|
                    0 <= i < n ==> s0.in_subtree(x as int, #[trigger] ancestors[i] as int)
                        && s0.level_of(ancestors[i] as int) == top - i,
                forall|i: int|
                    0 <= i < n ==> s0.ancestor(x as int, i as nat) == Some(
                        #[trigger] ancestors[i] as int,
                    ),
                k <= n,
                self.same_links(&s0),
                steps@.len() == k,
                forall|i: int|
                    0 <= i < k ==> {
                        let a = s0.ancestor(x as int, (top - i) as nat).unwrap();
                        &&& (#[trigger] steps@[i]).id@ == a
                        &&& steps@[i].recompute_global == !s0.transform(a).global_ok()
                        &&& steps@[i].recompute_local == (!s0.transform(a).global_ok()
                            && !s0.transform(a).local_ok())
                    },
                forall|y: int|
                    s0.has(y) ==> {
                        let done = s0.in_subtree(x as int, y) && s0.level_of(y) < k;
                        &&& #[trigger] self.transform(y).global_ok() == (s0.transform(y).global_ok()
                            || done)
                        &&& self.transform(y).local_ok() == (s0.transform(y).local_ok() || (done
                            && !s0.transform(y).global_ok()))
                        &&& self.transform(y).last_ok() == s0.transform(y).last_ok()
                    },
            decreases n - k,
        {
            let a = ups[n - 1 - k];
            proof {
                assert(s0.in_subtree(x as int, ancestors[n - 1 - k] as int));
            }
            assert(self.transforms@[a as int].parent == s0.transforms@[a as int].parent);
            let g = self.transforms[a as usize].global_cached;
            let l = self.transforms[a as usize].local_cached;
            proof {
                assert(s0.level_of(a as int) == k);
                assert(self.transform(a as int).global_ok() == s0.transform(a as int).global_ok());
                assert(s0.ancestor(x as int, (top - k) as nat) == Some(ancestors[top - k] as int));
                assert(ancestors[top - k] == a);
            }
            let ghost prev = *self;
            let ghost steps_before = steps@;
            steps.push(ModelStep { id: TransformID(a), recompute_local: !g && !l, recompute_global: !g });
            if !g {
                self.transforms[a as usize].local_cached = true;
                self.transforms[a as usize].global_cached = true;
            }
            proof {
                assert forall|i: int| 0 <= i < k + 1 implies {
                    let b = s0.ancestor(x as int, (top - i) as nat).unwrap();
                    &&& (#[trigger] steps@[i]).id@ == b
                    &&& steps@[i].recompute_global == !s0.transform(b).global_ok()
                    &&& steps@[i].recompute_local == (!s0.transform(b).global_ok()
                        && !s0.transform(b).local_ok())
                } by {
                    if i < k {
                        assert(steps@[i] == steps_before[i]);
                    }
                }
                assert(forall|y: int| 0 <= y < s0.count() && y != a ==> #[trigger] self.transforms@[y] == prev.transforms@[y]);
                let lvl = s0.level_of(a as int);
                assert(lvl == k);
                assert forall|y: int| s0.has(y) implies {
                    let done = s0.in_subtree(x as int, y) && s0.level_of(y) < k + 1;
                    &&& #[trigger] self.transform(y).global_ok() == (s0.transform(y).global_ok()
                        || done)
                    &&& self.transform(y).local_ok() == (s0.transform(y).local_ok() || (done
                        && !s0.transform(y).global_ok()))
                    &&& self.transform(y).last_ok() == s0.transform(y).last_ok()
                } by {
                    assert(prev.transform(y).global_ok() == (s0.transform(y).global_ok() || (
                    s0.in_subtree(x as int, y) && s0.level_of(y) < k)));
                    if y == a as int {
                        assert(s0.in_subtree(x as int, y));
                        if g {
                            assert(self.transforms@[y] == prev.transforms@[y]);
                        }
                    } else {
                        assert(self.transforms@[y] == prev.transforms@[y]);
                        if s0.in_subtree(x as int, y) && s0.level_of(y) == lvl {
                            // the ancestor at a given level is unique
                            let m = (top - lvl) as nat;
                            assert(s0.ancestor(x as int, m) == Some(y));
                            assert(s0.ancestor(x as int, m) == Some(a as int));
                        }
                    }
                }
                assert(s0.ancestor(x as int, (top - k) as nat) == Some(ancestors[n - 1 - k] as int));
            }
            k = k + 1;
        }
        proof {
            assert forall|y: int| s0.has(y) && s0.in_subtree(x as int, y) implies s0.level_of(y) < n by {}
            assert(self.cleaned_from(&s0, x as int));
            Self::lemma_same_links_wf(self, &s0);
        }
        Ok(steps)
    }

    /// Cleans the models on the way to `id` (see `global_model_steps`) and records that the
    /// global model of `id` is kept as its last model.
    #[verifier::spinoff_prover]
    pub fn store_last_model(&mut self, id: &TransformID) -> (r: Result<
        Vec<ModelStep>,
        TransformError,
    >)
        requires
            old(self).wf(),
        ensures
            final(self).wf(),
            r is Err <==> !old(self).has(id@ as int),
            r is Err ==> *final(self) == *old(self),
            r matches Ok(steps) ==> old(self).steps_for(id@ as int, steps@) && final(self).same_links(
                old(self),
            ) && final(self).stored_from(old(self), id@ as int),
    {
        let ghost s0 = *self;
        let steps = match self.global_model_steps(id) {
            Ok(steps) => steps,
            Err(e) => {
                return Err(e);
            },
        };
        let ghost s1 = *self;
        self.transforms[id.0 as usize].last_stored = true;
        proof {
            assert(self.same_links(&s1));
            self.lemma_same_links_wf(&s1);
            assert(self.same_links(&s0));
            assert forall|x: int| s0.has(x) implies {
                &&& #[trigger] self.transform(x).global_ok() == (s0.transform(x).global_ok()
                    || s0.in_subtree(id@ as int, x))
                &&& self.transform(x).local_ok() == (s0.transform(x).local_ok() || (s0.in_subtree(
                    id@ as int,
                    x,
                ) && !s0.transform(x).global_ok()))
                &&& self.transform(x).last_ok() == (s0.transform(x).last_ok() || x == id@)
            } by {
                assert(s1.transform(x).global_ok() == (s0.transform(x).global_ok()
                    || s0.in_subtree(id@ as int, x)));
            }
        }
        Ok(steps)
    }

    /// Forgets the last model of `id`.
    pub fn clear_last_model(&mut self, id: &TransformID) -> (r: Result<(), TransformError>)
        requires
            old(self).wf(),
        ensures
            final(self).wf(),
            r is Err <==> !old(self).has(id@ as int),
            r is Err ==> *final(self) == *old(self),
            r is Ok ==> {
                &&& !final(self).transform(id@ as int).last_ok()
                &&& final(self).transform(id@ as int).global_ok() == old(self).transform(
                    id@ as int,
                ).global_ok()
                &&& final(self).transform(id@ as int).local_ok() == old(self).transform(
                    id@ as int,
                ).local_ok()
                &&& final(self).same_links(old(self))
                &&& forall|x: int|
                    old(self).has(x) && x != id@ ==> #[trigger] final(self).transform(x) == old(
                        self,
                    ).transform(x)
            },
    {
        if id.0 as usize >= self.transforms.len() {
            return Err(TransformError::IDNotFound);
        }
        let ghost s0 = *self;
        self.transforms[id.0 as usize].last_stored = false;
        proof {
            assert(self.same_links(&s0));
            self.lemma_same_links_wf(&s0);
        }
        Ok(())
    }

    /// The steps to the global model of `id` (see `global_model_steps`), and whether a last
    /// model is stored to interpolate from.
    pub fn get_lerp_model(&mut self, id: &TransformID) -> (r: Result<
        (Vec<ModelStep>, bool),
        TransformError,
    >)
        requires
            old(self).wf(),
        ensures
            final(self).wf(),
            r is Err <==> !old(self).has(id@ as int),
            r matches Ok((steps, last)) ==> old(self).steps_for(id@ as int, steps@) && last == old(self).transform(id@ as int).last_ok() && final(self).cleaned_from(old(self), id@ as int),
    {
        let steps = match self.global_model_steps(id) {
            Ok(steps) => steps,
            Err(e) => {
                return Err(e);
            },
        };
        let last = self.transforms[id.0 as usize].last_stored;
        assert(self.transform(id@ as int).global_ok());
        assert(self.transform(id@ as int).last_ok() == old(self).transform(id@ as int).last_ok());
        Ok((steps, last))
    }

    /// What `edited_after_dirty` states of the transforms: `id` is `t`, the others keep their
    /// links, only lose their global models where `dirty(id)` reaches them, and the roots stay.
    pub proof fn lemma_edited_after_dirty(&self, old: &Self, id: int, t: Transform)
        requires
            self.edited_after_dirty(old, id, t),
        ensures
            self.count() == old.count(),
            self.transform(id) == t,
            self.roots() == old.roots(),
            forall|x: int|
                old.has(x) && x != id ==> {
                    &&& #[trigger] self.transform(x).global_ok() == (old.transform(x).global_ok()
                        && !old.in_subtree(x, id))
                    &&& self.transform(x).local_ok() == old.transform(x).local_ok()
                    &&& self.transform(x).last_ok() == old.transform(x).last_ok()
                    &&& self.parent_of(x) == old.parent_of(x)
                    &&& self.children_of(x) == old.children_of(x)
                },
    {
    }

    /// In a well-formed system the roots are the transforms without a parent, a root is at
    /// level 0, and a child one level below its parent.
    pub proof fn lemma_links(&self, x: int)
        requires
            self.wf(),
            self.has(x),
        ensures
            self.roots().contains(x as u32) <==> self.parent_of(x) is None,
            self.level_of(x) == match self.parent_of(x) {
                None => 0,
                Some(p) => self.level_of(p as int) + 1,
            },
            self.parent_of(x) matches Some(p) ==> self.has(p as int),
    {
        assert(self.node_ok(x));
        if self.roots().contains(x as u32) {
            let k = choose|k: int| 0 <= k < self.roots().len() && self.roots()[k] == x as u32;
            assert(self.has(self.roots()[k] as int));
        }
    }

    /// `x` lies in the subtree of `c` exactly when it is `c` or its parent lies there.
    pub proof fn lemma_in_subtree(&self, x: int, c: int)
        requires
            self.wf(),
        ensures
            self.in_subtree(x, c) <==> self.has(x) && self.has(c) && (x == c || (self.parent_of(
                x,
            ) matches Some(p) && self.in_subtree(p as int, c))),
    {
        if self.has(x) && self.has(c) {
            self.lemma_links(x);
            if let Some(p) = self.parent_of(x) {
                if self.level_of(c) <= self.level_of(x) && self.level_of(x) != self.level_of(c) {
                    assert(self.ancestor(x, (self.level_of(x) - self.level_of(c)) as nat)
                        == self.ancestor(p as int, (self.level_of(p as int) - self.level_of(c)) as nat));
                }
            }
        }
    }

    /// `self` is `old` after `dirty(id)`, with the transform `id` itself replaced by `t`.
    pub closed spec fn edited_after_dirty(&self, old: &Self, id: int, t: Transform) -> bool {
        &&& self.root@ == old.root@
        &&& self.next_id == old.next_id
        &&& self.level@ == old.level@
        &&& self.transforms@.len() == old.transforms@.len()
        &&& self.transforms@[id] == t
        &&& forall|x: int|
            old.has(x) && x != id ==> {
                &&& #[trigger] self.transform(x).global_ok() == (old.transform(x).global_ok()
                    && !old.in_subtree(x, id))
                &&& self.transform(x).local_ok() == old.transform(x).local_ok()
                &&& self.transform(x).last_ok() == old.transform(x).last_ok()
                &&& self.parent_of(x) == old.parent_of(x)
                &&& self.children_of(x) == old.children_of(x)
            }
    }

    proof fn lemma_edit_wf(&self, old: &Self, id: int, t: Transform)
        requires
            old.wf(),
            old.has(id),
            self.edited_after_dirty(old, id, t),
            t.parent == old.transforms@[id].parent,
            t.children@ == old.transforms@[id].children@,
        ensures
            self.wf(),
            self.same_links(old),
    {
        assert forall|x: int| 0 <= x < self.transforms@.len() implies #[trigger] self.transforms@[x].parent
            == old.transforms@[x].parent && self.transforms@[x].children@
            == old.transforms@[x].children@ by {
            if x != id {
                assert(self.transform(x).global_ok() == (old.transform(x).global_ok()
                    && !old.in_subtree(x, id)));
            }
        }
        self.lemma_same_links_wf(old);
    }

    /// Marks the global models of `id` and its descendants out of date and hands out the
    /// transform of `id` for changes.
    ///
    /// As long as the caller leaves its parent and children as they are (only
    /// `Transform::mark_changed` changes a transform from outside this module), the hierarchy
    /// stays well formed.
    #[verifier::spinoff_prover]
    pub fn get_transform_mut(&mut self, id: &TransformID) -> (r: Option<&mut Transform>)
        requires
            old(self).wf(),
        ensures
            r is Some <==> old(self).has(id@ as int),
            r is None ==> *final(self) == *old(self),
            r matches Some(t) ==> t.parent_link() == old(self).parent_of(id@ as int) && t.child_ids()
                == old(self).children_of(id@ as int),
            r matches Some(t) ==> !t.global_ok() && t.local_ok() == old(self).transform(
                id@ as int,
            ).local_ok() && t.last_ok() == old(self).transform(id@ as int).last_ok(),
            r matches Some(t) ==> final(self).edited_after_dirty(old(self), id@ as int, *final(t)),
            r matches Some(t) ==> (final(t).parent_link() == t.parent_link() && final(t).child_ids()
                == t.child_ids()) ==> final(self).wf() && final(self).same_links(old(self)),
    {
        let i = id.0;
        if i as usize >= self.transforms.len() {
            return None;
        }
        let ghost s0 = *self;
        let _ = self.dirty(i);
        let ghost s1 = *self;
        proof {
            s1.lemma_same_links_wf(&s0);
            assert(s1.transforms@[i as int].parent == s0.transforms@[i as int].parent);
            assert(s1.transforms@[i as int].children@ == s0.transforms@[i as int].children@);
            s0.lemma_subtree_self(i as int);
            assert forall|x: int| s0.has(x) && x != i implies s1.parent_of(x) == s0.parent_of(x)
                && s1.children_of(x) == s0.children_of(x) by {
                assert(s1.transforms@[x].parent == s0.transforms@[x].parent);
                assert(s1.transforms@[x].children@ == s0.transforms@[x].children@);
            }
        }
        proof {
            assert forall|s: Self|
                #![trigger s.wf()]
                #![trigger s.same_links(&s0)]
                s.edited_after_dirty(&s0, i as int, s.transforms@[i as int])
                    && s.transforms@[i as int].parent == s0.transforms@[i as int].parent
                    && s.transforms@[i as int].children@ == s0.transforms@[i as int].children@ implies s.wf()
                    && s.same_links(&s0) by {
                s.lemma_edit_wf(&s0, i as int, s.transforms@[i as int]);
            }
        }
        assert(!s1.transform(i as int).global_ok());
        assert(s1.transform(i as int).local_ok() == s0.transform(i as int).local_ok());
        assert(s1.transform(i as int).last_ok() == s0.transform(i as int).last_ok());
        let t = &mut self.transforms[i as usize];
        Some(t)
    }

    /// Whether transform `x` is `c` or one of its descendants (found by following parents
    /// from `x`). A transform can be given a new parent only from outside its own subtree.
    pub fn in_subtree_of(&self, x: &TransformID, c: &TransformID) -> (r: bool)
        requires
            self.wf(),
        ensures
            r == self.in_subtree(x@ as int, c@ as int),
    {
        let n = self.transforms.len();
        if x.0 as usize >= n || c.0 as usize >= n {
            return false;
        }
        let ghost xi = x@ as int;
        let ghost ci = c@ as int;
        let mut cur = x.0;
        let ghost mut k: nat = 0;
        proof {
            self.lemma_ancestor_level(xi, 0);
        }
        loop
            invariant
                self.wf(),
                xi == x@ as int,
                ci == c@ as int,
                self.has(xi),
                self.has(ci),
                k <= self.level_of(xi),
                self.ancestor(xi, k) == Some(cur as int),
                self.has(cur as int),
                self.level_of(cur as int) == self.level_of(xi) - k,
                forall|j: nat| j < k ==> #[trigger] self.ancestor(xi, j) != Some(ci),
            decreases self.level_of(cur as int),
        {
            if cur == c.0 {
                return true;
            }
            assert(self.node_ok(cur as int));
            match self.transforms[cur as usize].parent {
                None => {
                    proof {
                        assert(k == self.level_of(xi));
                        if self.in_subtree(xi, ci) {
                            let m = (self.level_of(xi) - self.level_of(ci)) as nat;
                            assert(self.ancestor(xi, m) == Some(ci));
                            assert(m <= k);
                        }
                    }
                    return false;
                },
                Some(p) => {
                    proof {
                        self.lemma_ancestor_compose(xi, k, 1);
                        assert(self.ancestor(cur as int, 1) == self.ancestor(p as int, 0));
                        assert forall|j: nat| j < k + 1 implies #[trigger] self.ancestor(xi, j) != Some(ci) by {
                            if j == k {
                                assert(self.ancestor(xi, k) == Some(cur as int));
                            }
                        }
                        k = k + 1;
                    }
                    cur = p;
                },
            }
        }
    }

    /// Identifiers are handed out from 0 upwards: a well-formed system holds exactly the
    /// transforms `0 .. next_free()`.
    pub proof fn lemma_ids_dense(&self)
        requires
            self.wf(),
        ensures
            self.count() == self.next_free(),
            forall|x: int| self.has(x) <==> 0 <= x < self.next_free(),
    {
    }

    /// Dirty models are recalculated when they are next retrieved: once the global models of
    /// `x` and its descendants are marked out of date, retrieving any of them recomputes its
    /// global model.
    pub proof fn law_dirty_recomputed(
        before: &Self,
        after: &Self,
        x: int,
        y: int,
        steps: Seq<ModelStep>,
    )
        requires
            before.wf(),
            after.same_links(before),
            after.dirtied_from(before, x),
            before.in_subtree(y, x),
            after.steps_for(y, steps),
        ensures
            steps.len() > 0,
            steps.last().id@ == y,
            steps.last().recompute_global,
    {
        let k = after.level_of(y) as int;
        assert(steps[k] == steps.last());
        assert(after.ancestor(y, 0) == Some(y));
        assert(after.transform(y).global_ok() == (before.transform(y).global_ok()
            && !before.in_subtree(y, x)));
    }

    /// Models are cached: once the models on the way to `id` have been brought up to date,
    /// asking for them again finds nothing to recompute.
    pub proof fn law_retrieval_is_cached(
        before: &Self,
        after: &Self,
        id: int,
        steps: Seq<ModelStep>,
    )
        requires
            before.wf(),
            before.has(id),
            after.same_links(before),
            after.cleaned_from(before, id),
            after.steps_for(id, steps),
        ensures
            forall|k: int|
                0 <= k < steps.len() ==> !(#[trigger] steps[k]).recompute_global
                    && !steps[k].recompute_local,
    {
        after.lemma_same_links_wf(before);
        assert forall|k: int| 0 <= k < steps.len() implies !(#[trigger] steps[k]).recompute_global
            && !steps[k].recompute_local by {
            let n = (after.level_of(id) - k) as nat;
            after.lemma_same_links_ancestor(before, id, n);
            before.lemma_ancestor_chain(id, n);
            before.lemma_ancestor_level(id, n);
            let a = before.ancestor(id, n).unwrap();
            assert(after.transform(a).global_ok());
        }
    }

    /// The identifier that the next added transform will get; transforms can be added while
    /// it is below `u32::MAX`.
    pub fn next_free_id(&self) -> (r: u32)
        ensures
            r == self.next_free(),
    {
        self.next_id
    }

    /// The transform of `id`, if it exists.
    pub fn get_transform(&self, id: &TransformID) -> (r: Option<&Transform>)
        ensures
            r is Some <==> self.has(id@ as int),
            r matches Some(t) ==> *t == self.transform(id@ as int),
    {
        if (id.0 as usize) < self.transforms.len() {
            Some(&self.transforms[id.0 as usize])
        } else {
            None
        }
    }
}

} // verus!
