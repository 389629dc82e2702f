use vstd::prelude::*;
use vstd::set_lib::*;

verus! {

/// A bounding volume hierarchy over leaves of type `T` whose volumes are of type `B`.
///
/// Nodes live in an arena (`nodes`), addressed by index. A branch stores the indices of its
/// two children; every node stores its parent, which side of the parent it hangs on, its
/// bounds and its depth (0 for a leaf, one more than the deeper child for a branch).
///
/// The geometry is supplied by the user: `join` builds the bounds enclosing two bounds, and
/// `prefer_left(left, right, new)` decides, while descending to insert `new`, whether to go
/// to the left child rather than the right one.
#[verifier::reject_recursive_types(B)]
pub struct BVH<T, B, J, C> where J: Fn(&B, &B) -> B, C: Fn(&B, &B, &B) -> bool {
    root: Option<usize>,
    nodes: Vec<Node<T, B>>,
    free: Vec<usize>,
    hierachy: u64,
    join: J,
    prefer_left: C,
}

/// A node of the hierarchy.
pub struct Node<T, B> {
    parent: Option<usize>,
    right_child: bool,
    bounds: B,
    depth: usize,
    content: NodeContent<T>,
}

/// What a node holds: two children, a leaf's collider, or nothing (a recycled slot).
pub enum NodeContent<T> {
    Branch(usize, usize),
    Leaf(T),
    Free,
}

/// Unique reference to a leaf inside a hierarchy; give it back to the hierarchy to remove
/// the leaf.
pub struct LeafInHierachy {
    leaf: usize,
    hierachy: u64,
}

/// A collider with its bounds, registered with a hierarchy but not inserted in it.
pub struct LeafOutsideHierachy<T, B> {
    collider: T,
    bounds: B,
    hierachy: u64,
}

/// Depth first iterator over the nodes of a `BVH`, yielding each node's bounds and depth: a
/// node, then the nodes of its left subtree, then those of its right subtree.
#[verifier::reject_recursive_types(B)]
pub struct DepthIter<'a, T, B, J, C> where J: Fn(&B, &B) -> B, C: Fn(&B, &B, &B) -> bool {
    tree: &'a BVH<T, B, J, C>,
    stack: Vec<usize>,
}

pub open spec fn max_usize(a: usize, b: usize) -> usize {
    if a < b {
        b
    } else {
        a
    }
}

/// Creates a `RandomState` with fresh random keys (std's `RandomState::new`). Nothing is
/// promised of the keys.
pub assume_specification[ std::hash::RandomState::new ]() -> (r: std::hash::RandomState);

/// Hashes the byte 0 with the given state (std's `BuildHasher::hash_one`). The value depends
/// on the state's random keys, so nothing is promised of it.
#[verifier::external_body]
fn hash_zero(state: &std::hash::RandomState) -> (h: u64) {
    std::hash::BuildHasher::hash_one(state, 0u8)
}

impl<T, B> Node<T, B> {
    pub closed spec fn parent_link(&self) -> Option<usize> {
        self.parent
    }

    pub closed spec fn on_right(&self) -> bool {
        self.right_child
    }

    pub closed spec fn cached_bounds(&self) -> B {
        self.bounds
    }

    pub closed spec fn cached_depth(&self) -> usize {
        self.depth
    }

    pub closed spec fn held(&self) -> NodeContent<T> {
        self.content
    }

    pub closed spec fn is_free(&self) -> bool {
        self.content is Free
    }

    pub closed spec fn is_branch(&self) -> bool {
        self.content is Branch
    }

    pub closed spec fn is_leaf(&self) -> bool {
        self.content is Leaf
    }

    /// Index of the child on the given side (meaningful for branches).
    pub closed spec fn child(&self, right: bool) -> int {
        match self.content {
            NodeContent::Branch(l, r) => if right {
                r as int
            } else {
                l as int
            },
            _ => -1,
        }
    }
}

impl LeafInHierachy {
    /// Index of the referenced leaf node.
    pub closed spec fn index(&self) -> int {
        self.leaf as int
    }

    /// Identity of the hierarchy the leaf belongs to.
    pub closed spec fn owner(&self) -> u64 {
        self.hierachy
    }
}

impl<T, B> LeafOutsideHierachy<T, B> {
    pub closed spec fn collider(&self) -> T {
        self.collider
    }

    pub closed spec fn bounds(&self) -> B {
        self.bounds
    }

    pub closed spec fn owner(&self) -> u64 {
        self.hierachy
    }
}

impl<T, B: Copy, J, C> BVH<T, B, J, C> where J: Fn(&B, &B) -> B, C: Fn(&B, &B, &B) -> bool {
    // ------------------------------------------------------------------
    // Model
    // ------------------------------------------------------------------
    pub closed spec fn id(&self) -> u64 {
        self.hierachy
    }

    pub closed spec fn join_fn(&self) -> J {
        self.join
    }

    pub closed spec fn choose_fn(&self) -> C {
        self.prefer_left
    }

    pub closed spec fn nodes(&self) -> Seq<Node<T, B>> {
        self.nodes@
    }

    pub closed spec fn root_index(&self) -> Option<usize> {
        self.root
    }

    pub closed spec fn node(&self, i: int) -> Node<T, B> {
        self.nodes()[i]
    }

    /// `i` is the index of a node that is part of the tree.
    pub closed spec fn live(&self, i: int) -> bool {
        0 <= i < self.nodes.len() && i < self.nodes().len() && !self.nodes()[i].is_free()
    }

    pub closed spec fn is_branch(&self, i: int) -> bool {
        self.live(i) && self.nodes()[i].is_branch()
    }

    pub closed spec fn is_leaf(&self, i: int) -> bool {
        self.live(i) && self.nodes()[i].is_leaf()
    }

    pub closed spec fn parent_of(&self, i: int) -> Option<usize> {
        self.nodes()[i].parent
    }

    pub closed spec fn side_of(&self, i: int) -> bool {
        self.nodes()[i].right_child
    }

    pub closed spec fn depth_of(&self, i: int) -> usize {
        self.nodes()[i].depth
    }

    pub closed spec fn bounds_of(&self, i: int) -> B {
        self.nodes()[i].bounds
    }

    /// Parent and child links around node `i` agree with each other.
    pub closed spec fn links_ok(&self, i: int) -> bool {
        self.live(i) ==> {
            &&& match self.parent_of(i) {
                None => self.root_index() == Some(i as usize) && !self.side_of(i),
                Some(p) => self.is_branch(p as int) && self.node(p as int).child(self.side_of(i))
                    == i,
            }
            &&& self.is_branch(i) ==> {
                let l = self.node(i).child(false);
                let r = self.node(i).child(true);
                &&& self.live(l)
                &&& self.live(r)
                &&& self.parent_of(l) == Some(i as usize)
                &&& !self.side_of(l)
                &&& self.parent_of(r) == Some(i as usize)
                &&& self.side_of(r)
            }
        }
    }

    /// The cached depth and bounds of node `i` are those computed from its children.
    pub closed spec fn cache_ok(&self, i: int) -> bool {
        self.live(i) ==> match self.node(i).content {
            NodeContent::Branch(l, r) => {
                &&& self.depth_of(i) == max_usize(self.depth_of(l as int), self.depth_of(r as int))
                    + 1
                &&& call_ensures(
                    self.join,
                    (&self.bounds_of(l as int), &self.bounds_of(r as int)),
                    self.bounds_of(i),
                )
            },
            NodeContent::Leaf(_) => self.depth_of(i) == 0,
            NodeContent::Free => true,
        }
    }

    pub closed spec fn root_ok(&self) -> bool {
        match self.root_index() {
            None => forall|i: int| 0 <= i < self.nodes().len() ==> !#[trigger] self.live(i),
            Some(r) => self.live(r as int) && self.parent_of(r as int) is None && !self.side_of(
                r as int,
            ),
        }
    }

    pub closed spec fn free_list(&self) -> Seq<usize> {
        self.free@
    }

    /// The recycled slots are exactly the free nodes, each listed once.
    pub closed spec fn free_ok(&self) -> bool {
        &&& self.free_list().no_duplicates()
        &&& forall|k: int|
            0 <= k < self.free_list().len() ==> {
                let f = #[trigger] self.free_list()[k] as int;
                0 <= f < self.nodes().len() && self.nodes()[f].is_free()
            }
        &&& forall|i: int|
            0 <= i < self.nodes().len() && #[trigger] self.nodes()[i].is_free()
                ==> self.free_list().contains(i as usize)
    }

    pub closed spec fn links_all(&self) -> bool {
        forall|i: int| #[trigger] self.links_ok(i)
    }

    /// The join and choice functions accept any arguments.
    pub closed spec fn fns_total(&self) -> bool {
        &&& forall|a: &B, b: &B| #[trigger] call_requires(self.join, (a, b))
        &&& forall|a: &B, b: &B, c: &B| #[trigger] call_requires(self.prefer_left, (a, b, c))
    }

    /// The hierarchy is well formed.
    pub closed spec fn wf(&self) -> bool {
        &&& self.root_ok()
        &&& self.free_ok()
        &&& self.links_all()
        &&& forall|i: int| #[trigger] self.cache_ok(i)
        &&& self.fns_total()
        &&& self.balanced()
    }

    /// The leaves of the hierarchy: leaf index to collider and bounds.
    pub closed spec fn leaves(&self) -> Map<int, (T, B)> {
        Map::new(
            |i: int| self.is_leaf(i),
            |i: int|
                match self.node(i).content {
                    NodeContent::Leaf(c) => (c, self.bounds_of(i)),
                    _ => arbitrary(),
                },
        )
    }

    /// `leaf_ref` refers to a leaf of this hierarchy.
    pub open spec fn owns(&self, leaf_ref: &LeafInHierachy) -> bool {
        leaf_ref.owner() == self.id() && self.leaves().contains_key(leaf_ref.index())
    }

    /// Depth of the tree: that of the root, 0 when empty.
    pub closed spec fn spec_depth(&self) -> usize {
        match self.root_index() {
            Some(r) => self.depth_of(r as int),
            None => 0,
        }
    }

    /// `path` lists a node and then its ancestors, up to the root, each once.
    pub closed spec fn is_path(&self, path: Seq<int>) -> bool {
        &&& path.len() > 0
        &&& path.no_duplicates()
        &&& forall|k: int| 0 <= k < path.len() ==> self.live(#[trigger] path[k])
        &&& forall|k: int|
            0 <= k < path.len() - 1 ==> self.parent_of(#[trigger] path[k]) == Some(
                path[k + 1] as usize,
            )
        &&& self.parent_of(path.last()) is None
    }

    /// Branch `i`, if it is one, has children whose cached depths differ by at most one.
    pub closed spec fn balanced_at(&self, i: int) -> bool {
        self.is_branch(i) ==> {
            let dl = self.depth_of(self.node(i).child(false));
            let dr = self.depth_of(self.node(i).child(true));
            dl <= dr + 1 && dr <= dl + 1
        }
    }

    /// Every branch has children whose depths differ by at most one.
    pub closed spec fn balanced(&self) -> bool {
        forall|i: int| #[trigger] self.balanced_at(i)
    }

    /// Every branch outside `path` has children whose depths differ by at most one.
    spec fn balanced_outside(&self, path: Seq<int>) -> bool {
        forall|i: int| !path.contains(i) ==> #[trigger] self.balanced_at(i)
    }

    /// Branch `q` of a path being restored still has its old cache, and was balanced.
    spec fn stale_ok(&self, q: int) -> bool {
        &&& self.is_branch(q)
        &&& self.depth_of(q) == self.child_depth(q) + 1
        &&& self.balanced_at(q)
    }

    /// Branch `i`, about to be restored, has child `ch` whose depth was `od` when the cached
    /// depth of `i` was computed, then balanced; the depth of `ch` moved by at most one since,
    /// and not at all when `changed` is false.
    spec fn settling(&self, i: int, ch: int, od: int, changed: bool) -> bool {
        let o = if self.node(i).child(false) == ch {
            self.node(i).child(true)
        } else {
            self.node(i).child(false)
        };
        let dch = self.depth_of(ch) as int;
        let dox = self.depth_of(o) as int;
        &&& self.is_branch(i)
        &&& (self.node(i).child(false) == ch || self.node(i).child(true) == ch)
        &&& self.depth_of(i) == (if od >= dox {
            od
        } else {
            dox
        }) + 1
        &&& od <= dox + 1
        &&& dox <= od + 1
        &&& dch <= od + 1
        &&& od <= dch + 1
        &&& (!changed ==> dch == od)
    }

    /// The greater of the cached depths of the children of branch `i`.
    spec fn child_depth(&self, i: int) -> int {
        max_usize(
            self.depth_of(self.node(i).child(false)),
            self.depth_of(self.node(i).child(true)),
        ) as int
    }

    /// Every live node outside `path` has exact cached depth and bounds.
    pub closed spec fn cache_ok_outside(&self, path: Seq<int>) -> bool {
        forall|i: int| !path.contains(i) ==> #[trigger] self.cache_ok(i)
    }

    /// A child of a node outside `path` is outside `path`.
    proof fn lemma_child_outside(&self, path: Seq<int>, x: int, y: int)
        requires
            self.is_path(path),
            !path.contains(x),
            self.live(x),
            self.live(y),
            self.parent_of(y) == Some(x as usize),
        ensures
            !path.contains(y),
    {
        if path.contains(y) {
            let m = choose|m: int| 0 <= m < path.len() && path[m] == y;
            if m < path.len() - 1 {
                assert(self.parent_of(path[m]) == Some(path[m + 1] as usize));
                assert(self.live(path[m + 1]));
                assert(path[m + 1] == x);
                assert(path.contains(x));
            } else {
                assert(path.last() == y);
            }
        }
    }

    /// A node whose subtree lies outside `path` has a depth below the arena size, shown by
    /// a chain of depth + 1 distinct nodes.
    proof fn chain_set(&self, path: Seq<int>, x: int) -> (s: Set<int>)
        requires
            self.links_all(),
            self.cache_ok_outside(path),
            self.is_path(path) || path.len() == 0,
            self.live(x),
            !path.contains(x),
        ensures
            s.finite(),
            s.len() == self.depth_of(x) + 1,
            forall|y: int| #[trigger] s.contains(y) ==> 0 <= y < self.nodes().len() && self.depth_of(y)
                <= self.depth_of(x),
        decreases self.depth_of(x),
    {
        assert(self.cache_ok(x));
        assert(self.links_ok(x));
        if self.depth_of(x) == 0 {
            let s = Set::empty().insert(x);
            assert(s.len() == 1);
            s
        } else {
            let l = self.node(x).child(false);
            let r = self.node(x).child(true);
            let y = if self.depth_of(l) < self.depth_of(r) {
                r
            } else {
                l
            };
            if path.len() > 0 {
                self.lemma_child_outside(path, x, y);
            }
            let s1 = self.chain_set(path, y);
            assert(!s1.contains(x));
            s1.insert(x)
        }
    }

    proof fn lemma_depth_lt_len(&self, path: Seq<int>, x: int)
        requires
            self.links_all(),
            self.cache_ok_outside(path),
            self.is_path(path) || path.len() == 0,
            self.live(x),
            !path.contains(x),
        ensures
            self.depth_of(x) < self.nodes().len(),
    {
        let s = self.chain_set(path, x);
        lemma_int_range(0, self.nodes().len() as int);
        assert(s.subset_of(set_int_range(0, self.nodes().len() as int)));
        lemma_len_subset(s, set_int_range(0, self.nodes().len() as int));
    }

    /// In a well-formed tree, the ancestors of a node form a path to the root.
    proof fn path_to_root(&self, x: int) -> (path: Seq<int>)
        requires
            self.links_all(),
            forall|i: int| #[trigger] self.cache_ok(i),
            self.live(x),
        ensures
            self.is_path(path),
            path[0] == x,
            forall|k: int| 0 <= k < path.len() ==> self.depth_of(#[trigger] path[k]) >= self.depth_of(x),
        decreases usize::MAX - self.depth_of(x),
    {
        assert(self.links_ok(x));
        match self.parent_of(x) {
            None => seq![x],
            Some(p) => {
                let p = p as int;
                assert(self.cache_ok(p));
                assert(self.depth_of(p) > self.depth_of(x));
                let rest = self.path_to_root(p);
                let path = seq![x] + rest;
                assert(path[0] == x);
                assert forall|k: int| 0 <= k < path.len() implies self.live(#[trigger] path[k]) by {
                    if k > 0 {
                        assert(path[k] == rest[k - 1]);
                    }
                }
                assert forall|k: int| 0 <= k < path.len() - 1 implies self.parent_of(
                    #[trigger] path[k],
                ) == Some(path[k + 1] as usize) by {
                    if k > 0 {
                        assert(path[k] == rest[k - 1]);
                        assert(path[k + 1] == rest[k]);
                    }
                }
                assert forall|k: int| 0 <= k < path.len() implies self.depth_of(#[trigger] path[k])
                    >= self.depth_of(x) by {
                    if k > 0 {
                        assert(path[k] == rest[k - 1]);
                    }
                }
                assert(!rest.contains(x)) by {
                    if rest.contains(x) {
                        let m = choose|m: int| 0 <= m < rest.len() && rest[m] == x;
                        assert(self.depth_of(rest[m]) >= self.depth_of(p));
                    }
                }
                assert(path.no_duplicates()) by {
                    assert forall|a: int, b: int|
                        0 <= a < path.len() && 0 <= b < path.len() && a != b implies path[a]
                        != path[b] by {
                        if a > 0 && b > 0 {
                            assert(path[a] == rest[a - 1]);
                            assert(path[b] == rest[b - 1]);
                        } else if a == 0 {
                            assert(path[b] == rest[b - 1]);
                        } else {
                            assert(path[a] == rest[a - 1]);
                        }
                    }
                }
                assert(path.last() == rest.last());
                path
            },
        }
    }

    /// Same structure and geometry; only nodes' caches may differ.
    pub closed spec fn same_frame(&self, other: &Self) -> bool {
        &&& self.root == other.root
        &&& self.free@ == other.free@
        &&& self.hierachy == other.hierachy
        &&& self.join == other.join
        &&& self.prefer_left == other.prefer_left
        &&& self.nodes@.len() == other.nodes@.len()
    }

    /// Recomputes the depth and bounds of branch `i` from its children.
    fn recompute(&mut self, i: usize, Ghost(path): Ghost<Seq<int>>)
        requires
            old(self).links_all(),
            old(self).fns_total(),
            old(self).is_branch(i as int),
            old(self).is_path(path) || path.len() == 0,
            old(self).cache_ok_outside(path),
            !path.contains(old(self).node(i as int).child(false)),
            !path.contains(old(self).node(i as int).child(true)),
            old(self).parent_of(i as int) != Some(i),
        ensures
            final(self).same_frame(old(self)),
            final(self).links_all(),
            final(self).fns_total(),
            final(self).cache_ok(i as int),
            forall|j: int|
                j != i && Some(j as usize) != old(self).parent_of(i as int) ==> (#[trigger] final(self).cache_ok(
                    j,
                ) == old(self).cache_ok(j)),
            forall|j: int|
                0 <= j < final(self).nodes().len() && j != i ==> #[trigger] final(self).nodes()[j] == old(
                    self,
                ).nodes()[j],
            final(self).node(i as int).content == old(self).node(i as int).content,
            final(self).parent_of(i as int) == old(self).parent_of(i as int),
            final(self).side_of(i as int) == old(self).side_of(i as int),
            final(self).is_path(path) || path.len() == 0,
    {
        let (l, r) = match &self.nodes[i].content {
            NodeContent::Branch(l, r) => (*l, *r),
            _ => {
                return ;
            },
        };
        assert(self.links_ok(i as int));
        proof {
            self.lemma_depth_lt_len(path, l as int);
            self.lemma_depth_lt_len(path, r as int);
        }
        let dl = self.nodes[l].depth;
        let dr = self.nodes[r].depth;
        let depth = if dl < dr {
            dr + 1
        } else {
            dl + 1
        };
        let bounds = (self.join)(&self.nodes[l].bounds, &self.nodes[r].bounds);
        let ghost before = *self;
        self.nodes[i].depth = depth;
        self.nodes[i].bounds = bounds;
        assert forall|j: int| #[trigger] self.links_ok(j) by {
            assert(before.links_ok(j));
        }
        assert forall|j: int|
            j != i && Some(j as usize) != before.parent_of(i as int) implies (#[trigger] self.cache_ok(
            j,
        ) == before.cache_ok(j)) by {
            assert(before.links_ok(j));
            if self.is_branch(j) {
                assert(self.node(j).child(false) != i);
                assert(self.node(j).child(true) != i);
            }
        }
        assert(path.len() > 0 ==> self.is_path(path)) by {
            if path.len() > 0 {
                assert forall|k: int| 0 <= k < path.len() implies self.live(#[trigger] path[k]) by {
                    assert(before.live(path[k]));
                }
                assert forall|k: int| 0 <= k < path.len() - 1 implies self.parent_of(
                    #[trigger] path[k],
                ) == Some(path[k + 1] as usize) by {
                    assert(before.parent_of(path[k]) == Some(path[k + 1] as usize));
                }
            }
        }
    }

    /// Every node whose parent lies off `path` and has a cached depth below 2 keeps that
    /// parent, which keeps its content and depth.
    spec fn keeps_low_branches(&self, old: &Self, path: Seq<int>) -> bool {
        forall|h: int|
            #![trigger self.parent_of(h)]
            0 <= h < old.nodes().len() && old.live(h) && old.parent_of(h) is Some && !path.contains(
                old.parent_of(h).unwrap() as int,
            ) && old.depth_of(old.parent_of(h).unwrap() as int) < 2 ==> {
                let p = old.parent_of(h).unwrap() as int;
                &&& self.parent_of(h) == old.parent_of(h)
                &&& self.nodes()[p].content == old.nodes()[p].content
                &&& self.depth_of(p) == old.depth_of(p)
                &&& self.live(h)
                &&& self.live(p)
            }
    }

    /// Structure, geometry and leaves shared by two states of the arena.
    pub closed spec fn same_leaves(&self, other: &Self) -> bool {
        forall|j: int|
            0 <= j < self.nodes().len() ==> (#[trigger] self.nodes()[j].content == other.nodes()[j].content
                || (self.nodes()[j].is_branch() && other.nodes()[j].is_branch())) && (
            self.nodes()[j].is_leaf() ==> self.nodes()[j].bounds == other.nodes()[j].bounds)
    }

    /// Pointer surgery of a rotation: `s`, the child of `i` on side `!larger_right`, and `g`,
    /// the child of `c` on side `g_right`, exchange their places.
    #[verifier::spinoff_prover]
    #[verifier::rlimit(40)]
    fn swap_subtrees(
        &mut self,
        i: usize,
        larger_right: bool,
        c: usize,
        s: usize,
        g_right: bool,
        g: usize,
        other: usize,
    )
        requires
            old(self).links_all(),
            old(self).is_branch(i as int),
            old(self).parent_of(i as int) != Some(i),
            old(self).parent_of(i as int) != Some(c),
            old(self).node(i as int).child(larger_right) == c,
            old(self).node(i as int).child(!larger_right) == s,
            old(self).is_branch(c as int),
            old(self).node(c as int).child(g_right) == g,
            old(self).node(c as int).child(!g_right) == other,
        ensures
            final(self).same_frame(old(self)),
            final(self).links_all(),
            final(self).fns_total() == old(self).fns_total(),
            final(self).root_ok() == old(self).root_ok(),
            forall|j: int|
                0 <= j < final(self).nodes().len() && j != i && j != c && j != g && j != s
                    ==> #[trigger] final(self).nodes()[j] == old(self).nodes()[j],
            final(self).node(i as int).child(larger_right) == c,
            final(self).node(i as int).child(!larger_right) == g,
            final(self).node(c as int).child(g_right) == s,
            final(self).node(c as int).child(!g_right) == other,
            final(self).is_branch(i as int),
            final(self).is_branch(c as int),
            final(self).parent_of(g as int) == Some(i),
            final(self).parent_of(s as int) == Some(c),
            final(self).parent_of(c as int) == Some(i),
            final(self).parent_of(i as int) == old(self).parent_of(i as int),
            final(self).side_of(i as int) == old(self).side_of(i as int),
            forall|j: int|
                #![trigger final(self).nodes()[j]]
                j == i || j == c || j == g || j == s ==> {
                    &&& final(self).depth_of(j) == old(self).depth_of(j)
                    &&& final(self).bounds_of(j) == old(self).bounds_of(j)
                },
            final(self).node(g as int).content == old(self).node(g as int).content,
            final(self).node(s as int).content == old(self).node(s as int).content,
            i != c && i != g && i != s && c != g && c != s && g != s && other != s && other != i
                && other != c && other != g,
    {
        let ghost s0 = *self;
        assert(self.links_ok(i as int));
        assert(self.links_ok(c as int));
        assert(self.links_ok(g as int));
        assert(self.links_ok(s as int));
        assert(self.links_ok(other as int));
        assert(i != c && i != s && c != s);
        assert(g != c && other != c);
        assert(g != i && other != i);
        assert(g != s && other != s && g != other);
        self.nodes[i].content = if larger_right {
            NodeContent::Branch(g, c)
        } else {
            NodeContent::Branch(c, g)
        };
        self.nodes[c].content = if g_right {
            NodeContent::Branch(other, s)
        } else {
            NodeContent::Branch(s, other)
        };
        self.nodes[g].parent = Some(i);
        self.nodes[g].right_child = !larger_right;
        self.nodes[s].parent = Some(c);
        self.nodes[s].right_child = g_right;
        let ghost s1 = *self;
        assert forall|j: int| #[trigger] s1.links_ok(j) by {
            assert(s0.links_ok(j));
            if s1.live(j) {
                if s0.is_branch(j) {
                    assert(s0.links_ok(s0.node(j).child(false)));
                    assert(s0.links_ok(s0.node(j).child(true)));
                }
                if let Some(p) = s0.parent_of(j) {
                    assert(s0.links_ok(p as int));
                }
            }
        }
        assert(s1.root_ok() == s0.root_ok()) by {
            if s0.root_ok() {
                if s0.root_index() is None {
                    assert forall|k: int| 0 <= k < s1.nodes().len() implies !#[trigger] s1.live(k) by {
                        assert(!s0.live(k));
                    }
                }
            }
            if s1.root_ok() {
                if s1.root_index() is None {
                    assert forall|k: int| 0 <= k < s0.nodes().len() implies !#[trigger] s0.live(k) by {
                        assert(!s1.live(k));
                    }
                }
            }
        }
    }

    /// Rotation at `i`, whose child on side `larger_right` is deeper than its other child by
    /// at least two: the other child swaps places with the deeper child of the deeper child.
    #[verifier::spinoff_prover]
    #[verifier::rlimit(60)]
    fn rotate(&mut self, i: usize, larger_right: bool, Ghost(path): Ghost<Seq<int>>)
        requires
            old(self).links_all(),
            old(self).fns_total(),
            old(self).root_ok(),
            old(self).is_path(path),
            path[0] == i,
            old(self).cache_ok_outside(path),
            old(self).is_branch(i as int),
            old(self).depth_of(old(self).node(i as int).child(larger_right)) == old(self).depth_of(
                old(self).node(i as int).child(!larger_right),
            ) + 2,
            old(self).balanced_outside(path),
        ensures
            final(self).balanced_outside(path),
            final(self).balanced_at(i as int),
            final(self).child_depth(i as int) <= old(self).child_depth(i as int),
            final(self).child_depth(i as int) + 1 >= old(self).child_depth(i as int),
            forall|j: int|
                #![trigger final(self).nodes()[j]]
                0 <= j < final(self).nodes().len() && j != i && old(self).parent_of(j) != Some(i)
                    && old(self).parent_of(j) != Some(old(self).node(i as int).child(larger_right) as usize)
                    ==> final(self).nodes()[j] == old(self).nodes()[j],
            final(self).same_frame(old(self)),
            final(self).links_all(),
            final(self).fns_total(),
            final(self).root_ok(),
            final(self).is_path(path),
            final(self).cache_ok_outside(path),
            final(self).is_branch(i as int),
            !path.contains(final(self).node(i as int).child(false)),
            !path.contains(final(self).node(i as int).child(true)),
            final(self).parent_of(i as int) == old(self).parent_of(i as int),
            final(self).side_of(i as int) == old(self).side_of(i as int),
            final(self).same_leaves(old(self)),
            forall|j: int|
                0 <= j < final(self).nodes().len() && !final(self).live(j) ==> #[trigger] final(self).nodes()[j]
                    == old(self).nodes()[j],
            forall|j: int| #[trigger] final(self).live(j) == old(self).live(j),
            final(self).keeps_low_branches(old(self), path),
    {
        let ghost s0 = *self;
        assert(self.links_ok(i as int));
        let (l, r) = match &self.nodes[i].content {
            NodeContent::Branch(l, r) => (*l, *r),
            _ => {
                return ;
            },
        };
        let (c, s) = if larger_right {
            (r, l)
        } else {
            (l, r)
        };
        assert(self.parent_of(i as int) != Some(i)) by {
            if path.len() > 1 {
                assert(self.parent_of(path[0]) == Some(path[1] as usize));
            }
        }
        assert(!path.contains(c as int) && !path.contains(s as int)) by {
            assert(self.links_ok(c as int));
            assert(self.links_ok(s as int));
            assert(path.contains(i as int));
            if path.contains(c as int) {
                let m = choose|m: int| 0 <= m < path.len() && path[m] == c;
                if m < path.len() - 1 {
                    assert(self.parent_of(path[m]) == Some(path[m + 1] as usize));
                    assert(path[m + 1] == i);
                } else {
                    assert(path.last() == c);
                }
            }
            if path.contains(s as int) {
                let m = choose|m: int| 0 <= m < path.len() && path[m] == s;
                if m < path.len() - 1 {
                    assert(self.parent_of(path[m]) == Some(path[m + 1] as usize));
                    assert(path[m + 1] == i);
                } else {
                    assert(path.last() == s);
                }
            }
        }
        assert(self.cache_ok(c as int));
        assert(self.links_ok(c as int));
        let (cl, cr) = match &self.nodes[c].content {
            NodeContent::Branch(cl, cr) => (*cl, *cr),
            _ => {
                return ;
            },
        };
        assert(self.links_ok(cl as int));
        assert(self.links_ok(cr as int));
        proof {
            self.lemma_child_outside(path, c as int, cl as int);
            self.lemma_child_outside(path, c as int, cr as int);
            self.lemma_depth_lt_len(path, cl as int);
        }
        let g_right = self.nodes[cl].depth < self.nodes[cr].depth;
        let (g, other) = if g_right {
            (cr, cl)
        } else {
            (cl, cr)
        };
        assert(self.links_ok(g as int));
        assert(self.links_ok(s as int));
        assert(self.links_ok(other as int));
        self.swap_subtrees(i, larger_right, c, s, g_right, g, other);
        let ghost s1 = *self;
        let ghost path2 = seq![c as int] + path;
        assert(s1.is_path(path2)) by {
            assert forall|k: int| 0 <= k < path2.len() implies s1.live(#[trigger] path2[k]) by {
                if k > 0 {
                    assert(path2[k] == path[k - 1]);
                    assert(s0.live(path[k - 1]));
                }
            }
            assert forall|k: int| 0 <= k < path2.len() - 1 implies s1.parent_of(#[trigger] path2[k])
                == Some(path2[k + 1] as usize) by {
                if k > 0 {
                    assert(path2[k] == path[k - 1]);
                    assert(path2[k + 1] == path[k]);
                    assert(s0.parent_of(path[k - 1]) == Some(path[k] as usize));
                }
            }
            assert(path2.last() == path.last());
            assert(path2.no_duplicates()) by {
                assert forall|a: int, b: int|
                    0 <= a < path2.len() && 0 <= b < path2.len() && a != b implies path2[a]
                    != path2[b] by {
                    if a > 0 {
                        assert(path2[a] == path[a - 1]);
                    }
                    if b > 0 {
                        assert(path2[b] == path[b - 1]);
                    }
                }
            }
        }
        assert(path2[0] == c as int);
        assert forall|j: int| !path2.contains(j) implies #[trigger] s1.cache_ok(j) by {
            assert(!path.contains(j)) by {
                if path.contains(j) {
                    let m = choose|m: int| 0 <= m < path.len() && path[m] == j;
                    assert(path2[m + 1] == j);
                }
            }
            assert(s0.cache_ok(j));
            assert(j != c);
            if s0.is_branch(j) {
                assert(s0.links_ok(j));
                assert(s0.links_ok(s0.node(j).child(false)));
                assert(s0.links_ok(s0.node(j).child(true)));
            }
        }
        assert(!path2.contains(other as int) && !path2.contains(s as int)) by {
            if path2.contains(other as int) {
                let m = choose|m: int| 0 <= m < path2.len() && path2[m] == other;
                if m > 0 {
                    assert(path[m - 1] == other);
                }
            }
            if path2.contains(s as int) {
                let m = choose|m: int| 0 <= m < path2.len() && path2[m] == s;
                if m > 0 {
                    assert(path[m - 1] == s);
                }
            }
        }
        self.recompute(c, Ghost(path2));
        let ghost s2 = *self;
        assert forall|j: int| !path.contains(j) implies #[trigger] s2.cache_ok(j) by {
            if j != c {
                assert(!path2.contains(j));
                assert(s1.cache_ok(j));
            }
        }
        assert(s2.is_path(path)) by {
            assert forall|k: int| 0 <= k < path.len() implies s2.live(#[trigger] path[k]) by {
                assert(path2[k + 1] == path[k]);
            }
            assert forall|k: int| 0 <= k < path.len() - 1 implies s2.parent_of(#[trigger] path[k])
                == Some(path[k + 1] as usize) by {
                assert(path2[k + 1] == path[k]);
                assert(path2[k + 2] == path[k + 1]);
            }
            assert(path2.last() == path.last());
        }
        assert(!path.contains(g as int)) by {
            if path.contains(g as int) {
                let m = choose|m: int| 0 <= m < path.len() && path[m] == g;
                if m < path.len() - 1 {
                    assert(s0.parent_of(path[m]) == Some(path[m + 1] as usize));
                    assert(path[m + 1] == c);
                } else {
                    assert(path.last() == g);
                }
            }
        }
        assert(s2.same_leaves(&s0));
        assert(s0.depth_of(c as int) >= 2);
        assert forall|h: int|
            0 <= h < s0.nodes().len() && s0.live(h) && s0.parent_of(h) is Some && !path.contains(
                s0.parent_of(h).unwrap() as int,
            ) && s0.depth_of(s0.parent_of(h).unwrap() as int) < 2 implies {
            let p = s0.parent_of(h).unwrap() as int;
            &&& #[trigger] s2.parent_of(h) == s0.parent_of(h)
            &&& s2.nodes()[p].content == s0.nodes()[p].content
            &&& s2.depth_of(p) == s0.depth_of(p)
            &&& s2.live(h)
            &&& s2.live(p)
        } by {
            let p = s0.parent_of(h).unwrap() as int;
            assert(s0.links_ok(h));
            assert(s0.live(p));
            assert(p != c);
            assert(p != i) by {
                assert(path.contains(i as int));
            }
            assert(h != i) by {
                if h == i {
                    if path.len() > 1 {
                        assert(s0.parent_of(path[0]) == Some(path[1] as usize));
                        assert(path.contains(path[1]));
                    } else {
                        assert(path.last() == i);
                    }
                }
            }
            assert(s1.nodes()[h] == s0.nodes()[h]);
            assert(s2.nodes()[h] == s1.nodes()[h]);
            if p != s && p != g {
                assert(s1.nodes()[p] == s0.nodes()[p]);
            }
            assert(s2.nodes()[p] == s1.nodes()[p]);
        }
        proof {
            self.lemma_rotation_balance(&s0, &s1, i as int, larger_right, c as int, s as int, g_right, g as int, other as int, path);
        }
    }

    /// Depths after a rotation: the deeper child `c` of `i` was balanced and `s`, the other
    /// child, two levels shallower; `s` and `other` are now the children of `c`, whose depth
    /// was recomputed, and `c` and `g` those of `i`.
    proof fn lemma_rotation_balance(
        &self,
        s0: &Self,
        s1: &Self,
        i: int,
        larger_right: bool,
        c: int,
        s: int,
        g_right: bool,
        g: int,
        other: int,
        path: Seq<int>,
    )
        requires
            s0.links_all(),
            s0.is_path(path),
            path[0] == i,
            s0.is_branch(i),
            s0.node(i).child(larger_right) == c,
            s0.node(i).child(!larger_right) == s,
            s0.is_branch(c),
            s0.node(c).child(g_right) == g,
            s0.node(c).child(!g_right) == other,
            s0.depth_of(c) == s0.depth_of(s) + 2,
            s0.cache_ok(c),
            g_right == (s0.depth_of(s0.node(c).child(false)) < s0.depth_of(s0.node(c).child(true))),
            s0.balanced_outside(path),
            !path.contains(c),
            !path.contains(s),
            !path.contains(g),
            !path.contains(other),
            i != c && i != g && i != s && c != g && c != s && g != s && other != s && other != i
                && other != c && other != g,
            forall|j: int|
                0 <= j < s1.nodes().len() && j != i && j != c && j != g && j != s
                    ==> #[trigger] s1.nodes()[j] == s0.nodes()[j],
            s1.nodes().len() == s0.nodes().len(),
            s1.node(i).child(larger_right) == c,
            s1.node(i).child(!larger_right) == g,
            s1.node(c).child(g_right) == s,
            s1.node(c).child(!g_right) == other,
            s1.is_branch(i),
            s1.is_branch(c),
            forall|j: int|
                #![trigger s1.nodes()[j]]
                j == i || j == c || j == g || j == s ==> s1.depth_of(j) == s0.depth_of(j),
            s1.node(g).content == s0.node(g).content,
            s1.node(s).content == s0.node(s).content,
            forall|j: int|
                0 <= j < self.nodes().len() && j != c ==> #[trigger] self.nodes()[j] == s1.nodes()[j],
            self.nodes().len() == s1.nodes().len(),
            self.node(c).content == s1.node(c).content,
            self.depth_of(c) == max_usize(s1.depth_of(s), s1.depth_of(other)) + 1,
        ensures
            self.balanced_outside(path),
            self.balanced_at(i),
            self.child_depth(i) <= s0.child_depth(i),
            self.child_depth(i) + 1 >= s0.child_depth(i),
    {
        assert(s0.links_ok(i));
        assert(s0.links_ok(c));
        assert(path[0] == i);
        assert(path.contains(i));
        assert(s0.balanced_at(c));
        assert(s1.nodes()[other] == s0.nodes()[other]);
        assert(self.nodes()[i] == s1.nodes()[i]);
        assert(self.nodes()[g] == s1.nodes()[g]);
        assert(self.nodes()[s] == s1.nodes()[s]);
        assert(self.nodes()[other] == s1.nodes()[other]);
        assert forall|j: int| !path.contains(j) implies #[trigger] self.balanced_at(j) by {
            if j != c && self.is_branch(j) {
                assert(s0.balanced_at(j));
                assert(s0.links_ok(j));
                assert(self.nodes()[j] == s1.nodes()[j]);
                if j != g && j != s {
                    assert(s1.nodes()[j] == s0.nodes()[j]);
                }
                let l = s0.node(j).child(false);
                let r = s0.node(j).child(true);
                assert(s0.links_ok(l));
                assert(s0.links_ok(r));
                assert(j != i);
                assert(l != c && r != c);
                if l != i && l != g && l != s {
                    assert(s1.nodes()[l] == s0.nodes()[l]);
                }
                if r != i && r != g && r != s {
                    assert(s1.nodes()[r] == s0.nodes()[r]);
                }
                assert(self.nodes()[l] == s1.nodes()[l]);
                assert(self.nodes()[r] == s1.nodes()[r]);
            }
        }
    }

    /// Restores node `i`, the first of `path`: when `rotate` holds and one child is deeper than
    /// the other by two or more, rotates at `i`; then recomputes its depth and bounds.
    fn fix_node(&mut self, i: usize, rotate: bool, Ghost(path): Ghost<Seq<int>>)
        requires
            old(self).links_all(),
            old(self).fns_total(),
            old(self).root_ok(),
            old(self).free_ok(),
            old(self).is_path(path),
            path[0] == i,
            old(self).is_branch(i as int),
            old(self).cache_ok_outside(path),
            old(self).balanced_outside(path),
            old(self).depth_of(old(self).node(i as int).child(false)) <= old(self).depth_of(
                old(self).node(i as int).child(true),
            ) + 2,
            old(self).depth_of(old(self).node(i as int).child(true)) <= old(self).depth_of(
                old(self).node(i as int).child(false),
            ) + 2,
            !rotate ==> old(self).balanced_at(i as int),
        ensures
            final(self).same_frame(old(self)),
            final(self).links_all(),
            final(self).fns_total(),
            final(self).root_ok(),
            final(self).free_ok(),
            final(self).is_path(path),
            final(self).cache_ok_outside(path.drop_first()),
            final(self).parent_of(i as int) == old(self).parent_of(i as int),
            final(self).leaves() == old(self).leaves(),
            final(self).keeps_low_branches(old(self), path),
            final(self).balanced_outside(path.drop_first()),
            old(self).child_depth(i as int) <= final(self).depth_of(i as int),
            final(self).depth_of(i as int) <= old(self).child_depth(i as int) + 1,
            old(self).balanced_at(i as int) ==> final(self).depth_of(i as int) == old(
                self,
            ).child_depth(i as int) + 1,
            forall|j: int|
                #![trigger final(self).nodes()[j]]
                0 <= j < final(self).nodes().len() && j != i && old(self).parent_of(j) != Some(i)
                    && (old(self).parent_of(j) matches Some(q) ==> old(self).parent_of(q as int)
                    != Some(i)) ==> final(self).nodes()[j] == old(self).nodes()[j],
    {
        let ghost s0 = *self;
        assert(self.links_ok(i as int));
        assert(self.parent_of(i as int) != Some(i)) by {
            if path.len() > 1 {
                assert(self.parent_of(path[0]) == Some(path[1] as usize));
            }
        }
        let (l, r) = match &self.nodes[i].content {
            NodeContent::Branch(l, r) => (*l, *r),
            _ => {
                return ;
            },
        };
        assert(!path.contains(l as int) && !path.contains(r as int)) by {
            assert(self.links_ok(l as int));
            assert(self.links_ok(r as int));
            if path.contains(l as int) {
                let m = choose|m: int| 0 <= m < path.len() && path[m] == l;
                if m < path.len() - 1 {
                    assert(self.parent_of(path[m]) == Some(path[m + 1] as usize));
                    assert(path[m + 1] == i);
                } else {
                    assert(path.last() == l);
                }
            }
            if path.contains(r as int) {
                let m = choose|m: int| 0 <= m < path.len() && path[m] == r;
                if m < path.len() - 1 {
                    assert(self.parent_of(path[m]) == Some(path[m + 1] as usize));
                    assert(path[m + 1] == i);
                } else {
                    assert(path.last() == r);
                }
            }
        }
        if rotate {
            proof {
                self.lemma_depth_lt_len(path, l as int);
                self.lemma_depth_lt_len(path, r as int);
            }
            let dl = self.nodes[l].depth;
            let dr = self.nodes[r].depth;
            if dl > dr + 1 {
                self.rotate(i, false, Ghost(path));
            } else if dr > dl + 1 {
                self.rotate(i, true, Ghost(path));
            }
        }
        let ghost s1 = *self;
        let ghost rotated = s1 != s0;
        assert(s1.balanced_outside(path));
        assert(s1.balanced_at(i as int));
        assert(s1.child_depth(i as int) <= s0.child_depth(i as int));
        assert(s1.child_depth(i as int) + 1 >= s0.child_depth(i as int));
        assert(s0.balanced_at(i as int) ==> s1 == s0);
        assert(forall|j: int|
            #![trigger s1.nodes()[j]]
            0 <= j < s1.nodes().len() && j != i && s0.parent_of(j) != Some(i) && (s0.parent_of(
                j,
            ) matches Some(q) ==> s0.parent_of(q as int) != Some(i)) ==> s1.nodes()[j]
                == s0.nodes()[j]);
        proof {
            if s1 == s0 {
                assert forall|h: int|
                    0 <= h < s0.nodes().len() && s0.live(h) && s0.parent_of(h) is Some
                        && !path.contains(s0.parent_of(h).unwrap() as int) && s0.depth_of(
                        s0.parent_of(h).unwrap() as int,
                    ) < 2 implies {
                    let p = s0.parent_of(h).unwrap() as int;
                    &&& #[trigger] s1.parent_of(h) == s0.parent_of(h)
                    &&& s1.nodes()[p].content == s0.nodes()[p].content
                    &&& s1.depth_of(p) == s0.depth_of(p)
                    &&& s1.live(h)
                    &&& s1.live(p)
                } by {
                    assert(s0.links_ok(h));
                }
            }
        }
        assert(s1.keeps_low_branches(&s0, path));
        assert(s1.leaves() =~= s0.leaves()) by {
            assert forall|j: int| #[trigger] s1.is_leaf(j) == s0.is_leaf(j) by {
                if 0 <= j < s1.nodes().len() {
                    assert(s1.nodes()[j] == s1.nodes()[j]);
                }
            }
        }
        assert(s1.free_ok()) by {
            assert forall|j: int|
                0 <= j < s1.nodes().len() && #[trigger] s1.nodes()[j].is_free() implies s1.free_list().contains(
                j as usize,
            ) by {
                assert(!s1.live(j));
                assert(!s0.live(j));
            }
            assert forall|k: int| 0 <= k < s1.free_list().len() implies {
                let f = #[trigger] s1.free_list()[k] as int;
                0 <= f < s1.nodes().len() && s1.nodes()[f].is_free()
            } by {
                let f = s1.free_list()[k] as int;
                assert(!s0.live(f));
                assert(!s1.live(f));
            }
        }
        self.recompute(i, Ghost(path));
        let ghost s2 = *self;
        assert forall|j: int| !path.drop_first().contains(j) implies #[trigger] s2.cache_ok(j) by {
            if j != i {
                assert(!path.contains(j)) by {
                    if path.contains(j) {
                        let m = choose|m: int| 0 <= m < path.len() && path[m] == j;
                        assert(m != 0);
                        assert(path.drop_first()[m - 1] == j);
                    }
                }
                assert(s1.cache_ok(j));
                if Some(j as usize) == s1.parent_of(i as int) && s2.live(j) {
                    assert(path.len() > 1);
                    assert(s1.parent_of(path[0]) == Some(path[1] as usize));
                    assert(s1.live(path[1]));
                    assert(path.drop_first()[0] == path[1]);
                    assert(path[1] == j);
                }
            }
        }
        assert(s2.leaves() =~= s1.leaves()) by {
            assert forall|j: int| #[trigger] s2.is_leaf(j) == s1.is_leaf(j) by {
                if 0 <= j < s1.nodes().len() && j != i {
                    assert(s2.nodes()[j] == s1.nodes()[j]);
                }
            }
        }
        assert(s2.free_ok()) by {
            assert forall|j: int|
                0 <= j < s2.nodes().len() && #[trigger] s2.nodes()[j].is_free() implies s2.free_list().contains(
                j as usize,
            ) by {
                if j != i {
                    assert(s2.nodes()[j] == s1.nodes()[j]);
                }
            }
            assert forall|k: int| 0 <= k < s2.free_list().len() implies {
                let f = #[trigger] s2.free_list()[k] as int;
                0 <= f < s2.nodes().len() && s2.nodes()[f].is_free()
            } by {
                let f = s2.free_list()[k] as int;
                assert(s1.nodes()[f].is_free());
                assert(f != i);
                assert(s2.nodes()[f] == s1.nodes()[f]);
            }
        }
        assert(s2.root_ok()) by {
            if s2.root_index() is None {
                assert forall|k: int| 0 <= k < s2.nodes().len() implies !#[trigger] s2.live(k) by {
                    assert(!s1.live(k));
                    if k != i {
                        assert(s2.nodes()[k] == s1.nodes()[k]);
                    }
                }
            }
        }
        assert forall|h: int|
            0 <= h < s0.nodes().len() && s0.live(h) && s0.parent_of(h) is Some && !path.contains(
                s0.parent_of(h).unwrap() as int,
            ) && s0.depth_of(s0.parent_of(h).unwrap() as int) < 2 implies {
            let p = s0.parent_of(h).unwrap() as int;
            &&& #[trigger] s2.parent_of(h) == s0.parent_of(h)
            &&& s2.nodes()[p].content == s0.nodes()[p].content
            &&& s2.depth_of(p) == s0.depth_of(p)
            &&& s2.live(h)
            &&& s2.live(p)
        } by {
            let p = s0.parent_of(h).unwrap() as int;
            assert(s1.parent_of(h) == s0.parent_of(h));
            assert(p != i) by {
                assert(path.contains(i as int));
            }
            assert(h != i) by {
                if h == i {
                    if path.len() > 1 {
                        assert(s0.parent_of(path[0]) == Some(path[1] as usize));
                        assert(path.contains(path[1]));
                    } else {
                        assert(path.last() == i);
                    }
                }
            }
            assert(s2.nodes()[h] == s1.nodes()[h]);
            assert(s2.nodes()[p] == s1.nodes()[p]);
        }
        proof {
            s2.lemma_recompute_balance(&s1, i as int, path);
        }
    }

    /// Recomputing the depth of balanced branch `i`, the first of `path`, keeps every branch
    /// off the rest of the path balanced.
    proof fn lemma_recompute_balance(&self, s1: &Self, i: int, path: Seq<int>)
        requires
            s1.links_all(),
            s1.is_path(path),
            path[0] == i,
            s1.balanced_outside(path),
            s1.balanced_at(i),
            s1.is_branch(i),
            self.nodes().len() == s1.nodes().len(),
            forall|j: int|
                0 <= j < self.nodes().len() && j != i ==> #[trigger] self.nodes()[j] == s1.nodes()[j],
            self.node(i).content == s1.node(i).content,
            self.cache_ok(i),
        ensures
            self.balanced_outside(path.drop_first()),
            self.depth_of(i) == s1.child_depth(i) + 1,
    {
        assert(s1.links_ok(i));
        assert(s1.links_ok(s1.node(i).child(false)));
        assert(s1.links_ok(s1.node(i).child(true)));
        assert(self.nodes()[s1.node(i).child(false)] == s1.nodes()[s1.node(i).child(false)]);
        assert(self.nodes()[s1.node(i).child(true)] == s1.nodes()[s1.node(i).child(true)]);
        assert forall|j: int| !path.drop_first().contains(j) implies #[trigger] self.balanced_at(j) by {
            if j != i {
                assert(!path.contains(j)) by {
                    if path.contains(j) {
                        let m = choose|m: int| 0 <= m < path.len() && path[m] == j;
                        assert(path.drop_first()[m - 1] == j);
                    }
                }
                assert(s1.balanced_at(j));
                if s1.is_branch(j) {
                    assert(s1.links_ok(j));
                    let l = s1.node(j).child(false);
                    let r = s1.node(j).child(true);
                    assert(l != i && r != i) by {
                        if l == i || r == i {
                            assert(s1.parent_of(i) == Some(j as usize));
                            if path.len() > 1 {
                                assert(s1.parent_of(path[0]) == Some(path[1] as usize));
                                assert(path.drop_first()[0] == j);
                            } else {
                                assert(s1.parent_of(path.last()) is None);
                            }
                        }
                    }
                    assert(self.nodes()[j] == s1.nodes()[j]);
                    assert(self.nodes()[l] == s1.nodes()[l]);
                    assert(self.nodes()[r] == s1.nodes()[r]);
                }
            } else {
                assert(s1.links_ok(s1.node(i).child(false)));
                assert(s1.links_ok(s1.node(i).child(true)));
            }
        }
    }

    /// Walks from `start` up to the root, restoring each node's depth and bounds; nodes are
    /// rebalanced for as long as the depth keeps changing on the way up.
    fn fix_upwards(
        &mut self,
        start: Option<usize>,
        Ghost(path): Ghost<Seq<int>>,
        Ghost(ch): Ghost<int>,
        Ghost(od): Ghost<int>,
    )
        requires
            old(self).balanced_outside(path),
            forall|k: int| 1 <= k < path.len() ==> #[trigger] old(self).stale_ok(path[k]),
            start matches Some(s) ==> old(self).settling(s as int, ch, od, true),
            old(self).links_all(),
            old(self).fns_total(),
            old(self).root_ok(),
            old(self).free_ok(),
            match start {
                Some(s) => old(self).is_path(path) && path[0] == s && old(self).is_branch(s as int),
                None => path.len() == 0,
            },
            old(self).cache_ok_outside(path),
        ensures
            final(self).wf(),
            final(self).same_frame(old(self)),
            final(self).leaves() == old(self).leaves(),
            final(self).keeps_low_branches(old(self), path),
    {
        let ghost s0 = *self;
        let mut cur = start;
        let mut depth_changed = true;
        let ghost mut p = path;
        let ghost mut ch = ch;
        let ghost mut od = od;
        assert forall|h: int|
            0 <= h < s0.nodes().len() && s0.live(h) && s0.parent_of(h) is Some && !path.contains(
                s0.parent_of(h).unwrap() as int,
            ) && s0.depth_of(s0.parent_of(h).unwrap() as int) < 2 implies {
            let q = s0.parent_of(h).unwrap() as int;
            &&& #[trigger] s0.parent_of(h) == s0.parent_of(h)
            &&& s0.nodes()[q].content == s0.nodes()[q].content
            &&& s0.depth_of(q) == s0.depth_of(q)
            &&& s0.live(h)
            &&& s0.live(q)
        } by {
            assert(s0.links_ok(h));
        }
        while cur.is_some()
            invariant
                forall|k: int| 0 <= k < p.len() ==> path.contains(#[trigger] p[k]),
                self.keeps_low_branches(&s0, path),
                self.links_all(),
                self.fns_total(),
                self.root_ok(),
                self.free_ok(),
                match cur {
                    Some(s) => self.is_path(p) && p[0] == s && self.is_branch(s as int),
                    None => p.len() == 0,
                },
                self.cache_ok_outside(p),
                self.same_frame(&s0),
                self.leaves() == s0.leaves(),
                self.balanced_outside(p),
                forall|k: int| 1 <= k < p.len() ==> #[trigger] self.stale_ok(p[k]),
                cur matches Some(s) ==> self.settling(s as int, ch, od, depth_changed),
            decreases p.len(),
        {
            let i = cur.unwrap();
            let old_depth = self.nodes[i].depth;
            let ghost mid = *self;
            let ghost was_changed = depth_changed;
            proof {
                mid.lemma_settling_bounds(i as int, ch, od, depth_changed);
            }
            self.fix_node(i, depth_changed, Ghost(p));
            proof {
                let s_new = *self;
                assert forall|h: int|
                    0 <= h < s0.nodes().len() && s0.live(h) && s0.parent_of(h) is Some
                        && !path.contains(s0.parent_of(h).unwrap() as int) && s0.depth_of(
                        s0.parent_of(h).unwrap() as int,
                    ) < 2 implies {
                    let q = s0.parent_of(h).unwrap() as int;
                    &&& #[trigger] s_new.parent_of(h) == s0.parent_of(h)
                    &&& s_new.nodes()[q].content == s0.nodes()[q].content
                    &&& s_new.depth_of(q) == s0.depth_of(q)
                    &&& s_new.live(h)
                    &&& s_new.live(q)
                } by {
                    let q = s0.parent_of(h).unwrap() as int;
                    assert(mid.parent_of(h) == s0.parent_of(h));
                    assert(!p.contains(q)) by {
                        if p.contains(q) {
                            let k = choose|k: int| 0 <= k < p.len() && p[k] == q;
                            assert(path.contains(p[k]));
                        }
                    }
                    assert(s_new.parent_of(h) == mid.parent_of(h));
                }
            }
            if depth_changed {
                depth_changed = old_depth != self.nodes[i].depth;
            }
            assert(self.links_ok(i as int));
            cur = self.nodes[i].parent;
            proof {
                if p.len() > 1 {
                    assert(self.parent_of(p[0]) == Some(p[1] as usize));
                    let q = p.drop_first();
                    assert forall|k: int| 0 <= k < q.len() implies self.live(#[trigger] q[k]) by {
                        assert(q[k] == p[k + 1]);
                    }
                    assert forall|k: int| 0 <= k < q.len() - 1 implies self.parent_of(#[trigger] q[k])
                        == Some(q[k + 1] as usize) by {
                        assert(q[k] == p[k + 1]);
                        assert(q[k + 1] == p[k + 2]);
                    }
                    assert(q.last() == p.last());
                    assert(q.no_duplicates()) by {
                        assert forall|a: int, b: int|
                            0 <= a < q.len() && 0 <= b < q.len() && a != b implies q[a] != q[b] by {
                            assert(q[a] == p[a + 1]);
                            assert(q[b] == p[b + 1]);
                        }
                    }
                } else {
                    assert(p.last() == p[0]);
                }
                assert forall|k: int| 0 <= k < p.drop_first().len() implies path.contains(
                    #[trigger] p.drop_first()[k],
                ) by {
                    assert(p.drop_first()[k] == p[k + 1]);
                }
                self.lemma_settle_step(&mid, i as int, ch, od, was_changed, old_depth as int, p);
                p = p.drop_first();
                ch = i as int;
                od = old_depth as int;
            }
        }
        assert(self.balanced()) by {
            assert forall|i: int| #[trigger] self.balanced_at(i) by {
                assert(!p.contains(i));
            }
        }
        assert forall|i: int| #[trigger] self.cache_ok(i) by {
            assert(!p.contains(i));
        }
    }

    /// Restoring a settling branch needs at most one rotation, and none when nothing changed.
    proof fn lemma_settling_bounds(&self, i: int, ch: int, od: int, changed: bool)
        requires
            self.settling(i, ch, od, changed),
        ensures
            self.depth_of(self.node(i).child(false)) <= self.depth_of(self.node(i).child(true)) + 2,
            self.depth_of(self.node(i).child(true)) <= self.depth_of(self.node(i).child(false)) + 2,
            !changed ==> self.balanced_at(i),
    {
    }

    /// After branch `i`, the first of `p`, is restored (from state `mid`), its parent settles
    /// with `i` as the changed child and the old cached depth of `i` as its old depth.
    proof fn lemma_settle_step(
        &self,
        mid: &Self,
        i: int,
        ch: int,
        od: int,
        changed: bool,
        old_depth: int,
        p: Seq<int>,
    )
        requires
            mid.links_all(),
            mid.is_path(p),
            p[0] == i,
            mid.settling(i, ch, od, changed),
            old_depth == mid.depth_of(i),
            forall|k: int| 1 <= k < p.len() ==> #[trigger] mid.stale_ok(p[k]),
            self.nodes().len() == mid.nodes().len(),
            mid.child_depth(i) <= self.depth_of(i),
            self.depth_of(i) <= mid.child_depth(i) + 1,
            mid.balanced_at(i) ==> self.depth_of(i) == mid.child_depth(i) + 1,
            forall|j: int|
                #![trigger self.nodes()[j]]
                0 <= j < self.nodes().len() && j != i && mid.parent_of(j) != Some(i as usize) && (
                mid.parent_of(j) matches Some(q) ==> mid.parent_of(q as int) != Some(i as usize))
                    ==> self.nodes()[j] == mid.nodes()[j],
        ensures
            p.len() > 1 ==> self.settling(p[1], i, old_depth, changed && old_depth != self.depth_of(i)),
            forall|k: int| 1 <= k < p.drop_first().len() ==> #[trigger] self.stale_ok(p.drop_first()[k]),
    {
        assert forall|m: int| 1 <= m < p.len() implies {
            &&& #[trigger] p[m] != i
            &&& mid.parent_of(p[m]) != Some(i as usize)
            &&& (mid.parent_of(p[m]) matches Some(r) ==> mid.parent_of(r as int) != Some(i as usize))
        } by {
            if m < p.len() - 1 {
                assert(mid.parent_of(p[m]) == Some(p[m + 1] as usize));
                if m + 1 < p.len() - 1 {
                    assert(mid.parent_of(p[m + 1]) == Some(p[m + 2] as usize));
                } else {
                    assert(p.last() == p[m + 1]);
                }
            } else {
                assert(p.last() == p[m]);
            }
        }
        // the restored branch: its new depth is within one of its old cached depth
        let o = if mid.node(i).child(false) == ch {
            mid.node(i).child(true)
        } else {
            mid.node(i).child(false)
        };
        assert(mid.links_ok(i));
        assert(mid.child_depth(i) == max_usize(mid.depth_of(ch), mid.depth_of(o)));
        if p.len() > 1 {
            let q = p[1];
            assert(mid.parent_of(p[0]) == Some(p[1] as usize));
            assert(mid.stale_ok(q));
            assert(mid.links_ok(q));
            let oq = if mid.node(q).child(false) == i {
                mid.node(q).child(true)
            } else {
                mid.node(q).child(false)
            };
            assert(mid.links_ok(oq));
            assert(self.nodes()[q] == mid.nodes()[q]);
            assert(self.nodes()[oq] == mid.nodes()[oq]);
            assert(mid.child_depth(q) == max_usize(mid.depth_of(i), mid.depth_of(oq)));
        }
        assert forall|k: int| 1 <= k < p.drop_first().len() implies #[trigger] self.stale_ok(
            p.drop_first()[k],
        ) by {
            let x = p.drop_first()[k];
            assert(x == p[k + 1]);
            assert(mid.stale_ok(p[k + 1]));
            assert(mid.links_ok(x));
            let l = mid.node(x).child(false);
            let r = mid.node(x).child(true);
            assert(mid.links_ok(l));
            assert(mid.links_ok(r));
            assert(self.nodes()[x] == mid.nodes()[x]);
            assert(mid.parent_of(x) matches Some(y) ==> mid.parent_of(y as int) != Some(i as usize));
            assert(self.nodes()[l] == mid.nodes()[l]);
            assert(self.nodes()[r] == mid.nodes()[r]);
        }
    }

    /// Stores `node` in a recycled slot when there is one, else in a new slot at the end.
    fn allocate_node(&mut self, node: Node<T, B>) -> (idx: usize)
        requires
            old(self).free_ok(),
            !node.is_free(),
        ensures
            final(self).free_ok(),
            idx < final(self).nodes().len(),
            final(self).nodes()[idx as int] == node,
            idx < old(self).nodes().len() ==> old(self).nodes()[idx as int].is_free(),
            final(self).nodes().len() == if idx < old(self).nodes().len() {
                old(self).nodes().len()
            } else {
                old(self).nodes().len() + 1
            },
            idx <= old(self).nodes().len(),
            forall|j: int|
                0 <= j < old(self).nodes().len() && j != idx ==> #[trigger] final(self).nodes()[j]
                    == old(self).nodes()[j],
            final(self).root == old(self).root,
            final(self).hierachy == old(self).hierachy,
            final(self).join == old(self).join,
            final(self).prefer_left == old(self).prefer_left,
    {
        let ghost s0 = *self;
        match self.free.pop() {
            Some(i) => {
                assert(s0.free_list()[s0.free_list().len() - 1] == i);
                self.nodes.set(i, node);
                let ghost s1 = *self;
                assert(s1.free_list() =~= s0.free_list().drop_last());
                assert forall|k: int| 0 <= k < s1.free_list().len() implies {
                    let f = #[trigger] s1.free_list()[k] as int;
                    0 <= f < s1.nodes().len() && s1.nodes()[f].is_free()
                } by {
                    assert(s1.free_list()[k] == s0.free_list()[k]);
                    assert(s0.free_list()[k] != s0.free_list()[s0.free_list().len() - 1]);
                }
                assert forall|j: int|
                    0 <= j < s1.nodes().len() && #[trigger] s1.nodes()[j].is_free() implies s1.free_list().contains(
                    j as usize,
                ) by {
                    assert(j != i);
                    assert(j < s1.nodes.len());
                    assert(j as usize != i);
                    assert(s0.nodes()[j].is_free());
                    assert(s0.free_list().contains(j as usize));
                    let k = choose|k: int|
                        0 <= k < s0.free_list().len() && s0.free_list()[k] == j as usize;
                    assert(k != s0.free_list().len() - 1);
                    assert(s1.free_list()[k] == j as usize);
                }
                i
            },
            None => {
                self.nodes.push(node);
                let ghost s1 = *self;
                assert forall|j: int|
                    0 <= j < s1.nodes().len() && #[trigger] s1.nodes()[j].is_free() implies s1.free_list().contains(
                    j as usize,
                ) by {
                    assert(j < s0.nodes().len());
                    assert(s0.nodes()[j].is_free());
                }
                self.nodes.len() - 1
            },
        }
    }

    /// Children of node `i`, when it is a branch.
    fn children(&self, i: usize) -> (r: Option<(usize, usize)>)
        requires
            i < self.nodes().len(),
        ensures
            r is Some <==> self.nodes()[i as int].is_branch(),
            r matches Some((l, rr)) ==> l == self.node(i as int).child(false) && rr == self.node(
                i as int,
            ).child(true),
    {
        match &self.nodes[i].content {
            NodeContent::Branch(l, r) => Some((*l, *r)),
            _ => None,
        }
    }

    /// Descends from the root to a leaf, going left where `prefer_left` says so.
    fn descend(&self, bounds: &B) -> (t: usize)
        requires
            self.wf(),
            self.root_index() is Some,
        ensures
            self.descends_to(*bounds, t as int),
    {
        let mut current = self.root.unwrap();
        assert(self.live(current as int));
        assert(self.links_ok(current as int));
        assert forall|d: int| #[trigger] self.below(current as int, d) implies self.parent_of(d) is None by {
            let n = choose|n: nat| #[trigger] self.ancestor(current as int, n) == Some(d);
            if n > 0 {
                assert(self.parent_of(current as int) is None);
            }
            assert(d == current);
        }
        loop
            invariant
                self.wf(),
                self.live(current as int),
                self.chosen_on_way(*bounds, current as int),
            decreases self.depth_of(current as int),
        {
            assert(self.cache_ok(current as int));
            assert(self.links_ok(current as int));
            match self.children(current) {
                Some((l, r)) => {
                    let go_left = (self.prefer_left)(&self.nodes[l].bounds, &self.nodes[r].bounds, bounds);
                    let next = if go_left {
                        l
                    } else {
                        r
                    };
                    proof {
                        assert(self.links_ok(next as int));
                        assert(self.parent_of(next as int) == Some(current));
                        assert(self.side_of(next as int) == !go_left);
                        assert forall|d: int| #[trigger] self.below(next as int, d) && self.parent_of(d) is Some implies self.chose(
                            *bounds,
                            d,
                        ) by {
                            let n = choose|n: nat| #[trigger] self.ancestor(next as int, n) == Some(d);
                            if n > 0 {
                                assert(self.ancestor(next as int, n) == self.ancestor(current as int, (n - 1) as nat));
                                assert(self.below(current as int, d));
                            } else {
                                assert(d == next);
                            }
                        }
                    }
                    current = next;
                },
                None => {
                    return current;
                },
            }
        }
    }

    /// At the parent of `d`, `prefer_left` called on the bounds of its children and `new`
    /// chose the side on which `d` hangs.
    pub closed spec fn chose(&self, new: B, d: int) -> bool {
        let a = self.parent_of(d).unwrap() as int;
        call_ensures(
            self.prefer_left,
            (&self.bounds_of(self.node(a).child(false)), &self.bounds_of(self.node(a).child(true)), &new),
            !self.side_of(d),
        )
    }

    /// On the way from the root down to `x`, every step went where `prefer_left` chose.
    pub closed spec fn chosen_on_way(&self, new: B, x: int) -> bool {
        forall|d: int| #[trigger] self.below(x, d) && self.parent_of(d) is Some ==> self.chose(new, d)
    }

    /// `t` is the leaf reached by descending from the root where `prefer_left` chooses, for
    /// the bounds `new`.
    pub closed spec fn descends_to(&self, new: B, t: int) -> bool {
        self.is_leaf(t) && self.chosen_on_way(new, t)
    }

    /// Turns leaf `t` into a branch holding `t` on the left and a new leaf on the right.
    #[verifier::spinoff_prover]
    #[verifier::rlimit(60)]
    fn split_leaf(&mut self, t: usize, collider: T, bounds: B, Ghost(tpath): Ghost<Seq<int>>) -> (leaf: usize)
        requires
            old(self).wf(),
            old(self).is_leaf(t as int),
            old(self).is_path(tpath),
            tpath[0] == t,
        ensures
            final(self).links_all(),
            final(self).fns_total(),
            final(self).root_ok(),
            final(self).free_ok(),
            match old(self).parent_of(t as int) {
                Some(p) => final(self).is_path(tpath.drop_first()) && tpath.drop_first()[0] == p
                    && final(self).is_branch(p as int),
                None => tpath.drop_first().len() == 0,
            },
            final(self).cache_ok_outside(tpath.drop_first()),
            final(self).parent_of(leaf as int) matches Some(nb) && {
                &&& final(self).nodes()[nb as int].content == NodeContent::<T>::Branch(t, leaf)
                &&& final(self).depth_of(nb as int) == 1
                &&& final(self).live(nb as int)
                &&& final(self).live(leaf as int)
                &&& !tpath.drop_first().contains(nb as int)
            },
            !old(self).leaves().contains_key(leaf as int),
            final(self).leaves() == old(self).leaves().insert(leaf as int, (collider, bounds)),
            final(self).balanced_outside(tpath.drop_first()),
            forall|k: int|
                1 <= k < tpath.drop_first().len() ==> #[trigger] final(self).stale_ok(
                    tpath.drop_first()[k],
                ),
            old(self).parent_of(t as int) matches Some(p) ==> final(self).settling(
                p as int,
                final(self).parent_of(leaf as int).unwrap() as int,
                0,
                true,
            ),
            final(self).hierachy == old(self).hierachy,
            final(self).join == old(self).join,
            final(self).prefer_left == old(self).prefer_left,
    {
        let ghost s0 = *self;
        assert(self.links_ok(t as int));
        let parent = self.nodes[t].parent;
        let side = self.nodes[t].right_child;
        let leaf = self.allocate_node(
            Node { parent: None, right_child: true, bounds, depth: 0, content: NodeContent::Leaf(collider) },
        );
        let bb = (self.join)(&self.nodes[t].bounds, &bounds);
        let nb = self.allocate_node(
            Node { parent, right_child: side, bounds: bb, depth: 1, content: NodeContent::Branch(t, leaf) },
        );
        let ghost s1 = *self;
        assert(leaf != t && nb != t && nb != leaf);
        self.nodes[t].parent = Some(nb);
        self.nodes[t].right_child = false;
        self.nodes[leaf].parent = Some(nb);
        match parent {
            Some(p) => {
                assert(s0.links_ok(p as int));
                let (l, r) = self.children(p).unwrap();
                self.nodes[p].content = if side {
                    NodeContent::Branch(l, nb)
                } else {
                    NodeContent::Branch(nb, r)
                };
            },
            None => {
                self.root = Some(nb);
            },
        }
        let ghost s2 = *self;
        assert(forall|j: int| 0 <= j < s0.nodes().len() && s0.live(j) ==> j != leaf && j != nb);
        assert forall|j: int| #[trigger] s2.links_ok(j) by {
            assert(s0.links_ok(j));
            if 0 <= j < s0.nodes().len() && s0.live(j) {
                if s0.is_branch(j) {
                    assert(s0.links_ok(s0.node(j).child(false)));
                    assert(s0.links_ok(s0.node(j).child(true)));
                }
                if let Some(q) = s0.parent_of(j) {
                    assert(s0.links_ok(q as int));
                }
            }
        }
        let ghost path = tpath.drop_first();
        assert(!path.contains(t as int)) by {
            if path.contains(t as int) {
                let m = choose|m: int| 0 <= m < path.len() && path[m] == t;
                assert(tpath[m + 1] == t);
            }
        }
        assert(forall|k: int| 0 <= k < path.len() ==> path[k] == tpath[k + 1]);
        assert(forall|k: int| 0 <= k < path.len() ==> s0.live(#[trigger] path[k]));
        match parent {
            Some(p) => {
                assert(tpath.len() > 1);
                assert(s0.parent_of(tpath[0]) == Some(tpath[1] as usize));
                assert(path[0] == p);
                assert(s2.is_path(path)) by {
                    assert forall|k: int| 0 <= k < path.len() implies s2.live(#[trigger] path[k]) by {
                        assert(s0.live(path[k]));
                    }
                    assert forall|k: int| 0 <= k < path.len() - 1 implies s2.parent_of(
                        #[trigger] path[k],
                    ) == Some(path[k + 1] as usize) by {
                        assert(s0.parent_of(tpath[k + 1]) == Some(tpath[k + 2] as usize));
                    }
                    assert(path.last() == tpath.last());
                    assert(path.no_duplicates()) by {
                        assert forall|a: int, b: int|
                            0 <= a < path.len() && 0 <= b < path.len() && a != b implies path[a]
                            != path[b] by {
                            assert(path[a] == tpath[a + 1]);
                            assert(path[b] == tpath[b + 1]);
                        }
                    }
                }
            },
            None => {
                assert(tpath.len() == 1) by {
                    if tpath.len() > 1 {
                        assert(s0.parent_of(tpath[0]) == Some(tpath[1] as usize));
                    }
                }
            },
        }
        assert(s0.cache_ok(t as int));
        assert(s2.cache_ok(t as int));
        assert(s2.cache_ok(leaf as int));
        assert(s2.bounds_of(t as int) == s0.bounds_of(t as int));
        assert(s2.bounds_of(leaf as int) == bounds);
        assert(s2.node(nb as int).content == NodeContent::<T>::Branch(t, leaf));
        assert(s2.cache_ok(nb as int));
        assert forall|j: int| !path.contains(j) implies #[trigger] s2.cache_ok(j) by {
            assert(s0.cache_ok(j));
            if j != t && j != leaf && j != nb && s2.live(j) {
                assert(s0.live(j));
                assert(Some(j as usize) != parent);
                if s0.is_branch(j) {
                    assert(s0.links_ok(j));
                    assert(s0.links_ok(s0.node(j).child(false)));
                    assert(s0.links_ok(s0.node(j).child(true)));
                }
            }
        }
        assert(s2.root_ok()) by {
            if parent is None {
                assert(s0.root_index() == Some(t));
            }
        }
        assert(s2.free_ok()) by {
            assert forall|k: int| 0 <= k < s2.free_list().len() implies {
                let f = #[trigger] s2.free_list()[k] as int;
                0 <= f < s2.nodes().len() && s2.nodes()[f].is_free()
            } by {
                let f = s2.free_list()[k] as int;
                assert(s1.nodes()[f].is_free());
            }
            assert forall|j: int|
                0 <= j < s2.nodes().len() && #[trigger] s2.nodes()[j].is_free() implies s2.free_list().contains(
                j as usize,
            ) by {
                assert(s1.nodes()[j].is_free());
            }
        }
        assert(!path.contains(nb as int)) by {
            if path.contains(nb as int) {
                let m = choose|m: int| 0 <= m < path.len() && path[m] == nb;
                assert(s0.live(path[m]));
            }
        }
        assert(!s0.leaves().contains_key(leaf as int));
        assert(s2.leaves() =~= s0.leaves().insert(leaf as int, (collider, bounds))) by {
            assert forall|j: int| #[trigger] s2.is_leaf(j) == (s0.is_leaf(j) || j == leaf) by {
                if 0 <= j < s0.nodes().len() && j != leaf && j != nb {
                    assert(s2.nodes()[j].content == s0.nodes()[j].content || (s0.is_branch(j)
                        && s2.is_branch(j)));
                }
            }
        }
        proof {
            s2.lemma_split_balance(&s0, t as int, leaf as int, nb as int, tpath);
        }
        leaf
    }

    /// Balance around a split leaf: `t` became a branch `nb` over `t` and the new `leaf`.
    proof fn lemma_split_balance(&self, s0: &Self, t: int, leaf: int, nb: int, tpath: Seq<int>)
        requires
            s0.wf(),
            s0.is_leaf(t),
            s0.is_path(tpath),
            tpath[0] == t,
            !s0.live(leaf),
            !s0.live(nb),
            leaf != nb,
            self.nodes().len() >= s0.nodes().len(),
            forall|j: int| s0.nodes().len() <= j < self.nodes().len() ==> #[trigger] self.nodes()[j] == self.nodes()[j] && (j == leaf || j == nb),
            0 <= leaf < self.nodes().len(),
            0 <= nb < self.nodes().len(),
            self.depth_of(nb) == 1,
            self.node(nb).content == NodeContent::<T>::Branch(t as usize, leaf as usize),
            self.is_branch(nb),
            self.is_leaf(leaf),
            self.is_leaf(t),
            self.depth_of(t) == 0,
            self.depth_of(leaf) == 0,
            self.parent_of(leaf) == Some(nb as usize),
            forall|j: int|
                0 <= j < s0.nodes().len() && j != t && j != leaf && j != nb && Some(j as usize)
                    != s0.parent_of(t) ==> #[trigger] self.nodes()[j] == s0.nodes()[j],
            s0.parent_of(t) matches Some(p) ==> {
                &&& self.depth_of(p as int) == s0.depth_of(p as int)
                &&& self.is_branch(p as int)
                &&& self.node(p as int).child(s0.side_of(t)) == nb
                &&& self.node(p as int).child(!s0.side_of(t)) == s0.node(p as int).child(!s0.side_of(t))
            },
        ensures
            self.balanced_outside(tpath.drop_first()),
            forall|k: int|
                1 <= k < tpath.drop_first().len() ==> #[trigger] self.stale_ok(tpath.drop_first()[k]),
            s0.parent_of(t) matches Some(p) ==> self.settling(p as int, nb, 0, true),
    {
        let path = tpath.drop_first();
        assert(s0.links_ok(t));
        assert(forall|k: int| 0 <= k < path.len() ==> path[k] == tpath[k + 1]);
        assert forall|j: int| !path.contains(j) implies #[trigger] self.balanced_at(j) by {
            if self.is_branch(j) && j != nb {
                assert(j != t && j != leaf);
                assert(j < s0.nodes().len());
                assert(Some(j as usize) != s0.parent_of(t)) by {
                    if Some(j as usize) == s0.parent_of(t) {
                        assert(tpath.len() > 1) by {
                            if tpath.len() == 1 {
                                assert(tpath.last() == t);
                            }
                        }
                        assert(s0.parent_of(tpath[0]) == Some(tpath[1] as usize));
                        assert(path[0] == j);
                    }
                }
                assert(self.nodes()[j] == s0.nodes()[j]);
                assert(s0.balanced_at(j));
                assert(s0.links_ok(j));
                let l = s0.node(j).child(false);
                let r = s0.node(j).child(true);
                assert(s0.links_ok(l));
                assert(s0.links_ok(r));
                assert(l != t && r != t);
                if Some(l as usize) != s0.parent_of(t) {
                    assert(self.nodes()[l] == s0.nodes()[l]);
                }
                if Some(r as usize) != s0.parent_of(t) {
                    assert(self.nodes()[r] == s0.nodes()[r]);
                }
            }
        }
        assert forall|k: int| 1 <= k < path.len() implies #[trigger] self.stale_ok(path[k]) by {
            let x = path[k];
            assert(x == tpath[k + 1]);
            assert(s0.live(x));
            assert(x != t && x != leaf && x != nb);
            assert(s0.parent_of(tpath[0]) == Some(tpath[1] as usize));
            assert(x != tpath[1]);
            assert(s0.parent_of(tpath[k]) == Some(tpath[k + 1] as usize));
            assert(s0.links_ok(tpath[k]));
            assert(s0.is_branch(x));
            assert(self.nodes()[x] == s0.nodes()[x]);
            assert(s0.cache_ok(x));
            assert(s0.balanced_at(x));
            assert(s0.links_ok(x));
            let l = s0.node(x).child(false);
            let r = s0.node(x).child(true);
            assert(s0.links_ok(l));
            assert(s0.links_ok(r));
            assert(s0.live(l) && s0.live(r));
            assert(l != leaf && l != nb && r != leaf && r != nb);
            if l != t && Some(l as usize) != s0.parent_of(t) {
                assert(self.nodes()[l] == s0.nodes()[l]);
            }
            if r != t && Some(r as usize) != s0.parent_of(t) {
                assert(self.nodes()[r] == s0.nodes()[r]);
            }
            assert(self.depth_of(l) == s0.depth_of(l));
            assert(self.depth_of(r) == s0.depth_of(r));
        }
        if let Some(p) = s0.parent_of(t) {
            assert(s0.links_ok(p as int));
            assert(s0.cache_ok(p as int));
            assert(s0.balanced_at(p as int));
            let o = s0.node(p as int).child(!s0.side_of(t));
            assert(s0.links_ok(o));
            assert(o != t && o != leaf && o != nb && Some(o as usize) != s0.parent_of(t));
            assert(self.nodes()[o] == s0.nodes()[o]);
            assert(s0.cache_ok(t));
            assert(nb != o);
        }
    }

    /// Inserts a registered leaf, descending from the root towards the child chosen by
    /// `prefer_left` and turning the leaf reached into a branch; fails, handing the leaf
    /// back, when it was registered with another hierarchy.
    #[verifier::spinoff_prover]
    pub fn insert(&mut self, leaf_ref: LeafOutsideHierachy<T, B>) -> (r: Result<
        LeafInHierachy,
        LeafOutsideHierachy<T, B>,
    >)
        requires
            old(self).wf(),
        ensures
            final(self).wf(),
            final(self).id() == old(self).id(),
            final(self).join_fn() == old(self).join_fn(),
            final(self).choose_fn() == old(self).choose_fn(),
            leaf_ref.owner() != old(self).id() ==> r == Err::<LeafInHierachy, _>(leaf_ref)
                && *final(self) == *old(self),
            leaf_ref.owner() == old(self).id() ==> (r matches Ok(h) && h.owner() == old(self).id()
                && final(self).owns(&h)
                && !old(self).leaves().contains_key(h.index())
                && final(self).leaves() == old(self).leaves().insert(
                h.index(),
                (leaf_ref.collider(), leaf_ref.bounds()),
            ) && final(self).leaves().len() == old(self).leaves().len() + 1),
            leaf_ref.owner() == old(self).id() && old(self).root_index() is None ==> (r matches Ok(h)
                && final(self).root_index() == Some(h.index() as usize)),
            leaf_ref.owner() == old(self).id() && old(self).root_index() is Some ==> (r matches Ok(h)
                && exists|t: int|
                #[trigger] old(self).descends_to(leaf_ref.bounds(), t) && (final(self).node(
                    h.index(),
                ).parent_link() matches Some(p) && final(self).node(p as int).held()
                    == NodeContent::<T>::Branch(t as usize, h.index() as usize))),
    {
        if leaf_ref.hierachy != self.hierachy {
            return Err(leaf_ref);
        }
        proof {
            self.law_node_count();
        }
        let ghost lb = leaf_ref.bounds();
        let LeafOutsideHierachy { collider, bounds, hierachy } = leaf_ref;
        match self.root {
            None => {
                let ghost s0 = *self;
                let i = self.allocate_node(
                    Node {
                        parent: None,
                        right_child: false,
                        bounds,
                        depth: 0,
                        content: NodeContent::Leaf(collider),
                    },
                );
                self.root = Some(i);
                let ghost s1 = *self;
                assert(forall|j: int| 0 <= j < s0.nodes().len() ==> !s0.live(j));
                assert forall|j: int| s1.live(j) implies j == i by {
                    if j != i && j < s0.nodes().len() {
                        assert(s1.nodes()[j] == s0.nodes()[j]);
                        assert(!s0.live(j));
                    }
                }
                assert forall|j: int| #[trigger] s1.links_ok(j) by {
                    if s1.live(j) {
                        assert(j == i);
                    }
                }
                assert forall|j: int| #[trigger] s1.cache_ok(j) by {
                    if s1.live(j) {
                        assert(j == i);
                    }
                }
                assert(s1.leaves() =~= s0.leaves().insert(i as int, (collider, bounds))) by {
                    assert forall|j: int| #[trigger] s1.is_leaf(j) == (j == i) by {
                        if j != i && 0 <= j < s0.nodes().len() {
                            assert(!s0.live(j));
                        }
                    }
                }
                Ok(LeafInHierachy { leaf: i, hierachy })
            },
            Some(_) => {
                let t = self.descend(&bounds);
                let ghost tpath = self.path_to_root(t as int);
                let ghost start = self.parent_of(t as int);
                let parent = self.nodes[t].parent;
                let ghost s_before = *self;
                let leaf = self.split_leaf(t, collider, bounds, Ghost(tpath));
                let ghost s_split = *self;
                self.fix_upwards(
                    parent,
                    Ghost(tpath.drop_first()),
                    Ghost(s_split.parent_of(leaf as int).unwrap() as int),
                    Ghost(0),
                );
                proof {
                    let nb = s_split.parent_of(leaf as int).unwrap() as int;
                    assert(self.parent_of(leaf as int) == s_split.parent_of(leaf as int));
                    assert(self.node(nb).held() == NodeContent::<T>::Branch(t, leaf));
                    assert(s_before == *old(self));
                    assert(lb == bounds);
                    assert(old(self).descends_to(lb, t as int));
                    assert(self.node(leaf as int).parent_link() == Some(nb as usize));
                }
                Ok(LeafInHierachy { leaf, hierachy })
            },
        }
    }

    /// A leaf at the root is the only node of the tree.
    proof fn lemma_leaf_root_alone(&self, x: int)
        requires
            self.links_all(),
            forall|i: int| #[trigger] self.cache_ok(i),
            self.is_leaf(x),
            self.parent_of(x) is None,
        ensures
            forall|j: int| #[trigger] self.live(j) ==> j == x,
    {
        assert(self.links_ok(x));
        assert forall|j: int| #[trigger] self.live(j) implies j == x by {
            if j != x {
                let path = self.path_to_root(j);
                assert(self.live(path.last()));
                assert(self.links_ok(path.last()));
                assert(path.last() == x);
                assert(path.len() >= 2);
                let k = path.len() - 2;
                assert(self.parent_of(path[k]) == Some(path[k + 1] as usize));
                assert(self.links_ok(path[k]));
            }
        }
    }

    /// Whether node `i` holds a leaf.
    fn holds_leaf(&self, i: usize) -> (r: bool)
        requires
            i < self.nodes().len(),
        ensures
            r == self.nodes()[i as int].is_leaf(),
    {
        match &self.nodes[i].content {
            NodeContent::Leaf(_) => true,
            _ => false,
        }
    }

    /// Takes leaf `x` (whose parent is `p`) out of the tree: `x` and `p` are freed and the
    /// sibling of `x` takes the place of `p`.
    #[verifier::spinoff_prover]
    #[verifier::rlimit(60)]
    fn detach(&mut self, x: usize, p: usize, Ghost(ppath): Ghost<Seq<int>>) -> (r: NodeContent<T>)
        requires
            old(self).wf(),
            old(self).is_leaf(x as int),
            old(self).parent_of(x as int) == Some(p),
            old(self).is_path(ppath),
            ppath[0] == p,
        ensures
            final(self).links_all(),
            final(self).fns_total(),
            final(self).root_ok(),
            final(self).free_ok(),
            match old(self).parent_of(p as int) {
                Some(g) => final(self).is_path(ppath.drop_first()) && ppath.drop_first()[0] == g
                    && final(self).is_branch(g as int),
                None => ppath.drop_first().len() == 0,
            },
            final(self).cache_ok_outside(ppath.drop_first()),
            r == old(self).node(x as int).content,
            final(self).leaves() == old(self).leaves().remove(x as int),
            final(self).balanced_outside(ppath.drop_first()),
            forall|k: int|
                1 <= k < ppath.drop_first().len() ==> #[trigger] final(self).stale_ok(
                    ppath.drop_first()[k],
                ),
            old(self).parent_of(p as int) matches Some(g) ==> final(self).settling(
                g as int,
                old(self).node(p as int).child(!old(self).side_of(x as int)),
                old(self).depth_of(p as int) as int,
                true,
            ),
            final(self).hierachy == old(self).hierachy,
            final(self).join == old(self).join,
            final(self).prefer_left == old(self).prefer_left,
    {
        let ghost s0 = *self;
        assert(self.links_ok(x as int));
        assert(self.links_ok(p as int));
        let (l, rr) = self.children(p).unwrap();
        let s = if self.nodes[x].right_child {
            l
        } else {
            rr
        };
        assert(self.links_ok(s as int));
        let g = self.nodes[p].parent;
        let pside = self.nodes[p].right_child;
        let ghost gg = g;
        assert(x != p && s != p && s != x);
        assert(!self.free_list().contains(x) && !self.free_list().contains(p)) by {
            if self.free_list().contains(x) {
                let k = choose|k: int| 0 <= k < self.free_list().len() && self.free_list()[k] == x;
                assert(self.nodes()[self.free_list()[k] as int].is_free());
            }
            if self.free_list().contains(p) {
                let k = choose|k: int| 0 <= k < self.free_list().len() && self.free_list()[k] == p;
                assert(self.nodes()[self.free_list()[k] as int].is_free());
            }
        }
        let mut content = NodeContent::Free;
        std::mem::swap(&mut self.nodes[x].content, &mut content);
        self.free.push(x);
        match g {
            Some(gi) => {
                assert(s0.links_ok(gi as int));
                let (gl, gr) = self.children(gi).unwrap();
                self.nodes[gi].content = if pside {
                    NodeContent::Branch(gl, s)
                } else {
                    NodeContent::Branch(s, gr)
                };
                self.nodes[s].right_child = pside;
            },
            None => {
                self.root = Some(s);
                self.nodes[s].right_child = false;
            },
        }
        self.nodes[s].parent = g;
        self.nodes[p].content = NodeContent::Free;
        self.free.push(p);
        let ghost s2 = *self;
        assert(s2.free_list() =~= s0.free_list().push(x).push(p));
        assert forall|j: int| #[trigger] s2.links_ok(j) by {
            assert(s0.links_ok(j));
            if s2.live(j) {
                if s0.is_branch(j) {
                    assert(s0.links_ok(s0.node(j).child(false)));
                    assert(s0.links_ok(s0.node(j).child(true)));
                }
                if let Some(q) = s0.parent_of(j) {
                    assert(s0.links_ok(q as int));
                }
            }
        }
        let ghost path = ppath.drop_first();
        assert(!path.contains(p as int)) by {
            if path.contains(p as int) {
                let m = choose|m: int| 0 <= m < path.len() && path[m] == p;
                assert(ppath[m + 1] == p);
            }
        }
        assert(forall|k: int| 0 <= k < path.len() ==> path[k] == ppath[k + 1]);
        assert(!path.contains(s as int) && !path.contains(x as int)) by {
            if path.contains(s as int) {
                let m = choose|m: int| 0 <= m < path.len() && path[m] == s;
                assert(ppath[m + 1] == s);
                assert(s0.parent_of(ppath[m]) == Some(ppath[m + 1] as usize));
                assert(s0.links_ok(ppath[m]));
                assert(s0.links_ok(s as int));
            }
            if path.contains(x as int) {
                let m = choose|m: int| 0 <= m < path.len() && path[m] == x;
                assert(ppath[m + 1] == x);
                assert(s0.parent_of(ppath[m]) == Some(ppath[m + 1] as usize));
                assert(s0.links_ok(ppath[m]));
            }
        }
        proof {
        match gg {
                Some(gi) => {
                    assert(ppath.len() > 1);
                    assert(s0.parent_of(ppath[0]) == Some(ppath[1] as usize));
                    assert(path[0] == gi);
                    assert(s2.is_path(path)) by {
                        assert forall|k: int| 0 <= k < path.len() implies s2.live(#[trigger] path[k]) by {
                            assert(s0.live(ppath[k + 1]));
                        }
                        assert forall|k: int| 0 <= k < path.len() - 1 implies s2.parent_of(
                            #[trigger] path[k],
                        ) == Some(path[k + 1] as usize) by {
                            assert(s0.parent_of(ppath[k + 1]) == Some(ppath[k + 2] as usize));
                        }
                        assert(path.last() == ppath.last());
                        assert(path.no_duplicates()) by {
                            assert forall|a: int, b: int|
                                0 <= a < path.len() && 0 <= b < path.len() && a != b implies path[a]
                                != path[b] by {
                                assert(path[a] == ppath[a + 1]);
                                assert(path[b] == ppath[b + 1]);
                            }
                        }
                    }
                },
                None => {
                    assert(ppath.len() == 1) by {
                        if ppath.len() > 1 {
                            assert(s0.parent_of(ppath[0]) == Some(ppath[1] as usize));
                        }
                    }
                },
            }
        }
        assert forall|j: int| !path.contains(j) implies #[trigger] s2.cache_ok(j) by {
            assert(s0.cache_ok(j));
            if s2.live(j) && Some(j as usize) != gg {
                assert(s0.live(j));
                if s0.is_branch(j) {
                    assert(s0.links_ok(j));
                    assert(s0.links_ok(s0.node(j).child(false)));
                    assert(s0.links_ok(s0.node(j).child(true)));
                }
            }
            if s2.live(j) && Some(j as usize) == gg {
                assert(path.len() > 0);
                assert(path[0] == j);
            }
        }
        assert(s2.root_ok()) by {
            if s2.root_index() is None {
                assert(false);
            }
        }
        assert(s2.free_ok()) by {
            assert forall|k: int| 0 <= k < s2.free_list().len() implies {
                let f = #[trigger] s2.free_list()[k] as int;
                0 <= f < s2.nodes().len() && s2.nodes()[f].is_free()
            } by {
                if k < s0.free_list().len() {
                    assert(s2.free_list()[k] == s0.free_list()[k]);
                    let f = s0.free_list()[k] as int;
                    assert(s0.nodes()[f].is_free());
                }
            }
            assert forall|j: int|
                0 <= j < s2.nodes().len() && #[trigger] s2.nodes()[j].is_free() implies s2.free_list().contains(
                j as usize,
            ) by {
                if j != x && j != p {
                    assert(s0.nodes()[j].is_free());
                    let k = choose|k: int|
                        0 <= k < s0.free_list().len() && s0.free_list()[k] == j as usize;
                    assert(s2.free_list()[k] == j as usize);
                } else if j == x {
                    assert(s2.free_list()[s0.free_list().len() as int] == x);
                } else {
                    assert(s2.free_list()[s0.free_list().len() + 1int] == p);
                }
            }
        }
        assert(s2.leaves() =~= s0.leaves().remove(x as int)) by {
            assert forall|j: int| #[trigger] s2.is_leaf(j) == (s0.is_leaf(j) && j != x) by {
                if 0 <= j < s0.nodes().len() && j != x && j != p {
                    assert(s2.nodes()[j].content == s0.nodes()[j].content || (s0.is_branch(j)
                        && s2.is_branch(j)));
                }
            }
        }
        proof {
            s2.lemma_detach_balance(&s0, x as int, p as int, s as int, ppath);
        }
        content
    }

    /// Balance after leaf `x` and its parent `p` leave the tree and the sibling `s` of `x`
    /// takes the place of `p`: no depth changed, and only the parent of `p` has a new child.
    proof fn lemma_detach_balance(&self, s0: &Self, x: int, p: int, s: int, ppath: Seq<int>)
        requires
            s0.wf(),
            s0.is_leaf(x),
            s0.parent_of(x) == Some(p as usize),
            s0.node(p).child(!s0.side_of(x)) == s,
            s0.is_path(ppath),
            ppath[0] == p,
            self.nodes().len() == s0.nodes().len(),
            !self.live(x),
            !self.live(p),
            forall|j: int|
                0 <= j < s0.nodes().len() ==> #[trigger] self.depth_of(j) == s0.depth_of(j),
            forall|j: int|
                0 <= j < s0.nodes().len() && j != x && j != p && Some(j as usize) != s0.parent_of(p)
                    ==> #[trigger] self.nodes()[j].content == s0.nodes()[j].content,
            s0.parent_of(p) matches Some(g) ==> {
                &&& self.is_branch(g as int)
                &&& self.node(g as int).child(s0.side_of(p)) == s
                &&& self.node(g as int).child(!s0.side_of(p)) == s0.node(g as int).child(!s0.side_of(p))
            },
        ensures
            self.balanced_outside(ppath.drop_first()),
            forall|k: int|
                1 <= k < ppath.drop_first().len() ==> #[trigger] self.stale_ok(ppath.drop_first()[k]),
            s0.parent_of(p) matches Some(g) ==> self.settling(g as int, s, s0.depth_of(p) as int, true),
    {
        let path = ppath.drop_first();
        assert(s0.links_ok(x));
        assert(s0.links_ok(p));
        assert(s0.cache_ok(x));
        assert(s0.cache_ok(p));
        assert(forall|k: int| 0 <= k < path.len() ==> path[k] == ppath[k + 1]);
        let is_g = |j: int| Some(j as usize) == s0.parent_of(p);
        assert forall|j: int| !path.contains(j) implies #[trigger] self.balanced_at(j) by {
            if self.is_branch(j) {
                assert(j != x && j != p);
                assert(!is_g(j)) by {
                    if is_g(j) {
                        assert(ppath.len() > 1) by {
                            if ppath.len() == 1 {
                                assert(ppath.last() == p);
                            }
                        }
                        assert(s0.parent_of(ppath[0]) == Some(ppath[1] as usize));
                        assert(path[0] == j);
                    }
                }
                assert(self.nodes()[j].content == s0.nodes()[j].content);
                assert(s0.balanced_at(j));
                assert(s0.links_ok(j));
                assert(s0.links_ok(s0.node(j).child(false)));
                assert(s0.links_ok(s0.node(j).child(true)));
            }
        }
        assert forall|k: int| 1 <= k < path.len() implies #[trigger] self.stale_ok(path[k]) by {
            let y = path[k];
            assert(y == ppath[k + 1]);
            assert(s0.parent_of(ppath[0]) == Some(ppath[1] as usize));
            assert(s0.parent_of(ppath[k]) == Some(ppath[k + 1] as usize));
            assert(s0.links_ok(ppath[k]));
            assert(s0.is_branch(y));
            assert(y != ppath[1]);
            assert(y != x && y != p) by {
                assert(ppath[0] == p);
                assert(s0.live(y));
            }
            assert(self.nodes()[y].content == s0.nodes()[y].content);
            assert(s0.cache_ok(y));
            assert(s0.balanced_at(y));
            assert(s0.links_ok(y));
            assert(s0.links_ok(s0.node(y).child(false)));
            assert(s0.links_ok(s0.node(y).child(true)));
        }
        if let Some(g) = s0.parent_of(p) {
            assert(s0.links_ok(g as int));
            assert(s0.cache_ok(g as int));
            assert(s0.balanced_at(g as int));
            let o = s0.node(g as int).child(!s0.side_of(p));
            assert(s0.links_ok(o));
            assert(s0.links_ok(s));
            assert(o != s);
        }
    }

    /// Removes a leaf from the hierarchy and hands it back; fails, handing the reference back,
    /// when it does not refer to a leaf of this hierarchy.
    pub fn remove(&mut self, leaf_ref: LeafInHierachy) -> (r: Result<
        LeafOutsideHierachy<T, B>,
        LeafInHierachy,
    >)
        requires
            old(self).wf(),
        ensures
            final(self).wf(),
            final(self).id() == old(self).id(),
            final(self).join_fn() == old(self).join_fn(),
            final(self).choose_fn() == old(self).choose_fn(),
            !old(self).owns(&leaf_ref) ==> r == Err::<LeafOutsideHierachy<T, B>, _>(leaf_ref)
                && *final(self) == *old(self),
            old(self).owns(&leaf_ref) ==> (r matches Ok(out) && out.owner() == old(self).id()
                && (out.collider(), out.bounds()) == old(self).leaves()[leaf_ref.index()]
                && final(self).leaves() == old(self).leaves().remove(leaf_ref.index())
                && final(self).leaves().len() + 1 == old(self).leaves().len()),
            final(self).leaves().is_empty() ==> final(self).root_index() is None
                && final(self).spec_depth() == 0,
    {
        proof {
            self.law_empty_iff_no_root();
            self.law_node_count();
        }
        if leaf_ref.hierachy != self.hierachy || leaf_ref.leaf >= self.nodes.len()
            || !self.holds_leaf(leaf_ref.leaf) {
            return Err(leaf_ref);
        }
        let x = leaf_ref.leaf;
        let hierachy = self.hierachy;
        assert(self.links_ok(x as int));
        let bounds = self.nodes[x].bounds;
        let content = match self.nodes[x].parent {
            None => {
                let ghost s0 = *self;
                proof {
                    self.lemma_leaf_root_alone(x as int);
                }
                assert(!self.free_list().contains(x)) by {
                    if self.free_list().contains(x) {
                        let k = choose|k: int|
                            0 <= k < self.free_list().len() && self.free_list()[k] == x;
                        assert(self.nodes()[self.free_list()[k] as int].is_free());
                    }
                }
                let mut content = NodeContent::Free;
                std::mem::swap(&mut self.nodes[x].content, &mut content);
                self.free.push(x);
                self.root = None;
                let ghost s1 = *self;
                assert(forall|j: int| 0 <= j < s1.nodes().len() ==> !#[trigger] s1.live(j)) by {
                    assert forall|j: int| 0 <= j < s1.nodes().len() implies !#[trigger] s1.live(j) by {
                        if j != x {
                            assert(!s0.live(j));
                        }
                    }
                }
                assert(s1.free_list() =~= s0.free_list().push(x));
                assert(s1.free_ok()) by {
                    assert forall|k: int| 0 <= k < s1.free_list().len() implies {
                        let f = #[trigger] s1.free_list()[k] as int;
                        0 <= f < s1.nodes().len() && s1.nodes()[f].is_free()
                    } by {
                        if k < s0.free_list().len() {
                            assert(s1.free_list()[k] == s0.free_list()[k]);
                        }
                    }
                    assert forall|j: int|
                        0 <= j < s1.nodes().len() && #[trigger] s1.nodes()[j].is_free() implies s1.free_list().contains(
                        j as usize,
                    ) by {
                        if j != x {
                            assert(s0.nodes()[j].is_free());
                            let k = choose|k: int|
                                0 <= k < s0.free_list().len() && s0.free_list()[k] == j as usize;
                            assert(s1.free_list()[k] == j as usize);
                        } else {
                            assert(s1.free_list()[s0.free_list().len() as int] == x);
                        }
                    }
                }
                assert forall|j: int| #[trigger] s1.links_ok(j) && s1.cache_ok(j) by {
                    assert(!s1.live(j));
                }
                assert(s1.leaves() =~= s0.leaves().remove(x as int)) by {
                    assert forall|j: int| #[trigger] s1.is_leaf(j) == (s0.is_leaf(j) && j != x) by {
                        assert(!s1.live(j));
                    }
                }
                content
            },
            Some(p) => {
                let ghost ppath = self.path_to_root(p as int);
                let g = self.nodes[p].parent;
                let ghost sib = self.node(p as int).child(!self.side_of(x as int));
                let ghost dp = self.depth_of(p as int) as int;
                let content = self.detach(x, p, Ghost(ppath));
                self.fix_upwards(g, Ghost(ppath.drop_first()), Ghost(sib), Ghost(dp));
                content
            },
        };
        proof {
            self.law_empty_iff_no_root();
        }
        match content {
            NodeContent::Leaf(collider) => Ok(LeafOutsideHierachy { collider, bounds, hierachy }),
            _ => {
                assert(false);
                Err(LeafInHierachy { leaf: x, hierachy })
            },
        }
    }

    // ------------------------------------------------------------------
    // Construction and queries
    // ------------------------------------------------------------------
    /// An empty hierarchy using the given geometry. Its identity, which leaves registered
    /// with it carry, is a random 64-bit value: nothing states that two hierarchies differ in
    /// it, so a leaf of another hierarchy is refused only with probability `1 - 2^-64`.
    pub fn new(join: J, prefer_left: C) -> (r: Self)
        requires
            forall|a: &B, b: &B| #[trigger] call_requires(join, (a, b)),
            forall|a: &B, b: &B, c: &B| #[trigger] call_requires(prefer_left, (a, b, c)),
        ensures
            r.wf(),
            r.leaves() == Map::<int, (T, B)>::empty(),
            r.root_index() is None,
            r.join_fn() == join,
            r.choose_fn() == prefer_left,
    {
        let state = std::hash::RandomState::new();
        let hierachy = hash_zero(&state);
        let r = BVH { root: None, nodes: Vec::new(), free: Vec::new(), hierachy, join, prefer_left };
        assert(r.leaves() =~= Map::<int, (T, B)>::empty());
        r
    }

    /// Wraps a collider and its bounds so that it can be inserted into this hierarchy.
    pub fn register_collider(&self, collider: T, bounds: B) -> (r: LeafOutsideHierachy<T, B>)
        ensures
            r.collider() == collider,
            r.bounds() == bounds,
            r.owner() == self.id(),
    {
        LeafOutsideHierachy { collider, bounds, hierachy: self.hierachy }
    }

    /// Depth of the tree (that of its root), 0 when empty.
    pub fn depth(&self) -> (r: usize)
        requires
            self.wf(),
        ensures
            r == self.spec_depth(),
    {
        match self.root {
            Some(root) => self.nodes[root].depth,
            None => 0,
        }
    }

    /// Index of the root node, if any.
    pub fn get_root(&self) -> (r: Option<usize>)
        ensures
            r == self.root_index(),
    {
        self.root
    }

    /// Removes the leaf, applies `modification` to its collider, which gives the new
    /// collider and its bounds, and inserts it again, updating `leaf_ref`; fails, changing
    /// nothing, when `leaf_ref` does not refer to a leaf of this hierarchy.
    pub fn modify_leaf<F>(&mut self, leaf_ref: &mut LeafInHierachy, modification: F) -> (r: Result<
        (),
        (),
    >) where F: FnOnce(T) -> (T, B)
        requires
            old(self).wf(),
            forall|t: T| #[trigger] call_requires(modification, (t,)),
        ensures
            final(self).wf(),
            final(self).id() == old(self).id(),
            final(self).join_fn() == old(self).join_fn(),
            final(self).choose_fn() == old(self).choose_fn(),
            !old(self).owns(old(leaf_ref)) ==> r == Err::<(), ()>(()) && *final(self) == *old(self)
                && *final(leaf_ref) == *old(leaf_ref),
            old(self).owns(old(leaf_ref)) ==> {
                &&& r == Ok::<(), ()>(())
                &&& final(self).owns(final(leaf_ref))
                &&& call_ensures(
                    modification,
                    (old(self).leaves()[old(leaf_ref).index()].0,),
                    final(self).leaves()[final(leaf_ref).index()],
                )
                &&& !old(self).leaves().remove(old(leaf_ref).index()).contains_key(
                    final(leaf_ref).index(),
                )
                &&& final(self).leaves() == old(self).leaves().remove(old(leaf_ref).index()).insert(
                    final(leaf_ref).index(),
                    final(self).leaves()[final(leaf_ref).index()],
                )
                &&& final(self).leaves().len() == old(self).leaves().len()
            },
    {
        if leaf_ref.hierachy != self.hierachy || leaf_ref.leaf >= self.nodes.len()
            || !self.holds_leaf(leaf_ref.leaf) {
            return Err(());
        }
        let ghost s0 = *self;
        // a second reference to the leaf is used for the removal; `leaf_ref` is replaced below
        let handle = LeafInHierachy { leaf: leaf_ref.leaf, hierachy: leaf_ref.hierachy };
        match self.remove(handle) {
            Ok(out) => {
                let LeafOutsideHierachy { collider, bounds: _, hierachy } = out;
                let (collider, bounds) = modification(collider);
                let ghost s1 = *self;
                match self.insert(LeafOutsideHierachy { collider, bounds, hierachy }) {
                    Ok(h) => {
                        *leaf_ref = h;
                        assert(self.leaves()[h.index()] == (collider, bounds));
                        assert(self.leaves() =~= s0.leaves().remove(handle.index()).insert(
                            h.index(),
                            (collider, bounds),
                        ));
                        Ok(())
                    },
                    Err(_) => {
                        assert(false);
                        Err(())
                    },
                }
            },
            Err(_) => {
                assert(false);
                Err(())
            },
        }
    }

    /// Depth first iterator over the nodes, starting at the root.
    pub fn iter(&self) -> (it: DepthIter<'_, T, B, J, C>)
        requires
            self.wf(),
        ensures
            it.tree() == self,
            it.stack_ok(),
            it.stacked() == match self.root_index() {
                Some(r) => seq![r],
                None => Seq::<usize>::empty(),
            },
            it.pending() == self.live_nodes(),
            it.order() == match self.root_index() {
                Some(r) => self.walk(r as int),
                None => Seq::<int>::empty(),
            },
    {
        let it = match self.root {
            Some(root) => DepthIter { tree: self, stack: vec![root] },
            None => DepthIter { tree: self, stack: Vec::new() },
        };
        let ghost q = it.stack@;
        assert(self.queue_ok(q)) by {
            assert forall|a: usize, b: usize| q.contains(a) && q.contains(b) implies a == b by {
                let ja = choose|j: int| 0 <= j < q.len() && q[j] == a;
                let jb = choose|j: int| 0 <= j < q.len() && q[j] == b;
            }
        }
        assert(it.order() =~= match self.root_index() {
            Some(r) => self.walk(r as int),
            None => Seq::<int>::empty(),
        }) by {
            if let Some(r) = self.root_index() {
                assert(q.drop_last() =~= Seq::<usize>::empty());
                assert(self.walk_stack(q.drop_last()) == Seq::<int>::empty());
            }
        }
        assert(it.pending() =~= self.live_nodes()) by {
            assert forall|x: int| #[trigger] it.pending().contains(x) <==> self.live(x) by {
                if self.live(x) {
                    self.lemma_below_root(x);
                    let r = self.root_index().unwrap();
                    assert(q[0] == r);
                    assert(q.contains(r));
                }
                if it.pending().contains(x) {
                    let a = choose|a: usize| #[trigger] q.contains(a) && self.below(x, a as int);
                }
            }
        }
        it
    }

    /// The node at index `i`, if the slot is in use.
    pub fn get_node(&self, i: usize) -> (r: Option<&Node<T, B>>)
        ensures
            r is Some <==> self.live(i as int),
            r matches Some(n) ==> *n == self.node(i as int),
    {
        if i < self.nodes.len() && !self.is_free_slot(i) {
            Some(&self.nodes[i])
        } else {
            None
        }
    }

    fn is_free_slot(&self, i: usize) -> (r: bool)
        requires
            i < self.nodes().len(),
        ensures
            r == self.nodes()[i as int].is_free(),
    {
        match &self.nodes[i].content {
            NodeContent::Free => true,
            _ => false,
        }
    }

    /// Nothing is computed: overlap queries are not implemented by this hierarchy.
    pub fn get_overlaps(&self) {
    }

    // ------------------------------------------------------------------
    // Subtrees
    // ------------------------------------------------------------------
    /// The node reached from `x` by following `n` parent links.
    pub closed spec fn ancestor(&self, x: int, n: nat) -> Option<int>
        decreases n,
    {
        if n == 0 {
            Some(x)
        } else {
            match self.parent_of(x) {
                None => None,
                Some(p) => self.ancestor(p as int, (n - 1) as nat),
            }
        }
    }

    /// `x` is a node of the subtree rooted at `a`.
    pub closed spec fn below(&self, x: int, a: int) -> bool {
        self.live(x) && exists|n: nat| #[trigger] self.ancestor(x, n) == Some(a)
    }

    /// The nodes of the subtree rooted at `a`.
    pub closed spec fn subtree(&self, a: int) -> Set<int> {
        Set::new(|x: int| self.below(x, a))
    }

    /// The nodes of the tree.
    pub closed spec fn live_nodes(&self) -> Set<int> {
        Set::new(|x: int| self.live(x))
    }

    /// Following parent links from a node only meets nodes, each deeper than the last.
    proof fn lemma_ancestor_live(&self, x: int, n: nat)
        requires
            self.wf(),
            self.live(x),
            self.ancestor(x, n) is Some,
        ensures
            self.live(self.ancestor(x, n).unwrap()),
            n > 0 ==> self.depth_of(self.ancestor(x, n).unwrap()) > self.depth_of(x),
        decreases n,
    {
        if n > 0 {
            assert(self.links_ok(x));
            let p = self.parent_of(x).unwrap() as int;
            assert(self.cache_ok(p));
            self.lemma_ancestor_live(p, (n - 1) as nat);
        }
    }

    proof fn lemma_ancestor_compose(&self, x: int, a: nat, b: nat)
        requires
            self.ancestor(x, a) is Some,
        ensures
            self.ancestor(x, a + b) == self.ancestor(self.ancestor(x, a).unwrap(), b),
        decreases a,
    {
        if a > 0 {
            let p = self.parent_of(x).unwrap() as int;
            self.lemma_ancestor_compose(p, (a - 1) as nat, b);
            assert(self.ancestor(x, a + b) == self.ancestor(p, (a + b - 1) as nat));
        }
    }

    proof fn lemma_ancestor_prefix(&self, x: int, n: nat, k: nat)
        requires
            self.ancestor(x, n) is Some,
            k <= n,
        ensures
            self.ancestor(x, k) is Some,
        decreases k,
    {
        if k > 0 {
            let p = self.parent_of(x).unwrap() as int;
            self.lemma_ancestor_prefix(p, (n - 1) as nat, (k - 1) as nat);
        }
    }

    /// Every node lies in the subtree of the root.
    proof fn lemma_below_root(&self, x: int)
        requires
            self.wf(),
            self.live(x),
        ensures
            self.root_index() matches Some(r) && self.below(x, r as int),
    {
        let path = self.path_to_root(x);
        assert forall|k: int| 0 <= k < path.len() implies #[trigger] self.ancestor(x, k as nat) == Some(
            path[k],
        ) by {
            self.lemma_path_ancestor(path, k);
        }
        let last = path.len() - 1;
        assert(self.ancestor(x, last as nat) == Some(path[last]));
        assert(self.live(path.last()));
        assert(self.links_ok(path.last()));
    }

    proof fn lemma_path_ancestor(&self, path: Seq<int>, k: int)
        requires
            self.is_path(path),
            0 <= k < path.len(),
        ensures
            self.ancestor(path[0], k as nat) == Some(path[k]),
        decreases k,
    {
        if k > 0 {
            self.lemma_path_ancestor(path, k - 1);
            self.lemma_ancestor_compose(path[0], (k - 1) as nat, 1);
            assert(self.parent_of(path[k - 1]) == Some(path[k] as usize));
            assert(self.ancestor(path[k - 1], 1) == self.ancestor(path[k], 0));
        }
    }

    /// The subtree of a branch is the branch with the subtrees of its two children, which
    /// share no node and do not hold the branch; a leaf's subtree is the leaf alone.
    proof fn lemma_subtree_split(&self, i: int)
        requires
            self.wf(),
            self.live(i),
        ensures
            self.below(i, i),
            self.is_branch(i) ==> {
                let l = self.node(i).child(false);
                let r = self.node(i).child(true);
                &&& forall|x: int| #[trigger] self.below(x, i) <==> (x == i || self.below(x, l) || self.below(x, r))
                &&& forall|x: int| !(#[trigger] self.below(x, l) && self.below(x, r))
                &&& !self.below(i, l)
                &&& !self.below(i, r)
            },
            !self.is_branch(i) ==> forall|x: int| #[trigger] self.below(x, i) <==> x == i,
    {
        assert(self.ancestor(i, 0) == Some(i));
        assert(self.links_ok(i));
        assert(self.cache_ok(i));
        let l = self.node(i).child(false);
        let r = self.node(i).child(true);
        assert forall|x: int| #[trigger] self.below(x, i) implies (x == i || (self.is_branch(i) && (
        self.below(x, l) || self.below(x, r)))) by {
            let n = choose|n: nat| #[trigger] self.ancestor(x, n) == Some(i);
            if n > 0 {
                self.lemma_ancestor_prefix(x, n, (n - 1) as nat);
                self.lemma_ancestor_compose(x, (n - 1) as nat, 1);
                let d = self.ancestor(x, (n - 1) as nat).unwrap();
                self.lemma_ancestor_live(x, (n - 1) as nat);
                assert(self.links_ok(d));
                assert(self.ancestor(d, 1) == Some(i));
                let p = self.parent_of(d).unwrap();
                assert(self.ancestor(p as int, 0) == Some(p as int));
                assert(self.parent_of(d) == Some(i as usize));
                if self.side_of(d) {
                    assert(d == r);
                } else {
                    assert(d == l);
                }
            }
        }
        if self.is_branch(i) {
            assert forall|x: int| (self.below(x, l) || self.below(x, r)) implies #[trigger] self.below(x, i) by {
                if self.below(x, l) {
                    let n = choose|n: nat| #[trigger] self.ancestor(x, n) == Some(l);
                    self.lemma_ancestor_compose(x, n, 1);
                    assert(self.ancestor(l, 1) == self.ancestor(i, 0));
                    assert(self.ancestor(x, n + 1) == Some(i));
                } else {
                    let n = choose|n: nat| #[trigger] self.ancestor(x, n) == Some(r);
                    self.lemma_ancestor_compose(x, n, 1);
                    assert(self.ancestor(r, 1) == self.ancestor(i, 0));
                    assert(self.ancestor(x, n + 1) == Some(i));
                }
            }
            assert forall|x: int| !(#[trigger] self.below(x, l) && self.below(x, r)) by {
                if self.below(x, l) && self.below(x, r) {
                    let n1 = choose|n: nat| #[trigger] self.ancestor(x, n) == Some(l);
                    let n2 = choose|n: nat| #[trigger] self.ancestor(x, n) == Some(r);
                    self.lemma_ancestor_compose(x, n1, 1);
                    self.lemma_ancestor_compose(x, n2, 1);
                    assert(self.ancestor(l, 1) == self.ancestor(i, 0));
                    assert(self.ancestor(r, 1) == self.ancestor(i, 0));
                    if n1 < n2 {
                        self.lemma_ancestor_compose(x, n1 + 1, (n2 - n1) as nat);
                        self.lemma_ancestor_live(i, (n2 - n1) as nat);
                    } else if n2 < n1 {
                        self.lemma_ancestor_compose(x, n2 + 1, (n1 - n2) as nat);
                        self.lemma_ancestor_live(i, (n1 - n2) as nat);
                    }
                }
            }
            assert(!self.below(i, l)) by {
                if self.below(i, l) {
                    let n = choose|n: nat| #[trigger] self.ancestor(i, n) == Some(l);
                    self.lemma_ancestor_live(i, n);
                }
            }
            assert(!self.below(i, r)) by {
                if self.below(i, r) {
                    let n = choose|n: nat| #[trigger] self.ancestor(i, n) == Some(r);
                    self.lemma_ancestor_live(i, n);
                }
            }
        }
    }

    /// The nodes of the subtree of `i` in depth first order: `i`, then its left subtree, then
    /// its right subtree.
    pub closed spec fn walk(&self, i: int) -> Seq<int>
        decreases self.depth_of(i),
        when self.wf() && self.live(i)
    {
        if self.is_branch(i) {
            proof {
                assert(self.links_ok(i));
                assert(self.cache_ok(i));
            }
            seq![i] + self.walk(self.node(i).child(false)) + self.walk(self.node(i).child(true))
        } else {
            seq![i]
        }
    }

    /// The nodes that a depth first walk yields from a stack of subtrees: those of the subtree
    /// on top first.
    pub closed spec fn walk_stack(&self, q: Seq<usize>) -> Seq<int>
        decreases q.len(),
    {
        if q.len() == 0 {
            seq![]
        } else {
            self.walk(q.last() as int) + self.walk_stack(q.drop_last())
        }
    }

    /// The nodes of the subtrees rooted at the nodes of `q`.
    pub closed spec fn covered(&self, q: Seq<usize>) -> Set<int> {
        Set::new(|x: int| exists|a: usize| #[trigger] q.contains(a) && self.below(x, a as int))
    }

    /// The nodes of `q` are distinct nodes of the tree whose subtrees do not overlap.
    pub closed spec fn queue_ok(&self, q: Seq<usize>) -> bool {
        &&& q.no_duplicates()
        &&& forall|k: int| 0 <= k < q.len() ==> self.live(#[trigger] q[k] as int)
        &&& forall|a: usize, b: usize, x: int|
            #![trigger q.contains(a), q.contains(b), self.below(x, a as int), self.below(x, b as int)]
            q.contains(a) && q.contains(b) && a != b ==> !(self.below(x, a as int) && self.below(
                x,
                b as int,
            ))
    }

    /// The children of node `i`, right then left (the order in which a depth first walk
    /// stacks them), if it is a branch.
    pub closed spec fn kids(&self, i: int) -> Seq<usize> {
        if self.is_branch(i) {
            seq![self.node(i).child(true) as usize, self.node(i).child(false) as usize]
        } else {
            seq![]
        }
    }

    /// Taking a node out of the queue and queueing its children leaves the same nodes to
    /// visit but that node.
    proof fn lemma_pop(&self, q: Seq<usize>, pos: int)
        requires
            self.wf(),
            self.queue_ok(q),
            0 <= pos < q.len(),
        ensures
            self.covered(q).contains(q[pos] as int),
            self.queue_ok(q.remove(pos) + self.kids(q[pos] as int)),
            self.covered(q.remove(pos) + self.kids(q[pos] as int)) == self.covered(q).remove(
                q[pos] as int,
            ),
    {
        let i = q[pos];
        let rest = q.remove(pos);
        let kids = self.kids(i as int);
        let q2 = rest + kids;
        assert(self.live(i as int));
        self.lemma_subtree_split(i as int);
        assert(q.contains(i));
        assert(self.covered(q).contains(i as int));
        assert(self.links_ok(i as int));
        // what the new queue holds
        assert forall|y: usize| #[trigger] rest.contains(y) <==> (q.contains(y) && y != i) by {
            if rest.contains(y) {
                let j = choose|j: int| 0 <= j < rest.len() && rest[j] == y;
                if j < pos {
                    assert(q[j] == y);
                } else {
                    assert(q[j + 1] == y);
                }
            }
            if q.contains(y) && y != i {
                let j = choose|j: int| 0 <= j < q.len() && q[j] == y;
                if j < pos {
                    assert(rest[j] == y);
                } else {
                    assert(j != pos);
                    assert(rest[j - 1] == y);
                }
            }
        }
        assert forall|y: usize| #[trigger] q2.contains(y) <==> (rest.contains(y) || kids.contains(y)) by {
            if q2.contains(y) {
                let j = choose|j: int| 0 <= j < q2.len() && q2[j] == y;
                if j < rest.len() {
                    assert(rest[j] == y);
                } else {
                    assert(kids[j - rest.len()] == y);
                }
            }
            if rest.contains(y) {
                let j = choose|j: int| 0 <= j < rest.len() && rest[j] == y;
                assert(q2[j] == y);
            }
            if kids.contains(y) {
                let j = choose|j: int| 0 <= j < kids.len() && kids[j] == y;
                assert(q2[rest.len() + j] == y);
            }
        }
        let l = self.node(i as int).child(false);
        let r = self.node(i as int).child(true);
        assert forall|y: usize| #[trigger] kids.contains(y) <==> (self.is_branch(i as int) && (y as int == l || y as int == r)) by {
            if kids.contains(y) {
                let j = choose|j: int| 0 <= j < kids.len() && kids[j] == y;
                assert(j == 0 || j == 1);
            }
            if self.is_branch(i as int) && y as int == l {
                assert(kids[1] == y);
            }
            if self.is_branch(i as int) && y as int == r {
                assert(kids[0] == y);
            }
        }
        // the children are new to the queue
        assert forall|y: usize| kids.contains(y) implies !rest.contains(y) && self.below(y as int, i as int) by {
            assert(self.below(y as int, y as int)) by {
                assert(self.ancestor(y as int, 0) == Some(y as int));
            }
            if rest.contains(y) {
                assert(q.contains(y) && q.contains(i) && y != i);
                assert(!(self.below(y as int, y as int) && self.below(y as int, i as int)));
            }
        }
        // no duplicates
        assert(rest.no_duplicates()) by {
            assert forall|a: int, b: int| 0 <= a < rest.len() && 0 <= b < rest.len() && a != b implies rest[a]
                != rest[b] by {
                let a2 = if a < pos { a } else { a + 1 };
                let b2 = if b < pos { b } else { b + 1 };
                assert(rest[a] == q[a2]);
                assert(rest[b] == q[b2]);
            }
        }
        assert(q2.no_duplicates()) by {
            assert forall|a: int, b: int| 0 <= a < q2.len() && 0 <= b < q2.len() && a != b implies q2[a]
                != q2[b] by {
                if a < rest.len() && b < rest.len() {
                    assert(q2[a] == rest[a] && q2[b] == rest[b]);
                } else if a >= rest.len() && b >= rest.len() {
                    assert(q2[a] == kids[a - rest.len()] && q2[b] == kids[b - rest.len()]);
                    assert(self.live(l) && self.side_of(l) != self.side_of(r));
                } else if a < rest.len() {
                    assert(q2[a] == rest[a]);
                    assert(kids.contains(q2[b]));
                    assert(rest.contains(q2[a]));
                } else {
                    assert(q2[b] == rest[b]);
                    assert(kids.contains(q2[a]));
                    assert(rest.contains(q2[b]));
                }
            }
        }
        assert forall|k: int| 0 <= k < q2.len() implies self.live(#[trigger] q2[k] as int) by {
            if k < rest.len() {
                assert(q2[k] == rest[k]);
                assert(rest.contains(rest[k]));
                let j = choose|j: int| 0 <= j < q.len() && q[j] == rest[k];
            } else {
                assert(q2[k] == kids[k - rest.len()]);
            }
        }
        // disjoint subtrees
        assert forall|a: usize, b: usize, x: int|
            q2.contains(a) && q2.contains(b) && a != b implies !(#[trigger] self.below(x, a as int) && #[trigger] self.below(
                x,
                b as int,
            )) by {
            if self.below(x, a as int) && self.below(x, b as int) {
                if rest.contains(a) && rest.contains(b) {
                    assert(q.contains(a) && q.contains(b));
                } else if kids.contains(a) && kids.contains(b) {
                    assert(a as int == l || a as int == r);
                    assert(b as int == l || b as int == r);
                } else if rest.contains(a) {
                    // x lies below a child of i, so below i
                    assert(self.below(x, i as int));
                    assert(q.contains(a) && q.contains(i) && a != i);
                } else {
                    assert(self.below(x, i as int));
                    assert(q.contains(b) && q.contains(i) && b != i);
                }
            }
        }
        // same nodes to visit, but i
        assert(self.covered(q2) =~= self.covered(q).remove(i as int)) by {
            assert forall|x: int| #[trigger] self.covered(q2).contains(x) <==> self.covered(q).remove(
                i as int,
            ).contains(x) by {
                if self.covered(q2).contains(x) {
                    let a = choose|a: usize| #[trigger] q2.contains(a) && self.below(x, a as int);
                    if rest.contains(a) {
                        assert(q.contains(a));
                        if x == i {
                            assert(self.below(i as int, i as int));
                            assert(q.contains(i) && a != i);
                        }
                    } else {
                        assert(self.below(x, i as int));
                        assert(x != i);
                    }
                }
                if self.covered(q).remove(i as int).contains(x) {
                    let a = choose|a: usize| #[trigger] q.contains(a) && self.below(x, a as int);
                    if a == i {
                        assert(self.is_branch(i as int));
                        if self.below(x, l) {
                            assert(q2.contains(l as usize));
                        } else {
                            assert(q2.contains(r as usize));
                        }
                    } else {
                        assert(rest.contains(a));
                        assert(q2.contains(a));
                    }
                }
            }
        }
    }

    // ------------------------------------------------------------------
    // Laws
    // ------------------------------------------------------------------
    /// Removing a leaf with the reference that its insertion returned hands back exactly the
    /// collider and bounds that were inserted, and leaves the hierarchy holding the same leaves
    /// as before the insertion.
    pub proof fn law_remove_undoes_insert(
        before: &Self,
        after_insert: &Self,
        after_remove: &Self,
        leaf: &LeafOutsideHierachy<T, B>,
        h: &LeafInHierachy,
        out: &LeafOutsideHierachy<T, B>,
    )
        requires
            h.owner() == before.id(),
            after_insert.id() == before.id(),
            !before.leaves().contains_key(h.index()),
            after_insert.leaves() == before.leaves().insert(
                h.index(),
                (leaf.collider(), leaf.bounds()),
            ),
            (out.collider(), out.bounds()) == after_insert.leaves()[h.index()],
            after_remove.leaves() == after_insert.leaves().remove(h.index()),
        ensures
            after_insert.owns(h),
            out.collider() == leaf.collider(),
            out.bounds() == leaf.bounds(),
            after_remove.leaves() == before.leaves(),
    {
        assert(after_remove.leaves() =~= before.leaves());
    }

    /// In a well-formed hierarchy every node agrees with its parent and children: a child
    /// hangs on the side of its parent that points back to it, the root alone has no parent,
    /// a leaf has depth 0, and a branch has depth one more than its deeper child and the
    /// bounds that `join` gives for its children's bounds.
    pub proof fn law_node_consistency(&self, i: int)
        requires
            self.wf(),
            self.live(i),
        ensures
            match self.node(i).parent_link() {
                None => self.root_index() == Some(i as usize) && !self.node(i).on_right(),
                Some(p) => self.live(p as int) && match self.node(p as int).held() {
                    NodeContent::Branch(l, r) => if self.node(i).on_right() {
                        r == i
                    } else {
                        l == i
                    },
                    _ => false,
                },
            },
            match self.node(i).held() {
                NodeContent::Branch(l, r) => {
                    &&& self.live(l as int)
                    &&& self.live(r as int)
                    &&& self.node(l as int).parent_link() == Some(i as usize)
                    &&& !self.node(l as int).on_right()
                    &&& self.node(r as int).parent_link() == Some(i as usize)
                    &&& self.node(r as int).on_right()
                    &&& self.node(i).cached_depth() == max_usize(
                        self.node(l as int).cached_depth(),
                        self.node(r as int).cached_depth(),
                    ) + 1
                    &&& call_ensures(
                        self.join_fn(),
                        (&self.node(l as int).cached_bounds(), &self.node(r as int).cached_bounds()),
                        self.node(i).cached_bounds(),
                    )
                },
                NodeContent::Leaf(_) => self.node(i).cached_depth() == 0,
                NodeContent::Free => false,
            },
    {
        assert(self.links_ok(i));
        assert(self.cache_ok(i));
        if let Some(p) = self.parent_of(i) {
            assert(self.links_ok(p as int));
        }
    }

    /// A well-formed hierarchy is balanced: the two children of every branch differ in depth
    /// by at most one. `insert`, `remove` and `modify_leaf` keep the hierarchy well formed, so
    /// they keep it balanced.
    pub proof fn law_balanced(&self, i: int)
        requires
            self.wf(),
            self.live(i),
        ensures
            match self.node(i).held() {
                NodeContent::Branch(l, r) => {
                    &&& self.node(l as int).cached_depth() <= self.node(r as int).cached_depth() + 1
                    &&& self.node(r as int).cached_depth() <= self.node(l as int).cached_depth() + 1
                },
                _ => true,
            },
    {
        assert(self.balanced_at(i));
    }

    /// Some leaf lies in the tree whenever a node does.
    proof fn lemma_some_leaf(&self, i: int) -> (t: int)
        requires
            self.wf(),
            self.live(i),
        ensures
            self.is_leaf(t),
        decreases self.depth_of(i),
    {
        assert(self.links_ok(i));
        assert(self.cache_ok(i));
        if self.is_branch(i) {
            self.lemma_some_leaf(self.node(i).child(false))
        } else {
            i
        }
    }

    /// A well-formed hierarchy has a root exactly when it holds a leaf; without one its depth
    /// is 0.
    pub proof fn law_empty_iff_no_root(&self)
        requires
            self.wf(),
        ensures
            self.root_index() is None <==> self.leaves().is_empty(),
            self.root_index() is None ==> self.spec_depth() == 0,
    {
        match self.root_index() {
            Some(r) => {
                let t = self.lemma_some_leaf(r as int);
                assert(self.leaves().contains_key(t));
            },
            None => {
                assert(self.leaves() =~= Map::empty()) by {
                    assert forall|j: int| !#[trigger] self.leaves().contains_key(j) by {
                        if 0 <= j < self.nodes().len() {
                            assert(!self.live(j));
                        }
                    }
                }
            },
        }
    }

    /// The leaves of the subtree rooted at `a`.
    pub closed spec fn leaves_below(&self, a: int) -> Set<int> {
        Set::new(|x: int| self.below(x, a) && self.is_leaf(x))
    }

    /// A subtree with `n` leaves has `2n - 1` nodes.
    proof fn lemma_subtree_count(&self, i: int)
        requires
            self.wf(),
            self.live(i),
        ensures
            self.subtree(i).finite(),
            self.leaves_below(i).finite(),
            self.subtree(i).len() + 1 == 2 * self.leaves_below(i).len(),
        decreases self.depth_of(i),
    {
        self.lemma_subtree_split(i);
        assert(self.links_ok(i));
        assert(self.cache_ok(i));
        if self.is_branch(i) {
            let l = self.node(i).child(false);
            let r = self.node(i).child(true);
            self.lemma_subtree_count(l);
            self.lemma_subtree_count(r);
            let sl = self.subtree(l);
            let sr = self.subtree(r);
            let ll = self.leaves_below(l);
            let lr = self.leaves_below(r);
            assert(sl.disjoint(sr)) by {
                assert forall|x: int| !(sl.contains(x) && sr.contains(x)) by {
                    assert(!(self.below(x, l) && self.below(x, r)));
                }
            }
            assert(ll.disjoint(lr)) by {
                assert forall|x: int| !(ll.contains(x) && lr.contains(x)) by {
                    assert(!(self.below(x, l) && self.below(x, r)));
                }
            }
            lemma_set_disjoint_lens(sl, sr);
            lemma_set_disjoint_lens(ll, lr);
            let single = Set::<int>::empty().insert(i);
            assert(single.disjoint(sl + sr)) by {
                assert(!self.below(i, l) && !self.below(i, r));
            }
            lemma_set_disjoint_lens(single, sl + sr);
            assert(self.subtree(i) =~= single + (sl + sr));
            assert(self.leaves_below(i) =~= ll + lr);
        } else {
            assert(self.subtree(i) =~= Set::<int>::empty().insert(i));
            assert(self.leaves_below(i) =~= Set::<int>::empty().insert(i));
        }
    }

    /// A hierarchy holding `n > 0` leaves has `2n - 1` nodes: each branch joins exactly two
    /// subtrees.
    pub proof fn law_node_count(&self)
        requires
            self.wf(),
        ensures
            self.live_nodes().finite(),
            self.leaves().dom().finite(),
            self.leaves().len() > 0 ==> self.live_nodes().len() + 1 == 2 * self.leaves().len(),
            self.leaves().len() == 0 ==> self.live_nodes().len() == 0,
    {
        self.law_finitely_many_nodes();
        self.law_empty_iff_no_root();
        assert(self.leaves().dom().subset_of(self.live_nodes()));
        lemma_len_subset(self.leaves().dom(), self.live_nodes());
        match self.root_index() {
            Some(r) => {
                self.lemma_subtree_count(r as int);
                assert forall|x: int| #[trigger] self.live_nodes().contains(x) <==> self.subtree(
                    r as int,
                ).contains(x) by {
                    if self.live(x) {
                        self.lemma_below_root(x);
                    }
                }
                assert(self.live_nodes() =~= self.subtree(r as int));
                assert forall|x: int| #[trigger] self.leaves().dom().contains(x) <==> self.leaves_below(
                    r as int,
                ).contains(x) by {
                    if self.is_leaf(x) {
                        self.lemma_below_root(x);
                    }
                }
                assert(self.leaves().dom() =~= self.leaves_below(r as int));
            },
            None => {
                assert(self.live_nodes() =~= Set::<int>::empty()) by {
                    assert forall|x: int| !#[trigger] self.live_nodes().contains(x) by {
                        if 0 <= x < self.nodes().len() {
                            assert(!self.live(x));
                        }
                    }
                }
            },
        }
    }

    /// A hierarchy holds finitely many nodes, so a walk that yields each of them once ends.
    pub proof fn law_finitely_many_nodes(&self)
        ensures
            self.live_nodes().finite(),
    {
        lemma_int_range(0, self.nodes().len() as int);
        assert(self.live_nodes().subset_of(set_int_range(0, self.nodes().len() as int)));
        lemma_len_subset(self.live_nodes(), set_int_range(0, self.nodes().len() as int));
    }

    /// Every node of a well-formed hierarchy is joined to the root by a chain of parent links
    /// that visits no node twice.
    pub proof fn law_path_to_root(&self, x: int) -> (path: Seq<int>)
        requires
            self.wf(),
            self.live(x),
        ensures
            path.len() > 0,
            path[0] == x,
            self.root_index() == Some(path.last() as usize),
            path.no_duplicates(),
            forall|k: int| 0 <= k < path.len() ==> self.live(#[trigger] path[k]),
            forall|k: int|
                0 <= k < path.len() - 1 ==> self.node(#[trigger] path[k]).parent_link() == Some(
                    path[k + 1] as usize,
                ),
    {
        let path = self.path_to_root(x);
        assert(self.live(path[path.len() - 1]));
        assert(self.links_ok(path.last()));
        path
    }
}

impl<T, B: Copy> Node<T, B> {
    /// Index of the parent branch, `None` at the root.
    pub fn parent(&self) -> (r: Option<usize>)
        ensures
            r == self.parent_link(),
    {
        self.parent
    }

    /// Whether the node hangs on the right of its parent.
    pub fn right_child(&self) -> (r: bool)
        ensures
            r == self.on_right(),
    {
        self.right_child
    }

    pub fn bounds(&self) -> (r: B)
        ensures
            r == self.cached_bounds(),
    {
        self.bounds
    }

    pub fn depth(&self) -> (r: usize)
        ensures
            r == self.cached_depth(),
    {
        self.depth
    }

    /// Indices of the two children of a branch.
    pub fn children(&self) -> (r: Option<(usize, usize)>)
        ensures
            r is Some <==> self.is_branch(),
            r matches Some((l, rr)) ==> l == self.child(false) && rr == self.child(true),
    {
        match &self.content {
            NodeContent::Branch(l, r) => Some((*l, *r)),
            _ => None,
        }
    }

    /// The collider of a leaf.
    pub fn collider(&self) -> (r: Option<&T>)
        ensures
            r is Some <==> self.is_leaf(),
            r matches Some(c) ==> self.held() == NodeContent::Leaf(*c),
    {
        match &self.content {
            NodeContent::Leaf(c) => Some(c),
            _ => None,
        }
    }
}

impl LeafInHierachy {
    /// The collider of the referenced leaf, when `hierachy` is the one it belongs to.
    pub fn get_collider<'a, T, B: Copy, J, C>(&self, hierachy: &'a BVH<T, B, J, C>) -> (r: Option<&'a T>) where
        J: Fn(&B, &B) -> B,
        C: Fn(&B, &B, &B) -> bool,

        ensures
            r is Some <==> hierachy.owns(self),
            r matches Some(c) ==> *c == hierachy.leaves()[self.index()].0,
    {
        if self.hierachy == hierachy.hierachy && self.leaf < hierachy.nodes.len() {
            match &hierachy.nodes[self.leaf].content {
                NodeContent::Leaf(c) => Some(c),
                _ => None,
            }
        } else {
            None
        }
    }
}

impl<T, B> LeafOutsideHierachy<T, B> {
    /// The collider, when `hierachy` is the one it was registered with.
    pub fn get_collider<J, C>(&self, hierachy: &BVH<T, B, J, C>) -> (r: Option<&T>) where
        J: Fn(&B, &B) -> B,
        C: Fn(&B, &B, &B) -> bool,
        B: Copy,

        ensures
            r is Some <==> self.owner() == hierachy.id(),
            r matches Some(c) ==> *c == self.collider(),
    {
        if self.hierachy == hierachy.hierachy {
            Some(&self.collider)
        } else {
            None
        }
    }

    /// Mutable access to the collider, when `hierachy` is the one it was registered with.
    pub fn get_collider_mut<J, C>(&mut self, hierachy: &mut BVH<T, B, J, C>) -> (r: Option<&mut T>) where
        J: Fn(&B, &B) -> B,
        C: Fn(&B, &B, &B) -> bool,
        B: Copy,

        ensures
            r is Some <==> old(self).owner() == old(hierachy).id(),
            *final(hierachy) == *old(hierachy),
            r matches Some(c) ==> *c == old(self).collider() && final(self).collider() == *final(c)
                && final(self).bounds() == old(self).bounds() && final(self).owner() == old(
                self,
            ).owner(),
            r is None ==> *final(self) == *old(self),
    {
        if self.hierachy == hierachy.hierachy {
            Some(&mut self.collider)
        } else {
            None
        }
    }
}

impl<'a, T, B: Copy, J, C> DepthIter<'a, T, B, J, C> where
    J: Fn(&B, &B) -> B,
    C: Fn(&B, &B, &B) -> bool,
 {
    pub closed spec fn tree(&self) -> &'a BVH<T, B, J, C> {
        self.tree
    }

    /// The nodes still to visit with their subtrees; the last is visited next.
    pub closed spec fn stacked(&self) -> Seq<usize> {
        self.stack@
    }

    /// The tree is well formed; the stacked nodes are distinct nodes of it whose subtrees do
    /// not overlap.
    pub closed spec fn stack_ok(&self) -> bool {
        &&& self.tree.wf()
        &&& self.tree.queue_ok(self.stack@)
    }

    /// The nodes not yielded yet: those of the subtrees of the stacked nodes.
    pub closed spec fn pending(&self) -> Set<int> {
        self.tree.covered(self.stack@)
    }

    /// The nodes still to be yielded, in the order in which they will be.
    pub closed spec fn order(&self) -> Seq<int> {
        self.tree.walk_stack(self.stack@)
    }

    /// Pops the next node and yields its bounds and depth, stacking its right child and then
    /// its left child, so that the left subtree is walked first.
    pub fn next(&mut self) -> (r: Option<(B, usize)>)
        requires
            old(self).stack_ok(),
        ensures
            final(self).stack_ok(),
            final(self).tree() == old(self).tree(),
            old(self).stacked().len() > 0 ==> {
                let i = old(self).stacked().last() as int;
                &&& r == Some((old(self).tree().bounds_of(i), old(self).tree().depth_of(i)))
                &&& final(self).stacked() == old(self).stacked().drop_last() + old(self).tree().kids(i)
            },
            old(self).stacked().len() == 0 ==> r is None && final(self).stacked().len() == 0,
            old(self).stacked().len() > 0 ==> {
                let i = old(self).order()[0];
                &&& old(self).order().len() > 0
                &&& r == Some((old(self).tree().bounds_of(i), old(self).tree().depth_of(i)))
                &&& final(self).order() == old(self).order().drop_first()
            },
            r is None <==> old(self).pending() == Set::<int>::empty(),
            r matches Some(v) ==> exists|i: int|
                {
                    &&& #[trigger] old(self).pending().contains(i)
                    &&& final(self).pending() == old(self).pending().remove(i)
                    &&& v == (old(self).tree().bounds_of(i), old(self).tree().depth_of(i))
                },
    {
        let ghost q = self.stack@;
        let ghost tree = self.tree;
        match self.stack.pop() {
            Some(i) => {
                proof {
                    let pos = q.len() - 1;
                    assert(q[pos] == i);
                    tree.lemma_pop(q, pos);
                    assert(q.remove(pos) =~= q.drop_last());
                }
                assert(self.tree.links_ok(i as int));
                match &self.tree.nodes[i].content {
                    NodeContent::Branch(l, r) => {
                        self.stack.push(*r);
                        self.stack.push(*l);
                    },
                    _ => {},
                }
                proof {
                    assert(self.stack@ =~= q.drop_last() + tree.kids(i as int));
                    assert(old(self).pending().contains(i as int));
                    assert(self.pending() == old(self).pending().remove(i as int));
                    let rest = q.drop_last();
                    assert(q[q.len() - 1] == i);
                    assert(tree.live(i as int));
                    assert(tree.walk_stack(q) == tree.walk(i as int) + tree.walk_stack(rest));
                    if tree.is_branch(i as int) {
                        let l = tree.node(i as int).child(false);
                        let r = tree.node(i as int).child(true);
                        assert(tree.links_ok(i as int));
                        let q1 = rest.push(r as usize);
                        let q2 = q1.push(l as usize);
                        assert(self.stack@ =~= q2);
                        assert(q2.drop_last() =~= q1);
                        assert(q1.drop_last() =~= rest);
                        assert(tree.walk_stack(q1) == tree.walk(r) + tree.walk_stack(rest));
                        assert(tree.walk_stack(q2) == tree.walk(l) + tree.walk_stack(q1));
                        assert(tree.walk(i as int) == seq![i as int] + tree.walk(l) + tree.walk(r));
                        assert(self.order() =~= old(self).order().drop_first());
                    } else {
                        assert(self.stack@ =~= rest);
                        assert(tree.walk(i as int) == seq![i as int]);
                        assert(self.order() =~= old(self).order().drop_first());
                    }
                }
                Some((self.tree.nodes[i].bounds, self.tree.nodes[i].depth))
            },
            None => {
                assert(tree.covered(q) =~= Set::<int>::empty());
                None
            },
        }
    }
}

} // verus!
