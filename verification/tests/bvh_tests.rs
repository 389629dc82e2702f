use vulkano_template::game_objects::transform::{TransformID, TransformSystem};
use vulkano_template::physics::collider::bvh::{LeafInHierachy, BVH};

#[derive(Clone, Copy, Debug)]
struct BoundingBox {
    max: (f32, f32, f32),
    min: (f32, f32, f32),
}

struct TestCollider {
    #[allow(dead_code)]
    transform: TransformID,
    bounding_box: BoundingBox,
}

fn bbox(max: (f32, f32, f32), min: (f32, f32, f32)) -> BoundingBox {
    BoundingBox { max, min }
}

fn join(a: &BoundingBox, b: &BoundingBox) -> BoundingBox {
    BoundingBox {
        max: (a.max.0.max(b.max.0), a.max.1.max(b.max.1), a.max.2.max(b.max.2)),
        min: (a.min.0.min(b.min.0), a.min.1.min(b.min.1), a.min.2.min(b.min.2)),
    }
}

fn volume(b: &BoundingBox) -> f32 {
    (b.max.0 - b.min.0) * (b.max.1 - b.min.1) * (b.max.2 - b.min.2)
}

/// go to the child whose volume grows least when the new bounds are added
fn prefer_left(left: &BoundingBox, right: &BoundingBox, new: &BoundingBox) -> bool {
    volume(&join(left, new)) - volume(left) <= volume(&join(right, new)) - volume(right)
}

fn same_box(a: &BoundingBox, b: &BoundingBox) -> bool {
    let d_max = (a.max.0 - b.max.0, a.max.1 - b.max.1, a.max.2 - b.max.2);
    let d_min = (a.min.0 - b.min.0, a.min.1 - b.min.1, a.min.2 - b.min.2);
    d_min.0 * d_min.0 + d_min.1 * d_min.1 + d_min.2 * d_min.2 < f32::EPSILON
        && d_max.0 * d_max.0 + d_max.1 * d_max.1 + d_max.2 * d_max.2 < f32::EPSILON
}

type Tree = BVH<
    TestCollider,
    BoundingBox,
    fn(&BoundingBox, &BoundingBox) -> BoundingBox,
    fn(&BoundingBox, &BoundingBox, &BoundingBox) -> bool,
>;

fn new_tree() -> Tree {
    BVH::new(
        join as fn(&BoundingBox, &BoundingBox) -> BoundingBox,
        prefer_left as fn(&BoundingBox, &BoundingBox, &BoundingBox) -> bool,
    )
}

fn insert_box(tree: &mut Tree, trans: &mut TransformSystem, bounding_box: BoundingBox) -> LeafInHierachy {
    let leaf = tree.register_collider(
        TestCollider { transform: trans.next().unwrap(), bounding_box },
        bounding_box,
    );
    match tree.insert(leaf) {
        Ok(h) => h,
        Err(_) => panic!("leaf refused by its own hierarchy"),
    }
}

fn validate_tree(tree: &Tree, i: usize, parent: Option<usize>, right_child: bool) -> Result<(), String> {
    // error format is {expected} vs {actual}
    let node = tree.get_node(i).ok_or_else(|| format!("Found unitialised node"))?;

    // parent check
    if node.parent() != parent {
        return Err(format!("Mismatching parent: {:?} vs {:?}", parent, node.parent()));
    }

    // side check
    if node.right_child() != right_child {
        return Err(format!("Incorrect child side: {} vs {}", right_child, node.right_child()));
    }

    match node.children() {
        Some((l, r)) => {
            let left = tree.get_node(l).ok_or_else(|| format!("Missing left child"))?;
            let right = tree.get_node(r).ok_or_else(|| format!("Missing right child"))?;

            // bounds check
            let expected = join(&left.bounds(), &right.bounds());
            if !same_box(&node.bounds(), &expected) {
                return Err(format!("Incorrect Bounds: {:?} vs {:?}", expected, node.bounds()));
            }

            // depth check
            if node.depth() != left.depth().max(right.depth()) + 1 {
                return Err(format!(
                    "Incorrect depth: {:?} vs {:?}",
                    left.depth().max(right.depth()) + 1,
                    node.depth()
                ));
            }

            validate_tree(tree, l, Some(i), false)?;
            validate_tree(tree, r, Some(i), true)?;
        }
        None => {
            let collider = node.collider().ok_or_else(|| format!("Found unitialised node"))?;
            // bounds check
            if !same_box(&node.bounds(), &collider.bounding_box) {
                return Err(format!(
                    "Incorrect Bounds: {:?} vs {:?}",
                    collider.bounding_box,
                    node.bounds()
                ));
            }
            // depth check
            if node.depth() != 0 {
                return Err(format!("Incorrect depth: 0 vs {:?}", node.depth()));
            }
        }
    }
    Ok(())
}

fn assert_valid_tree(tree: &Tree) {
    let root = tree.get_root().unwrap();
    let validation = validate_tree(tree, root, None, false);
    assert!(validation.is_ok(), "Err: {:?}", validation);
}

fn boxes() -> [BoundingBox; 6] {
    [
        bbox((1.0, 1.0, 1.0), (0.0, 0.0, 0.0)),
        bbox((2.0, 2.0, 2.0), (1.0, 1.0, 1.0)),
        bbox((5.0, 5.0, 6.0), (4.0, 2.0, 4.0)),
        bbox((1.0, 1.0, 1.0), (-1.0, -1.0, -1.0)),
        bbox((0.0, -1.0, 0.0), (-5.0, -2.0, -5.0)),
        bbox((5.0, -1.0, 20.0), (2.0, -5.0, 5.0)),
    ]
}

#[test]
fn bvh_insert_test() {
    let mut trans = TransformSystem::new();
    let mut tree = new_tree();
    let [crap_box, box_2, ..] = boxes();

    let _a = insert_box(&mut tree, &mut trans, crap_box);
    let _b = insert_box(&mut tree, &mut trans, box_2);
    let _c = insert_box(&mut tree, &mut trans, box_2);

    assert_valid_tree(&tree);
}

#[test]
fn bvh_remove_test() {
    let mut trans = TransformSystem::new();
    let mut tree = new_tree();
    let [crap_box, box_2, ..] = boxes();

    let _a = insert_box(&mut tree, &mut trans, crap_box);
    let b = insert_box(&mut tree, &mut trans, box_2);
    let _c = insert_box(&mut tree, &mut trans, box_2);

    assert!(tree.remove(b).is_ok(), "Incorrect hierachy for removal");

    assert_valid_tree(&tree);
}

#[test]
fn bvh_big_tree() {
    let mut trans = TransformSystem::new();
    let mut tree = new_tree();
    let [crap_box, box_2, box_3, box_4, box_5, box_6] = boxes();

    for bounding_box in [crap_box, box_2, box_3, box_4, crap_box, box_5, box_6, box_2, box_4, box_6] {
        insert_box(&mut tree, &mut trans, bounding_box);
    }

    println!("Yes?");

    assert_valid_tree(&tree);
}

#[test]
fn bvh_big_remove() {
    let mut trans = TransformSystem::new();
    let mut tree = new_tree();
    let [crap_box, box_2, box_3, box_4, box_5, box_6] = boxes();

    let a = insert_box(&mut tree, &mut trans, box_6);
    for bounding_box in [crap_box, box_2, box_3, box_4, crap_box, box_5, box_6, box_2, box_4, box_6] {
        insert_box(&mut tree, &mut trans, bounding_box);
    }
    let b = insert_box(&mut tree, &mut trans, box_2);

    assert!(tree.remove(a).is_ok());
    assert!(tree.remove(b).is_ok());

    assert_valid_tree(&tree);
}

#[test]
fn bvh_remove_branch_root() {
    let mut trans = TransformSystem::new();
    let mut tree = new_tree();
    let [crap_box, box_2, ..] = boxes();

    insert_box(&mut tree, &mut trans, crap_box);
    let b = insert_box(&mut tree, &mut trans, box_2);

    assert!(tree.remove(b).is_ok());
    assert_valid_tree(&tree);
}

#[test]
fn bvh_remove_leaf_root() {
    let mut trans = TransformSystem::new();
    let mut tree = new_tree();
    let [crap_box, ..] = boxes();

    let remove = insert_box(&mut tree, &mut trans, crap_box);

    assert!(tree.remove(remove).is_ok());
    assert!(tree.get_root().is_none());
}

#[test]
fn bvh_removal_balance() {}

#[test]
fn bounds_tree_removal_balance() {}

// ---------------------------------------------------------------------
// further checks of the hierarchy
// ---------------------------------------------------------------------

#[test]
fn bvh_depth_of_three_leaves() {
    let mut trans = TransformSystem::new();
    let mut tree = new_tree();
    let [crap_box, box_2, ..] = boxes();
    assert_eq!(tree.depth(), 0);
    insert_box(&mut tree, &mut trans, crap_box);
    assert_eq!(tree.depth(), 0);
    insert_box(&mut tree, &mut trans, box_2);
    assert_eq!(tree.depth(), 1);
    insert_box(&mut tree, &mut trans, box_2);
    assert_eq!(tree.depth(), 2);
}

#[test]
fn bvh_remove_gives_back_inserted() {
    let mut trans = TransformSystem::new();
    let mut tree = new_tree();
    let [crap_box, box_2, box_3, ..] = boxes();
    insert_box(&mut tree, &mut trans, crap_box);
    let b = insert_box(&mut tree, &mut trans, box_3);
    insert_box(&mut tree, &mut trans, box_2);
    let out = match tree.remove(b) {
        Ok(out) => out,
        Err(_) => panic!("leaf not found"),
    };
    let collider = out.get_collider(&tree).unwrap();
    assert!(same_box(&collider.bounding_box, &box_3));
    assert_valid_tree(&tree);
    // the removed leaf can go back in
    assert!(tree.insert(out).is_ok());
    assert_valid_tree(&tree);
}

#[test]
fn bvh_foreign_leaf_refused() {
    let mut trans = TransformSystem::new();
    let mut tree = new_tree();
    let mut other = new_tree();
    let [crap_box, box_2, ..] = boxes();
    insert_box(&mut tree, &mut trans, crap_box);
    let h = insert_box(&mut other, &mut trans, box_2);
    // a reference of another hierarchy is handed back
    assert!(tree.remove(h).is_err());
    let leaf = other.register_collider(
        TestCollider { transform: trans.next().unwrap(), bounding_box: box_2 },
        box_2,
    );
    assert!(tree.insert(leaf).is_err());
    assert_valid_tree(&tree);
}

#[test]
fn bvh_modify_leaf_moves_it() {
    let mut trans = TransformSystem::new();
    let mut tree = new_tree();
    let [crap_box, box_2, _, _, _, box_6] = boxes();
    let mut a = insert_box(&mut tree, &mut trans, crap_box);
    insert_box(&mut tree, &mut trans, box_2);
    let moved = tree.modify_leaf(&mut a, |mut c: TestCollider| {
        c.bounding_box = box_6;
        (c, box_6)
    });
    assert!(moved.is_ok());
    assert!(same_box(&a.get_collider(&tree).unwrap().bounding_box, &box_6));
    assert_valid_tree(&tree);
}

#[test]
fn bvh_iter_visits_every_node() {
    let mut trans = TransformSystem::new();
    let mut tree = new_tree();
    let [crap_box, box_2, box_3, box_4, ..] = boxes();
    for b in [crap_box, box_2, box_3, box_4] {
        insert_box(&mut tree, &mut trans, b);
    }
    let mut it = tree.iter();
    let mut count = 0;
    let mut first = true;
    while let Some((_, depth)) = it.next() {
        // the walk starts at the root, the deepest node
        if first {
            assert_eq!(depth, tree.depth());
            first = false;
        }
        count += 1;
    }
    // four leaves and three branches
    assert_eq!(count, 7);
}

/// index of the leaf whose collider has the given bounds
fn find_leaf(tree: &Tree, i: usize, target: &BoundingBox) -> Option<usize> {
    let node = tree.get_node(i)?;
    match node.children() {
        Some((l, r)) => find_leaf(tree, l, target).or_else(|| find_leaf(tree, r, target)),
        None => {
            if same_box(&node.collider()?.bounding_box, target) {
                Some(i)
            } else {
                None
            }
        }
    }
}

#[test]
fn bvh_insert_pairs_with_chosen_leaf() {
    let mut trans = TransformSystem::new();
    let mut tree = new_tree();
    let near = bbox((1.0, 1.0, 1.0), (0.0, 0.0, 0.0));
    let far = bbox((11.0, 11.0, 11.0), (10.0, 10.0, 10.0));
    let next_to_far = bbox((12.0, 11.0, 11.0), (11.0, 10.0, 10.0));
    insert_box(&mut tree, &mut trans, near);
    insert_box(&mut tree, &mut trans, far);
    insert_box(&mut tree, &mut trans, next_to_far);
    let root = tree.get_root().unwrap();
    let new_leaf = find_leaf(&tree, root, &next_to_far).unwrap();
    let far_leaf = find_leaf(&tree, root, &far).unwrap();
    let parent = tree.get_node(new_leaf).unwrap().parent().unwrap();
    // the new leaf is the right child of a branch whose left child is the leaf it joined
    assert_eq!(tree.get_node(parent).unwrap().children(), Some((far_leaf, new_leaf)));
    assert_valid_tree(&tree);
}

#[test]
fn bvh_iter_is_depth_first() {
    let mut trans = TransformSystem::new();
    let mut tree = new_tree();
    let near = bbox((1.0, 1.0, 1.0), (0.0, 0.0, 0.0));
    let far = bbox((11.0, 11.0, 11.0), (10.0, 10.0, 10.0));
    let next_to_far = bbox((12.0, 11.0, 11.0), (11.0, 10.0, 10.0));
    insert_box(&mut tree, &mut trans, near);
    insert_box(&mut tree, &mut trans, far);
    insert_box(&mut tree, &mut trans, next_to_far);
    // root (near, branch (far, next_to_far)): the branch's leaves follow the branch directly
    let mut it = tree.iter();
    let mut seen = Vec::new();
    while let Some((b, d)) = it.next() {
        seen.push((b, d));
    }
    assert_eq!(seen.len(), 5);
    let depths: Vec<usize> = seen.iter().map(|(_, d)| *d).collect();
    assert_eq!(depths, vec![2, 0, 1, 0, 0]);
    assert!(same_box(&seen[0].0, &join(&near, &join(&far, &next_to_far))));
    assert!(same_box(&seen[1].0, &near));
    assert!(same_box(&seen[2].0, &join(&far, &next_to_far)));
    assert!(same_box(&seen[3].0, &far));
    assert!(same_box(&seen[4].0, &next_to_far));
    // finished: stays finished
    assert!(it.next().is_none());
    assert!(it.next().is_none());
}

#[test]
fn bvh_empty_after_last_removal() {
    let mut trans = TransformSystem::new();
    let mut tree = new_tree();
    let [crap_box, box_2, ..] = boxes();
    let a = insert_box(&mut tree, &mut trans, crap_box);
    let b = insert_box(&mut tree, &mut trans, box_2);
    assert!(tree.remove(a).is_ok());
    assert!(tree.remove(b).is_ok());
    assert!(tree.get_root().is_none());
    assert_eq!(tree.depth(), 0);
    assert!(tree.iter().next().is_none());
}

fn assert_balanced(tree: &Tree, i: usize) {
    let node = tree.get_node(i).unwrap();
    if let Some((l, r)) = node.children() {
        let dl = tree.get_node(l).unwrap().depth();
        let dr = tree.get_node(r).unwrap().depth();
        assert!(dl <= dr + 1 && dr <= dl + 1, "unbalanced branch {}: {} vs {}", i, dl, dr);
        assert_balanced(tree, l);
        assert_balanced(tree, r);
    }
}

#[test]
fn bvh_stays_balanced() {
    let mut trans = TransformSystem::new();
    let mut tree = new_tree();
    let mut handles = Vec::new();
    // boxes along a line: the heuristic keeps choosing the same side
    for k in 0..32 {
        let x = k as f32;
        handles.push(insert_box(&mut tree, &mut trans, bbox((x + 1., 1., 1.), (x, 0., 0.))));
        assert_balanced(&tree, tree.get_root().unwrap());
        assert_valid_tree(&tree);
    }
    // 32 leaves: a balanced tree is at most 6 levels deep
    assert!(tree.depth() <= 6, "depth {}", tree.depth());
    for h in handles.drain(..).step_by(2) {
        assert!(tree.remove(h).is_ok());
        assert_balanced(&tree, tree.get_root().unwrap());
        assert_valid_tree(&tree);
    }
}
