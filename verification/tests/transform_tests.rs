use vulkano_template::game_objects::transform::{ModelStep, TransformError, TransformSystem};

fn ids(steps: &Vec<ModelStep>) -> Vec<u32> {
    steps.iter().map(|s| s.id.id()).collect()
}

#[test]
fn transform_ids_are_fresh() {
    let mut sys = TransformSystem::new();
    let a = sys.next().unwrap();
    let b = sys.next().unwrap();
    let c = sys.add_transform(Some(a));
    assert_eq!(a.id(), 0);
    assert_eq!(b.id(), 1);
    assert_eq!(c.id(), 2);
    assert_ne!(a, b);
    assert_eq!(sys.get_transform(&c).unwrap().parent(), Some(a));
    assert_eq!(sys.get_transform(&a).unwrap().parent(), None);
}

#[test]
fn transform_new_models_are_dirty() {
    let mut sys = TransformSystem::new();
    let a = sys.next().unwrap();
    assert!(sys.get_transform(&a).unwrap().is_dirty());
}

#[test]
fn transform_steps_from_root_down() {
    let mut sys = TransformSystem::new();
    let root = sys.next().unwrap();
    let mid = sys.add_transform(Some(root));
    let leaf = sys.add_transform(Some(mid));
    let steps = sys.global_model_steps(&leaf).unwrap();
    assert_eq!(ids(&steps), vec![0, 1, 2]);
    // everything was new: all models are computed
    assert!(steps.iter().all(|s| s.recompute_local && s.recompute_global));
    assert!(!sys.get_transform(&leaf).unwrap().is_dirty());
    // a second request finds everything cached
    let again = sys.global_model_steps(&leaf).unwrap();
    assert_eq!(ids(&again), vec![0, 1, 2]);
    assert!(again.iter().all(|s| !s.recompute_local && !s.recompute_global));
}

#[test]
fn transform_mut_dirties_subtree_only() {
    let mut sys = TransformSystem::new();
    let root = sys.next().unwrap();
    let mid = sys.add_transform(Some(root));
    let leaf = sys.add_transform(Some(mid));
    let other = sys.add_transform(Some(root));
    sys.global_model_steps(&leaf).unwrap();
    sys.global_model_steps(&other).unwrap();

    sys.get_transform_mut(&mid).unwrap().mark_changed();
    assert!(!sys.get_transform(&root).unwrap().is_dirty());
    assert!(sys.get_transform(&mid).unwrap().is_dirty());
    assert!(sys.get_transform(&leaf).unwrap().is_dirty());
    assert!(!sys.get_transform(&other).unwrap().is_dirty());

    let steps = sys.global_model_steps(&leaf).unwrap();
    let flags: Vec<(bool, bool)> = steps.iter().map(|s| (s.recompute_local, s.recompute_global)).collect();
    // root cached; mid changed (local and global); leaf only its global model
    assert_eq!(flags, vec![(false, false), (true, true), (false, true)]);
}

#[test]
fn transform_set_parent_moves_subtree() {
    let mut sys = TransformSystem::new();
    let a = sys.next().unwrap();
    let b = sys.next().unwrap();
    let c = sys.add_transform(Some(a));
    let d = sys.add_transform(Some(c));
    sys.global_model_steps(&d).unwrap();
    assert!(sys.set_parent(&c, Some(b)).is_ok());
    assert_eq!(sys.get_transform(&c).unwrap().parent(), Some(b));
    assert!(sys.get_transform(&c).unwrap().is_dirty());
    assert!(sys.get_transform(&d).unwrap().is_dirty());
    let steps = sys.global_model_steps(&d).unwrap();
    assert_eq!(ids(&steps), vec![1, 2, 3]);
    // back to the top level
    assert!(sys.set_parent(&c, None).is_ok());
    let steps = sys.global_model_steps(&d).unwrap();
    assert_eq!(ids(&steps), vec![2, 3]);
}

#[test]
fn transform_unknown_id_errors() {
    let mut sys = TransformSystem::new();
    let a = sys.next().unwrap();
    let mut other = TransformSystem::new();
    other.next().unwrap();
    let far = other.next().unwrap();
    assert!(matches!(sys.global_model_steps(&far), Err(TransformError::IDNotFound)));
    assert!(matches!(sys.set_parent(&far, None), Err(TransformError::IDNotFound)));
    assert!(matches!(sys.set_parent(&a, Some(far)), Err(TransformError::IDNotFound)));
    assert!(matches!(sys.clear_last_model(&far), Err(TransformError::IDNotFound)));
    assert!(sys.get_transform(&far).is_none());
    assert!(sys.get_transform_mut(&far).is_none());
    // a failed set_parent leaves the transform where it was
    assert_eq!(sys.get_transform(&a).unwrap().parent(), None);
}

#[test]
fn transform_last_model_is_tracked() {
    let mut sys = TransformSystem::new();
    let a = sys.next().unwrap();
    let (_, stored) = sys.get_lerp_model(&a).unwrap();
    assert!(!stored);
    sys.store_last_model(&a).unwrap();
    let (steps, stored) = sys.get_lerp_model(&a).unwrap();
    assert!(stored);
    assert_eq!(ids(&steps), vec![0]);
    sys.clear_last_model(&a).unwrap();
    let (_, stored) = sys.get_lerp_model(&a).unwrap();
    assert!(!stored);
}

#[test]
fn transform_subtree_test() {
    let mut sys = TransformSystem::new();
    let a = sys.next().unwrap();
    let b = sys.add_transform(Some(a));
    let c = sys.add_transform(Some(b));
    let d = sys.next().unwrap();
    assert!(sys.in_subtree_of(&c, &a));
    assert!(sys.in_subtree_of(&c, &c));
    assert!(!sys.in_subtree_of(&a, &c));
    assert!(!sys.in_subtree_of(&d, &a));
    assert_eq!(sys.next_free_id(), 4);
    // a new parent is allowed only from outside the child's subtree
    assert!(!sys.in_subtree_of(&d, &b));
    assert!(sys.set_parent(&b, Some(d)).is_ok());
    assert!(sys.in_subtree_of(&c, &d));
    assert!(!sys.in_subtree_of(&c, &a));
}
