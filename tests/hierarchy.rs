use raytracer::hierarchy::{Hierarchy, HierarchyError};

#[test]
fn new_shape_has_no_parent() {
    let mut h = Hierarchy::new();
    let s = h.add_shape(false);
    assert_eq!(h.get_parent(s), None);
    assert!(!h.is_group(s));
    assert_eq!(h.len(), 1);
}

#[test]
fn adding_a_child_to_a_group() {
    let mut h = Hierarchy::new();
    let g = h.add_shape(true);
    let s = h.add_shape(false);
    let other = h.add_shape(false);
    assert!(h.get_children(g).is_empty());
    assert_eq!(h.add_child(g, s), Ok(()));
    assert_eq!(h.get_children(g), vec![s]);
    assert_eq!(h.get_parent(s), Some(g));
    assert_eq!(h.get_parent(other), None);
}

#[test]
fn children_keep_insertion_order() {
    let mut h = Hierarchy::new();
    let a = h.add_shape(false);
    let g = h.add_shape(true);
    let b = h.add_shape(false);
    assert_eq!(h.add_child(g, b), Ok(()));
    assert_eq!(h.add_child(g, a), Ok(()));
    assert_eq!(h.get_children(g), vec![b, a]);
}

#[test]
fn only_groups_take_children() {
    let mut h = Hierarchy::new();
    let s = h.add_shape(false);
    let t = h.add_shape(false);
    assert_eq!(h.add_child(s, t), Err(HierarchyError::InvalidAddChild));
    assert_eq!(h.get_parent(t), None);
}

#[test]
fn a_shape_has_one_parent() {
    let mut h = Hierarchy::new();
    let g1 = h.add_shape(true);
    let g2 = h.add_shape(true);
    let s = h.add_shape(false);
    assert_eq!(h.add_child(g1, s), Ok(()));
    assert_eq!(h.add_child(g2, s), Err(HierarchyError::AlreadyHasParent));
    assert_eq!(h.get_parent(s), Some(g1));
    assert!(h.get_children(g2).is_empty());
}

#[test]
fn groups_cannot_form_a_cycle() {
    let mut h = Hierarchy::new();
    let g1 = h.add_shape(true);
    let g2 = h.add_shape(true);
    assert_eq!(h.add_child(g1, g1), Err(HierarchyError::WouldCreateCycle));
    assert_eq!(h.add_child(g1, g2), Ok(()));
    assert_eq!(h.add_child(g2, g1), Err(HierarchyError::WouldCreateCycle));
}

#[test]
fn ancestry_runs_from_the_root() {
    let mut h = Hierarchy::new();
    let g1 = h.add_shape(true);
    let g2 = h.add_shape(true);
    let s = h.add_shape(false);
    assert_eq!(h.add_child(g2, s), Ok(()));
    assert_eq!(h.add_child(g1, g2), Ok(()));
    assert_eq!(h.ancestry(s), vec![g1, g2, s]);
    assert_eq!(h.ancestry(g2), vec![g1, g2]);
    assert_eq!(h.ancestry(g1), vec![g1]);
}

#[test]
fn add_new_child_creates_and_attaches() {
    let mut h = Hierarchy::new();
    let g = h.add_shape(true);
    let s = h.add_shape(false);
    assert_eq!(h.add_new_child(g, true), Ok(2));
    assert_eq!(h.add_new_child(2, false), Ok(3));
    assert_eq!(h.get_children(g), vec![2]);
    assert_eq!(h.get_parent(3), Some(2));
    assert!(h.is_group(2));
    assert_eq!(h.ancestry(3), vec![g, 2, 3]);
    assert_eq!(h.add_new_child(s, false), Err(HierarchyError::InvalidAddChild));
    assert_eq!(h.len(), 4);
}
