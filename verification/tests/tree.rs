use std::collections::hash_map::DefaultHasher;
use std::collections::HashMap;
use std::hash::{Hash, Hasher};

use tree_shapes::Tree;

fn leaf() -> Tree {
    Tree::leaf()
}

fn unary(a: Tree) -> Tree {
    Tree { first: Some(Box::new(a)), second: None }
}

fn binary(a: Tree, b: Tree) -> Tree {
    Tree { first: Some(Box::new(a)), second: Some(Box::new(b)) }
}

fn hash_of(t: &Tree) -> u64 {
    let mut h = DefaultHasher::new();
    t.hash(&mut h);
    h.finish()
}

#[test]
fn leaf_has_both_slots_empty() {
    let t = Tree::leaf();
    assert!(t.first.is_none());
    assert!(t.second.is_none());
    assert!(t.is_leaf());
}

#[test]
fn default_is_the_leaf() {
    assert_eq!(Tree::default(), Tree::leaf());
}

#[test]
fn is_leaf_is_false_for_any_occupied_slot() {
    assert!(!unary(leaf()).is_leaf());
    assert!(!binary(leaf(), leaf()).is_leaf());
    assert!(!Tree { first: None, second: Some(Box::new(leaf())) }.is_leaf());
}

#[test]
fn depth_of_leaf_is_one() {
    assert_eq!(leaf().depth(), 1);
}

#[test]
fn depth_of_single_child_node_is_two() {
    assert_eq!(unary(leaf()).depth(), 2);
}

#[test]
fn depth_takes_the_higher_child() {
    let deep = unary(unary(unary(leaf())));
    assert_eq!(deep.depth(), 4);
    assert_eq!(binary(leaf(), deep.clone()).depth(), 5);
    assert_eq!(binary(deep.clone(), leaf()).depth(), 5);
    assert_eq!(binary(deep.clone(), deep).depth(), 5);
}

#[test]
fn depth_counts_a_child_in_the_second_slot_alone() {
    let t = Tree { first: None, second: Some(Box::new(unary(leaf()))) };
    assert_eq!(t.depth(), 3);
}

#[test]
fn clone_copies_each_slot_on_its_own() {
    let t = binary(unary(leaf()), leaf());
    let c = t.clone();
    assert_eq!(c, t);
    assert_eq!(c.first, Some(Box::new(unary(leaf()))));
    assert_eq!(c.second, Some(Box::new(leaf())));
}

#[test]
fn clone_is_independent_of_its_source() {
    let mut t = binary(unary(leaf()), leaf());
    let c = t.clone();
    t.second = None;
    t.first = Some(Box::new(leaf()));
    assert_eq!(c, binary(unary(leaf()), leaf()));
    assert_ne!(c, t);
}

#[test]
fn equality_compares_slot_by_slot() {
    assert_eq!(leaf(), leaf());
    assert_eq!(binary(unary(leaf()), leaf()), binary(unary(leaf()), leaf()));
    assert_ne!(unary(leaf()), leaf());
    assert_ne!(unary(leaf()), binary(leaf(), leaf()));
    assert_ne!(unary(leaf()), unary(unary(leaf())));
}

#[test]
fn equality_is_sensitive_to_position() {
    let a = binary(unary(leaf()), leaf());
    let b = binary(leaf(), unary(leaf()));
    assert_ne!(a, b);
    let only_second = Tree { first: None, second: Some(Box::new(leaf())) };
    assert_ne!(unary(leaf()), only_second);
}

#[test]
fn equal_shapes_hash_alike() {
    let a = binary(unary(leaf()), binary(leaf(), leaf()));
    let b = binary(unary(leaf()), binary(leaf(), leaf()));
    assert_eq!(a, b);
    assert_eq!(hash_of(&a), hash_of(&b));
    assert_eq!(hash_of(&a), hash_of(&a.clone()));
}

#[test]
fn shapes_can_key_a_map() {
    let mut m: HashMap<Tree, usize> = HashMap::new();
    assert!(m.insert(leaf(), 0).is_none());
    assert!(m.insert(unary(leaf()), 1).is_none());
    assert!(m.insert(binary(leaf(), leaf()), 2).is_none());
    assert_eq!(m.get(&unary(leaf())), Some(&1));
    assert_eq!(m.get(&binary(leaf(), leaf())), Some(&2));
    assert_eq!(m.get(&unary(unary(leaf()))), None);
}

#[test]
fn a_lone_second_child_anywhere_is_not_well_formed() {
    assert!(leaf().is_well_formed());
    assert!(unary(leaf()).is_well_formed());
    assert!(binary(unary(leaf()), leaf()).is_well_formed());
    let lone = Tree { first: None, second: Some(Box::new(leaf())) };
    assert!(!lone.is_well_formed());
    assert!(!unary(lone.clone()).is_well_formed());
    assert!(!binary(leaf(), lone.clone()).is_well_formed());
    assert!(!binary(lone, leaf()).is_well_formed());
}
