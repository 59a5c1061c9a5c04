use tree_shapes::{Tree, TreeIterator};

fn leaf() -> Tree {
    Tree::leaf()
}

fn unary(a: Tree) -> Tree {
    Tree { first: Some(Box::new(a)), second: None }
}

fn binary(a: Tree, b: Tree) -> Tree {
    Tree { first: Some(Box::new(a)), second: Some(Box::new(b)) }
}

#[test]
fn a_new_sequencer_holds_the_leaf_at_bound_zero() {
    let it = TreeIterator::new();
    assert_eq!(it.current(), &leaf());
    assert_eq!(it.depth(), 0);
}

#[test]
fn the_first_shape_is_the_leaf() {
    let mut it = TreeIterator::new();
    let first = it.next();
    assert!(first.is_leaf());
    assert_eq!(first, Tree { first: None, second: None });
}

#[test]
fn the_first_shapes_in_order() {
    let one = || unary(leaf());
    let two = || binary(leaf(), leaf());
    let expected = vec![
        leaf(),
        one(),
        two(),
        unary(one()),
        unary(two()),
        binary(one(), leaf()),
        binary(two(), leaf()),
        binary(one(), one()),
        binary(two(), one()),
        binary(one(), two()),
        binary(two(), two()),
        unary(unary(one())),
        unary(unary(two())),
        unary(binary(one(), leaf())),
    ];
    let mut it = TreeIterator::new();
    for e in expected {
        assert_eq!(it.next(), e);
    }
}

#[test]
fn the_bound_grows_when_the_shape_carries() {
    let mut it = TreeIterator::new();
    let mut bounds = Vec::new();
    for _ in 0..13 {
        bounds.push(it.depth());
        it.next();
    }
    assert_eq!(bounds, vec![0, 1, 1, 2, 2, 2, 2, 2, 2, 2, 2, 3, 3]);
}

#[test]
fn the_bound_never_shrinks() {
    let mut it = TreeIterator::new();
    let mut last = it.depth();
    for _ in 0..2000 {
        it.next();
        let now = it.depth();
        assert!(now == last || now == last + 1);
        last = now;
    }
}

#[test]
fn every_shape_is_one_node_higher_than_its_bound() {
    let mut it = TreeIterator::new();
    for _ in 0..2000 {
        let bound = it.depth();
        let shape = it.next();
        assert_eq!(shape.depth(), bound + 1);
    }
}

#[test]
fn an_emitted_shape_is_not_changed_by_later_pulls() {
    let mut it = TreeIterator::new();
    it.next();
    let held = it.next();
    let copy = held.clone();
    for _ in 0..20 {
        it.next();
    }
    assert_eq!(held, copy);
    assert_eq!(held, unary(leaf()));
}

#[test]
fn two_sequencers_give_the_same_sequence() {
    let mut a = TreeIterator::new();
    let mut b = TreeIterator::new();
    for _ in 0..500 {
        assert_eq!(a.next(), b.next());
    }
}
