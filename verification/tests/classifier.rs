use tree_shapes::{Tree, TreeIterator, UniqueTreeIterator};

fn leaf() -> Tree {
    Tree::leaf()
}

fn unary(a: Tree) -> Tree {
    Tree { first: Some(Box::new(a)), second: None }
}

fn binary(a: Tree, b: Tree) -> Tree {
    Tree { first: Some(Box::new(a)), second: Some(Box::new(b)) }
}

#[test]
fn a_new_classifier_has_found_nothing() {
    let it = UniqueTreeIterator::new();
    assert_eq!(it.unique_map().len(), 0);
    assert_eq!(it.tree_iter().depth(), 0);
    assert_eq!(it.tree_iter().current(), &leaf());
}

#[test]
fn the_first_three_unique_shapes() {
    let mut it = UniqueTreeIterator::new();
    let found = vec![it.next(), it.next(), it.next()];
    assert_eq!(found[0], leaf());
    assert_eq!(found[1], unary(leaf()));
    assert_eq!(found[2], binary(leaf(), leaf()));
    let mut text = String::new();
    found[0].print_fancy(0, &mut text);
    assert_eq!(text, "*\n");
    let mut text = String::new();
    found[1].print_simple(&mut text);
    assert_eq!(text, "{{,},}");
    let mut text = String::new();
    found[2].print_simple(&mut text);
    assert_eq!(text, "{{,},{,}}");
}

#[test]
fn heights_of_the_first_two_unique_shapes() {
    let mut it = UniqueTreeIterator::new();
    let zero = it.next();
    let one = it.next();
    assert_eq!(zero.depth(), 1);
    assert_eq!(one.depth(), 2);
}

#[test]
fn the_first_ten_unique_shapes() {
    let one = || unary(leaf());
    let two = || binary(leaf(), leaf());
    let expected = vec![
        leaf(),
        one(),
        two(),
        unary(one()),
        unary(two()),
        binary(leaf(), one()),
        binary(leaf(), two()),
        binary(one(), one()),
        binary(one(), two()),
        binary(two(), two()),
        unary(unary(one())),
    ];
    let mut it = UniqueTreeIterator::new();
    for e in expected {
        assert_eq!(it.next(), e);
    }
}

#[test]
fn a_mirror_image_is_passed_over() {
    let mut it = UniqueTreeIterator::new();
    let mut raw = TreeIterator::new();
    for _ in 0..9 {
        it.next();
    }
    for _ in 0..9 {
        raw.next();
    }
    let two = || binary(leaf(), leaf());
    assert_eq!(raw.next(), binary(unary(leaf()), two()));
    assert_eq!(raw.next(), binary(two(), two()));
    assert_eq!(it.next(), binary(two(), two()));
    assert_eq!(it.tree_iter().current(), raw.current());
}

#[test]
fn identifiers_are_dense_and_in_order_of_discovery() {
    let mut it = UniqueTreeIterator::new();
    for id in 0..60usize {
        assert_eq!(it.unique_map().len(), id);
        let shape = it.next();
        assert_eq!(it.unique_map().len(), id + 1);
        assert_eq!(it.unique_map().id_of(&shape), Some(id));
        assert_eq!(it.unique_map().get(id), Some(&shape));
    }
}

#[test]
fn identifiers_once_given_do_not_change() {
    let mut it = UniqueTreeIterator::new();
    let mut found = Vec::new();
    for _ in 0..40 {
        found.push(it.next());
        for (id, shape) in found.iter().enumerate() {
            assert_eq!(it.unique_map().id_of(shape), Some(id));
        }
    }
}

#[test]
fn no_shape_is_emitted_twice() {
    let mut it = UniqueTreeIterator::new();
    let mut found: Vec<Tree> = Vec::new();
    for _ in 0..80 {
        let shape = it.next();
        assert!(!found.contains(&shape));
        found.push(shape);
    }
}

#[test]
fn emitted_shapes_are_canonical() {
    let mut it = UniqueTreeIterator::new();
    for _ in 0..80 {
        let shape = it.next();
        assert_eq!(shape.unique_isomorphic(it.unique_map()), shape);
    }
}

#[test]
fn no_emitted_shape_is_the_mirror_image_of_another() {
    let mut it = UniqueTreeIterator::new();
    let mut found: Vec<Tree> = Vec::new();
    for _ in 0..80 {
        found.push(it.next());
    }
    for shape in &found {
        let mirror = Tree { first: shape.second.clone(), second: shape.first.clone() };
        let canon = mirror.unique_isomorphic(it.unique_map());
        assert_eq!(&canon, shape);
    }
}

#[test]
fn every_raw_shape_pulled_has_its_class_in_the_table() {
    let mut it = UniqueTreeIterator::new();
    let mut raw = TreeIterator::new();
    for _ in 0..40 {
        it.next();
    }
    while raw.current() != it.tree_iter().current() || raw.depth() != it.tree_iter().depth() {
        let shape = raw.next();
        let canon = shape.unique_isomorphic(it.unique_map());
        assert!(it.unique_map().id_of(&canon).is_some());
    }
}

#[test]
fn emitted_shapes_keep_the_first_slot_occupied_first() {
    let mut it = UniqueTreeIterator::new();
    for _ in 0..80 {
        let shape = it.next();
        assert!(shape.is_well_formed());
    }
}
