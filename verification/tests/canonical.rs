use tree_shapes::{IdentityTable, Tree};

fn leaf() -> Tree {
    Tree::leaf()
}

fn unary(a: Tree) -> Tree {
    Tree { first: Some(Box::new(a)), second: None }
}

fn second_only(b: Tree) -> Tree {
    Tree { first: None, second: Some(Box::new(b)) }
}

fn binary(a: Tree, b: Tree) -> Tree {
    Tree { first: Some(Box::new(a)), second: Some(Box::new(b)) }
}

fn mirrored(t: &Tree) -> Tree {
    Tree { first: t.second.clone(), second: t.first.clone() }
}

/// Identifiers 0, 1, 2 and 3 for the leaf, `{*,}`, `{*,*}` and `{{*,},}`.
fn small_table() -> IdentityTable {
    let mut t = IdentityTable::new();
    t.insert(leaf());
    t.insert(unary(leaf()));
    t.insert(binary(leaf(), leaf()));
    t.insert(unary(unary(leaf())));
    t
}

#[test]
fn a_leaf_is_canonical_without_any_identifier() {
    let empty = IdentityTable::new();
    assert_eq!(leaf().unique_isomorphic(&empty), leaf());
}

#[test]
fn a_single_child_needs_no_identifier() {
    let empty = IdentityTable::new();
    assert_eq!(unary(unary(leaf())).unique_isomorphic(&empty), unary(unary(leaf())));
}

#[test]
fn a_single_child_moves_to_the_first_slot() {
    let t = small_table();
    assert_eq!(second_only(leaf()).unique_isomorphic(&t), unary(leaf()));
    assert_eq!(
        second_only(second_only(leaf())).unique_isomorphic(&t),
        unary(unary(leaf()))
    );
    assert_eq!(unary(second_only(leaf())).unique_isomorphic(&t), unary(unary(leaf())));
}

#[test]
fn two_children_are_ordered_by_identifier() {
    let t = small_table();
    let raw = binary(unary(leaf()), leaf());
    assert_eq!(raw.unique_isomorphic(&t), binary(leaf(), unary(leaf())));
    let raw = binary(binary(leaf(), leaf()), unary(leaf()));
    assert_eq!(raw.unique_isomorphic(&t), binary(unary(leaf()), binary(leaf(), leaf())));
}

#[test]
fn children_in_ascending_order_stay() {
    let t = small_table();
    let raw = binary(leaf(), binary(leaf(), leaf()));
    assert_eq!(raw.unique_isomorphic(&t), raw);
}

#[test]
fn equal_children_give_the_same_node() {
    let t = small_table();
    let raw = binary(unary(leaf()), unary(leaf()));
    assert_eq!(raw.unique_isomorphic(&t), raw);
}

#[test]
fn children_are_made_canonical_before_they_are_ordered() {
    let t = small_table();
    let raw = binary(unary(second_only(leaf())), second_only(leaf()));
    assert_eq!(raw.unique_isomorphic(&t), binary(unary(leaf()), unary(unary(leaf()))));
}

#[test]
fn the_order_depends_on_the_identifiers_given() {
    let mut t = IdentityTable::new();
    t.insert(unary(leaf()));
    t.insert(leaf());
    let raw = binary(leaf(), unary(leaf()));
    assert_eq!(raw.unique_isomorphic(&t), binary(unary(leaf()), leaf()));
}

#[test]
fn canonical_forms_are_fixed_points() {
    let t = small_table();
    let raws = vec![
        leaf(),
        second_only(leaf()),
        binary(unary(leaf()), leaf()),
        binary(binary(leaf(), leaf()), unary(leaf())),
        binary(unary(leaf()), unary(leaf())),
        unary(binary(unary(leaf()), leaf())),
        binary(unary(second_only(leaf())), second_only(leaf())),
    ];
    for raw in raws {
        let once = raw.unique_isomorphic(&t);
        let twice = once.unique_isomorphic(&t);
        assert_eq!(twice, once);
    }
}

#[test]
fn mirror_images_have_the_same_canonical_form() {
    let t = small_table();
    let raws = vec![
        binary(unary(leaf()), leaf()),
        binary(leaf(), unary(leaf())),
        binary(binary(leaf(), leaf()), unary(leaf())),
        binary(unary(leaf()), unary(leaf())),
        binary(unary(unary(leaf())), binary(leaf(), leaf())),
        unary(leaf()),
        second_only(unary(leaf())),
        leaf(),
    ];
    for raw in raws {
        assert_eq!(mirrored(&raw).unique_isomorphic(&t), raw.unique_isomorphic(&t));
    }
}

#[test]
fn a_nested_mirror_image_has_the_same_canonical_form() {
    let mut t = small_table();
    t.insert(binary(leaf(), unary(leaf())));
    let a = unary(binary(unary(leaf()), leaf()));
    let b = unary(binary(leaf(), unary(leaf())));
    assert_eq!(a.unique_isomorphic(&t), b.unique_isomorphic(&t));
    assert_eq!(a.unique_isomorphic(&t), b);
}
