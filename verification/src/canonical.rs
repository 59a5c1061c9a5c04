//! Canonical forms: the representative of a shape's isomorphism class, found
//! by ordering the children of every two-child node by their identifiers.

use vstd::prelude::*;
use crate::tree::Tree;
use crate::table::{id_of, lemma_id_of_contained, lemma_id_of_stable, IdentityTable};

verus! {

impl Tree {
    /// The canonical form of the shape with respect to the identifiers in `table`.
    ///
    /// A leaf is canonical. A single child, in whichever slot it stands, is
    /// made canonical and placed first. Two children are made canonical and
    /// placed in ascending order of their identifiers.
    pub open spec fn canonical(self, table: Seq<Tree>) -> Tree
        decreases self,
    {
        match (self.first, self.second) {
            (None, None) => Tree::leaf_shape(),
            (Some(a), None) => Tree::unary(a.canonical(table)),
            (None, Some(b)) => Tree::unary(b.canonical(table)),
            (Some(a), Some(b)) => {
                let ca = a.canonical(table);
                let cb = b.canonical(table);
                if id_of(table, ca) < id_of(table, cb) {
                    Tree::binary(ca, cb)
                } else {
                    Tree::binary(cb, ca)
                }
            },
        }
    }

    /// Every identifier that making the shape canonical looks up is in `table`:
    /// below each two-child node, both canonical children have one.
    pub open spec fn resolvable(self, table: Seq<Tree>) -> bool
        decreases self,
    {
        match (self.first, self.second) {
            (None, None) => true,
            (Some(a), None) => a.resolvable(table),
            (None, Some(b)) => b.resolvable(table),
            (Some(a), Some(b)) => {
                &&& a.resolvable(table)
                &&& b.resolvable(table)
                &&& table.contains(a.canonical(table))
                &&& table.contains(b.canonical(table))
            },
        }
    }

    /// The shape with its two slots exchanged.
    pub open spec fn mirrored(self) -> Tree {
        Tree { first: self.second, second: self.first }
    }

    /// Reduces the shape to its canonical form.
    pub fn unique_isomorphic(&self, unique_map: &IdentityTable) -> (canon: Tree)
        requires
            self.resolvable(unique_map@),
        ensures
            canon == self.canonical(unique_map@),
            canon.well_formed(),
        decreases self,
    {
        proof {
            lemma_canonical_well_formed(*self, unique_map@);
        }
        match (&self.first, &self.second) {
            (Some(a), Some(b)) => {
                let a = a.unique_isomorphic(unique_map);
                let b = b.unique_isomorphic(unique_map);
                let a_id = unique_map.id_of(&a).unwrap();
                let b_id = unique_map.id_of(&b).unwrap();
                if a_id < b_id {
                    Tree { first: Some(Box::new(a)), second: Some(Box::new(b)) }
                } else {
                    Tree { first: Some(Box::new(b)), second: Some(Box::new(a)) }
                }
            },
            (None, Some(b)) => Tree {
                first: Some(Box::new(b.unique_isomorphic(unique_map))),
                second: None,
            },
            (Some(a), None) => Tree {
                first: Some(Box::new(a.unique_isomorphic(unique_map))),
                second: None,
            },
            (None, None) => Tree { first: None, second: None },
        }
    }
}

/// Canonical forms are fixed points: a canonical form is resolvable wherever
/// the shape it came from is, and making it canonical again changes nothing.
pub proof fn lemma_canonical_idempotent(shape: Tree, table: Seq<Tree>)
    requires
        shape.resolvable(table),
    ensures
        shape.canonical(table).resolvable(table),
        shape.canonical(table).canonical(table) == shape.canonical(table),
    decreases shape,
{
    match (shape.first, shape.second) {
        (None, None) => {},
        (Some(a), None) => {
            lemma_canonical_idempotent(*a, table);
        },
        (None, Some(b)) => {
            lemma_canonical_idempotent(*b, table);
        },
        (Some(a), Some(b)) => {
            lemma_canonical_idempotent(*a, table);
            lemma_canonical_idempotent(*b, table);
            let ca = a.canonical(table);
            let cb = b.canonical(table);
            lemma_equal_ids(table, ca, cb);
        },
    }
}

/// Exchanging the two slots of a shape does not change its canonical form.
pub proof fn lemma_canonical_mirror(shape: Tree, table: Seq<Tree>)
    requires
        shape.resolvable(table),
    ensures
        shape.mirrored().resolvable(table),
        shape.mirrored().canonical(table) == shape.canonical(table),
{
    match (shape.first, shape.second) {
        (Some(a), Some(b)) => {
            lemma_equal_ids(table, a.canonical(table), b.canonical(table));
        },
        _ => {},
    }
}

/// A table that grows keeps the canonical forms it could already give.
pub proof fn lemma_canonical_stable(shape: Tree, table: Seq<Tree>, added: Tree)
    requires
        shape.resolvable(table),
    ensures
        shape.resolvable(table.push(added)),
        shape.canonical(table.push(added)) == shape.canonical(table),
    decreases shape,
{
    match (shape.first, shape.second) {
        (None, None) => {},
        (Some(a), None) => {
            lemma_canonical_stable(*a, table, added);
        },
        (None, Some(b)) => {
            lemma_canonical_stable(*b, table, added);
        },
        (Some(a), Some(b)) => {
            lemma_canonical_stable(*a, table, added);
            lemma_canonical_stable(*b, table, added);
            lemma_id_of_stable(table, added, a.canonical(table));
            lemma_id_of_stable(table, added, b.canonical(table));
        },
    }
}

/// A canonical form never holds a lone child in its second slot.
pub proof fn lemma_canonical_well_formed(shape: Tree, table: Seq<Tree>)
    ensures
        shape.canonical(table).well_formed(),
    decreases shape,
{
    match (shape.first, shape.second) {
        (None, None) => {},
        (Some(a), None) => {
            lemma_canonical_well_formed(*a, table);
        },
        (None, Some(b)) => {
            lemma_canonical_well_formed(*b, table);
        },
        (Some(a), Some(b)) => {
            lemma_canonical_well_formed(*a, table);
            lemma_canonical_well_formed(*b, table);
        },
    }
}

/// A canonical form is as high as the shape it stands for.
pub proof fn lemma_canonical_height(shape: Tree, table: Seq<Tree>)
    ensures
        shape.canonical(table).height() == shape.height(),
    decreases shape,
{
    match (shape.first, shape.second) {
        (None, None) => {},
        (Some(a), None) => {
            lemma_canonical_height(*a, table);
        },
        (None, Some(b)) => {
            lemma_canonical_height(*b, table);
        },
        (Some(a), Some(b)) => {
            lemma_canonical_height(*a, table);
            lemma_canonical_height(*b, table);
        },
    }
}

/// Two shapes of the table with the same identifier are the same shape.
proof fn lemma_equal_ids(table: Seq<Tree>, x: Tree, y: Tree)
    requires
        table.contains(x),
        table.contains(y),
    ensures
        id_of(table, x) == id_of(table, y) ==> x == y,
{
    lemma_id_of_contained(table, x);
    lemma_id_of_contained(table, y);
}

} // verus!
