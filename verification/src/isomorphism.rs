//! Isomorphism of shapes: equality up to the order in which each node holds
//! its children. Canonical forms decide it.

use vstd::prelude::*;
use crate::tree::Tree;
use crate::canonical::lemma_canonical_mirror;

verus! {

impl Tree {
    /// The two shapes are equal once the order of the children of every node
    /// is disregarded: both are leaves, or each has a single child and these
    /// are isomorphic, or each has two children and these are isomorphic in
    /// pairs, one way round or the other.
    pub open spec fn isomorphic(self, other: Tree) -> bool
        decreases self,
    {
        match (self.first, self.second) {
            (None, None) => other.first.is_none() && other.second.is_none(),
            (Some(a), None) | (None, Some(a)) => match (other.first, other.second) {
                (Some(b), None) | (None, Some(b)) => a.isomorphic(*b),
                _ => false,
            },
            (Some(a1), Some(a2)) => match (other.first, other.second) {
                (Some(b1), Some(b2)) => {
                    ||| a1.isomorphic(*b1) && a2.isomorphic(*b2)
                    ||| a1.isomorphic(*b2) && a2.isomorphic(*b1)
                },
                _ => false,
            },
        }
    }
}

/// Every shape is isomorphic to itself.
pub proof fn lemma_isomorphic_reflexive(a: Tree)
    ensures
        a.isomorphic(a),
    decreases a,
{
    match (a.first, a.second) {
        (None, None) => {},
        (Some(x), None) | (None, Some(x)) => {
            lemma_isomorphic_reflexive(*x);
        },
        (Some(x1), Some(x2)) => {
            lemma_isomorphic_reflexive(*x1);
            lemma_isomorphic_reflexive(*x2);
        },
    }
}

/// Isomorphism does not depend on which shape is named first.
pub proof fn lemma_isomorphic_symmetric(a: Tree, b: Tree)
    requires
        a.isomorphic(b),
    ensures
        b.isomorphic(a),
    decreases a,
{
    match (a.first, a.second) {
        (None, None) => {},
        (Some(x), None) | (None, Some(x)) => {
            match (b.first, b.second) {
                (Some(y), None) | (None, Some(y)) => {
                    lemma_isomorphic_symmetric(*x, *y);
                },
                _ => {},
            }
        },
        (Some(x1), Some(x2)) => {
            match (b.first, b.second) {
                (Some(y1), Some(y2)) => {
                    if x1.isomorphic(*y1) && x2.isomorphic(*y2) {
                        lemma_isomorphic_symmetric(*x1, *y1);
                        lemma_isomorphic_symmetric(*x2, *y2);
                    } else {
                        lemma_isomorphic_symmetric(*x1, *y2);
                        lemma_isomorphic_symmetric(*x2, *y1);
                    }
                },
                _ => {},
            }
        },
    }
}

/// Shapes isomorphic to the same shape are isomorphic to each other.
pub proof fn lemma_isomorphic_transitive(a: Tree, b: Tree, c: Tree)
    requires
        a.isomorphic(b),
        b.isomorphic(c),
    ensures
        a.isomorphic(c),
    decreases a,
{
    match (a.first, a.second) {
        (None, None) => {},
        (Some(x), None) | (None, Some(x)) => {
            match (b.first, b.second) {
                (Some(y), None) | (None, Some(y)) => {
                    match (c.first, c.second) {
                        (Some(z), None) | (None, Some(z)) => {
                            lemma_isomorphic_transitive(*x, *y, *z);
                        },
                        _ => {},
                    }
                },
                _ => {},
            }
        },
        (Some(x1), Some(x2)) => {
            match ((b.first, b.second), (c.first, c.second)) {
                ((Some(y1), Some(y2)), (Some(z1), Some(z2))) => {
                    if x1.isomorphic(*y1) && x2.isomorphic(*y2) {
                        if y1.isomorphic(*z1) && y2.isomorphic(*z2) {
                            lemma_isomorphic_transitive(*x1, *y1, *z1);
                            lemma_isomorphic_transitive(*x2, *y2, *z2);
                        } else {
                            lemma_isomorphic_transitive(*x1, *y1, *z2);
                            lemma_isomorphic_transitive(*x2, *y2, *z1);
                        }
                    } else {
                        if y1.isomorphic(*z1) && y2.isomorphic(*z2) {
                            lemma_isomorphic_transitive(*x1, *y2, *z2);
                            lemma_isomorphic_transitive(*x2, *y1, *z1);
                        } else {
                            lemma_isomorphic_transitive(*x1, *y2, *z1);
                            lemma_isomorphic_transitive(*x2, *y1, *z2);
                        }
                    }
                },
                _ => {},
            }
        },
    }
}

/// A shape is isomorphic to its canonical form, whatever the table.
pub proof fn lemma_canonical_isomorphic(a: Tree, table: Seq<Tree>)
    ensures
        a.isomorphic(a.canonical(table)),
    decreases a,
{
    match (a.first, a.second) {
        (None, None) => {},
        (Some(x), None) | (None, Some(x)) => {
            lemma_canonical_isomorphic(*x, table);
        },
        (Some(x1), Some(x2)) => {
            lemma_canonical_isomorphic(*x1, table);
            lemma_canonical_isomorphic(*x2, table);
        },
    }
}

/// Isomorphic shapes have the same canonical form.
pub proof fn lemma_isomorphic_same_canonical(a: Tree, b: Tree, table: Seq<Tree>)
    requires
        a.isomorphic(b),
        a.resolvable(table),
        b.resolvable(table),
    ensures
        a.canonical(table) == b.canonical(table),
    decreases a,
{
    match (a.first, a.second) {
        (None, None) => {},
        (Some(x), None) | (None, Some(x)) => {
            match (b.first, b.second) {
                (Some(y), None) | (None, Some(y)) => {
                    lemma_isomorphic_same_canonical(*x, *y, table);
                },
                _ => {},
            }
        },
        (Some(x1), Some(x2)) => {
            match (b.first, b.second) {
                (Some(y1), Some(y2)) => {
                    if x1.isomorphic(*y1) && x2.isomorphic(*y2) {
                        lemma_isomorphic_same_canonical(*x1, *y1, table);
                        lemma_isomorphic_same_canonical(*x2, *y2, table);
                    } else {
                        lemma_isomorphic_same_canonical(*x1, *y2, table);
                        lemma_isomorphic_same_canonical(*x2, *y1, table);
                        lemma_canonical_mirror(b, table);
                    }
                },
                _ => {},
            }
        },
    }
}

/// Shapes with the same canonical form are isomorphic.
pub proof fn lemma_same_canonical_isomorphic(a: Tree, b: Tree, table: Seq<Tree>)
    requires
        a.canonical(table) == b.canonical(table),
    ensures
        a.isomorphic(b),
{
    lemma_canonical_isomorphic(a, table);
    lemma_canonical_isomorphic(b, table);
    lemma_isomorphic_symmetric(b, b.canonical(table));
    lemma_isomorphic_transitive(a, a.canonical(table), b);
}

} // verus!
