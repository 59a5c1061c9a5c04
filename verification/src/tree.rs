//! The shape of a rooted binary tree: a node and at most two child shapes.

use vstd::prelude::*;

verus! {

/// One binary-tree shape. A node carries no payload; it is its children.
///
/// The two slots are positions, not sides: the sequencer fills the first
/// before the second, and a canonical form holds its children in the order of
/// their identifiers. Two shapes are equal when their first slots are equal
/// and their second slots are equal, all the way down.
#[derive(Debug, Hash)]
pub struct Tree {
    pub first: Option<Box<Tree>>,
    pub second: Option<Box<Tree>>,
}

/// Height contributed by a slot: nothing when the slot is empty.
pub open spec fn slot_height(slot: Option<Box<Tree>>) -> nat
    decreases slot,
{
    match slot {
        None => 0,
        Some(child) => child.height(),
    }
}

impl Tree {
    /// The shape with both slots empty.
    pub open spec fn leaf_shape() -> Tree {
        Tree { first: None, second: None }
    }

    /// The node whose first slot holds `a` and whose second slot is empty.
    pub open spec fn unary(a: Tree) -> Tree {
        Tree { first: Some(Box::new(a)), second: None }
    }

    /// The node whose slots hold `a` and `b`, in that order.
    pub open spec fn binary(a: Tree, b: Tree) -> Tree {
        Tree { first: Some(Box::new(a)), second: Some(Box::new(b)) }
    }

    /// No node of the shape has its second slot occupied beside an empty first slot.
    pub open spec fn well_formed(self) -> bool
        decreases self,
    {
        match (self.first, self.second) {
            (None, None) => true,
            (None, Some(_)) => false,
            (Some(a), None) => a.well_formed(),
            (Some(a), Some(b)) => a.well_formed() && b.well_formed(),
        }
    }

    /// Number of nodes on the longest path from this node downwards.
    pub open spec fn height(self) -> nat
        decreases self,
    {
        let a = slot_height(self.first);
        let b = slot_height(self.second);
        1 + if a >= b { a } else { b }
    }

    /// A fresh leaf.
    pub fn leaf() -> (t: Tree)
        ensures
            t == Tree::leaf_shape(),
    {
        Tree { first: None, second: None }
    }

    /// Whether both slots are empty.
    pub fn is_leaf(&self) -> (b: bool)
        ensures
            b == (*self == Tree::leaf_shape()),
    {
        self.first.is_none() && self.second.is_none()
    }

    /// Whether no node of the shape has its second slot occupied beside an
    /// empty first slot.
    pub fn is_well_formed(&self) -> (ok: bool)
        ensures
            ok == self.well_formed(),
        decreases self,
    {
        match (&self.first, &self.second) {
            (None, None) => true,
            (None, Some(_)) => false,
            (Some(a), None) => a.is_well_formed(),
            (Some(a), Some(b)) => a.is_well_formed() && b.is_well_formed(),
        }
    }

    /// The height of the shape, when it fits the machine word.
    pub fn depth(&self) -> (h: usize)
        requires
            self.height() <= usize::MAX,
        ensures
            h == self.height(),
        decreases self,
    {
        let a: usize = match &self.first {
            Some(child) => child.depth(),
            None => 0,
        };
        let b: usize = match &self.second {
            Some(child) => child.depth(),
            None => 0,
        };
        if a >= b { a + 1 } else { b + 1 }
    }
}

impl Clone for Tree {
    /// An independently owned duplicate: each slot is copied on its own.
    fn clone(&self) -> (copy: Tree)
        ensures
            copy == *self,
        decreases self,
    {
        Tree {
            first: match &self.first {
                Some(child) => Some(Box::new((&**child).clone())),
                None => None,
            },
            second: match &self.second {
                Some(child) => Some(Box::new((&**child).clone())),
                None => None,
            },
        }
    }
}

impl Default for Tree {
    /// The leaf.
    fn default() -> (t: Tree)
        ensures
            t == Tree::leaf_shape(),
    {
        Tree { first: None, second: None }
    }
}

impl PartialEq for Tree {
    /// Compares the two shapes slot by slot, all the way down.
    fn eq(&self, other: &Tree) -> (same: bool)
        decreases self,
    {
        let firsts = match (&self.first, &other.first) {
            (Some(a), Some(b)) => (&**a).eq(&**b),
            (None, None) => true,
            _ => false,
        };
        firsts && match (&self.second, &other.second) {
            (Some(a), Some(b)) => (&**a).eq(&**b),
            (None, None) => true,
            _ => false,
        }
    }
}

impl Eq for Tree {}

impl vstd::std_specs::cmp::PartialEqSpecImpl for Tree {
    open spec fn obeys_eq_spec() -> bool {
        true
    }

    open spec fn eq_spec(&self, other: &Tree) -> bool {
        *self == *other
    }
}

} // verus!
