//! The successor rule: a shape is advanced like a counter whose capacity is a
//! depth bound, and reports a carry when the bound leaves it no room.

use vstd::prelude::*;
use vstd::pervasive::unreached;
use crate::tree::Tree;

verus! {

impl Tree {
    /// One step of the successor rule at `bound`: the shape afterwards, and
    /// whether the step carried.
    ///
    /// At bound zero every shape carries and stays as it is. Otherwise a leaf
    /// grows a first child; a node advances its first child one level down, and
    /// when that carries it turns to the second slot: an empty one receives a
    /// fresh leaf, an occupied one is advanced in turn, and is emptied, with a
    /// carry, when it carries too.
    ///
    /// The rule has nothing to say of a node with only its second slot
    /// occupied; `can_advance` tells when a step meets none, and here such a
    /// node is left as it is.
    pub open spec fn step(self, bound: nat) -> (Tree, bool)
        decreases bound,
    {
        if bound == 0 {
            (self, true)
        } else {
            match (self.first, self.second) {
                (None, None) => (Tree::unary(Tree::leaf_shape()), false),
                (None, Some(_)) => (self, false),
                (Some(a), None) => {
                    let (a2, carry) = a.step((bound - 1) as nat);
                    if carry {
                        (Tree::binary(a2, Tree::leaf_shape()), false)
                    } else {
                        (Tree::unary(a2), false)
                    }
                },
                (Some(a), Some(b)) => {
                    let (a2, carry) = a.step((bound - 1) as nat);
                    if !carry {
                        (Tree::binary(a2, *b), false)
                    } else {
                        let (b2, carry2) = b.step((bound - 1) as nat);
                        if carry2 {
                            (Tree::unary(a2), true)
                        } else {
                            (Tree::binary(a2, b2), false)
                        }
                    }
                },
            }
        }
    }

    /// The shape that follows this one at `bound`.
    pub open spec fn successor(self, bound: nat) -> Tree {
        self.step(bound).0
    }

    /// Whether advancing this shape at `bound` carries.
    pub open spec fn carries(self, bound: nat) -> bool {
        self.step(bound).1
    }

    /// The step at `bound` never visits a node with only its second slot occupied.
    pub open spec fn can_advance(self, bound: nat) -> bool
        decreases bound,
    {
        bound == 0 || match (self.first, self.second) {
            (None, None) => true,
            (None, Some(_)) => false,
            (Some(a), None) => a.can_advance((bound - 1) as nat),
            (Some(a), Some(b)) => {
                &&& a.can_advance((bound - 1) as nat)
                &&& a.carries((bound - 1) as nat) ==> b.can_advance((bound - 1) as nat)
            },
        }
    }

    /// Advances the shape to its successor at `depth` and returns the carry.
    ///
    /// At depth zero the shape carries at once and is not touched.
    pub fn inc(&mut self, depth: usize) -> (carry: bool)
        requires
            old(self).can_advance(depth as nat),
        ensures
            *final(self) == old(self).successor(depth as nat),
            carry == old(self).carries(depth as nat),
            depth == 0 ==> carry && *final(self) == *old(self),
            old(self).well_formed() ==> final(self).well_formed(),
        decreases depth,
    {
        proof {
            if self.well_formed() {
                lemma_well_formed_advances(*self, depth as nat);
            }
        }
        if depth == 0 {
            return true;
        }
        let mut right_try_carry = false;
        let mut right_create = false;
        let mut left_create = false;
        match &mut self.first {
            Some(l) => {
                if l.inc(depth - 1) {
                    if self.second.is_some() {
                        right_try_carry = true;
                    } else {
                        right_create = true;
                    }
                }
            },
            None => {
                if self.second.is_some() {
                    unreached::<()>();
                }
                left_create = true;
            },
        }
        if right_create {
            self.second = Some(Box::new(Tree::leaf()));
            false
        } else if left_create {
            self.first = Some(Box::new(Tree::leaf()));
            false
        } else if right_try_carry {
            if self.second.as_mut().unwrap().inc(depth - 1) {
                self.second = None;
                true
            } else {
                false
            }
        } else {
            false
        }
    }
}

/// A well-formed shape can be advanced at every bound, and stays well formed.
pub proof fn lemma_well_formed_advances(shape: Tree, bound: nat)
    requires
        shape.well_formed(),
    ensures
        shape.can_advance(bound),
        shape.successor(bound).well_formed(),
    decreases bound,
{
    assert(Tree::leaf_shape().well_formed());
    if bound > 0 {
        let below = (bound - 1) as nat;
        match (shape.first, shape.second) {
            (Some(a), None) => {
                lemma_well_formed_advances(*a, below);
            },
            (Some(a), Some(b)) => {
                lemma_well_formed_advances(*a, below);
                lemma_well_formed_advances(*b, below);
            },
            _ => {},
        }
    }
}

} // verus!
