//! The sequencer: the unbounded sequence of raw shapes, produced by advancing
//! one shape under a bound that grows whenever the shape carries.

use vstd::prelude::*;
use crate::tree::Tree;
use crate::advance::lemma_well_formed_advances;
use crate::orbit::{lemma_carry_resets, lemma_orbit_shape, lemma_spine_grows, orbit};

verus! {

/// The state that follows `(shape, bound)`: the shape is advanced at the bound,
/// and where that carries the bound grows by one and the shape is advanced again.
pub open spec fn pull(state: (Tree, nat)) -> (Tree, nat) {
    let (shape, bound) = state;
    if shape.carries(bound) {
        (shape.successor(bound).successor(bound + 1), bound + 1)
    } else {
        (shape.successor(bound), bound)
    }
}

/// The shape and the bound that the sequencer holds once it has emitted `p` shapes.
pub open spec fn state_at(p: nat) -> (Tree, nat)
    decreases p,
{
    if p == 0 {
        (Tree::leaf_shape(), 0)
    } else {
        pull(state_at((p - 1) as nat))
    }
}

/// The `p`-th raw shape of the sequence, counting from zero.
pub open spec fn raw_shape(p: nat) -> Tree {
    state_at(p).0
}

/// The bound under which the `p`-th raw shape is emitted.
pub open spec fn bound_at(p: nat) -> nat {
    state_at(p).1
}

/// How many shapes have been emitted under the present bound before the `p`-th.
pub open spec fn turn_at(p: nat) -> nat
    decreases p,
{
    if p == 0 {
        0
    } else if raw_shape((p - 1) as nat).carries(bound_at((p - 1) as nat)) {
        0
    } else {
        turn_at((p - 1) as nat) + 1
    }
}

/// The sequencer goes round the orbit of its bound: the `p`-th raw shape is
/// the orbit shape of its bound and turn.
pub proof fn lemma_raw_shape_in_orbit(p: nat)
    ensures
        raw_shape(p) == orbit(bound_at(p), turn_at(p)),
    decreases p,
{
    if p > 0 {
        let q = (p - 1) as nat;
        lemma_raw_shape_in_orbit(q);
        let bound = bound_at(q);
        let n = turn_at(q);
        assert(orbit(bound, n + 1) == orbit(bound, n).successor(bound));
        if raw_shape(q).carries(bound) {
            lemma_carry_resets(bound, n);
            lemma_spine_grows(bound, bound + 1);
        }
    }
}

/// A shape that carries has room under the next bound: the second step of a
/// pull never carries.
pub proof fn lemma_pull_settles(p: nat)
    requires
        raw_shape(p).carries(bound_at(p)),
    ensures
        !raw_shape(p).successor(bound_at(p)).carries(bound_at(p) + 1),
{
    lemma_raw_shape_in_orbit(p);
    lemma_carry_resets(bound_at(p), turn_at(p));
    assert(orbit(bound_at(p), turn_at(p) + 1) == raw_shape(p).successor(bound_at(p)));
    lemma_spine_grows(bound_at(p), bound_at(p) + 1);
}

/// Every raw shape is well formed, and one node higher than its bound.
pub proof fn lemma_raw_shape_well_formed(p: nat)
    ensures
        raw_shape(p).well_formed(),
        raw_shape(p).height() == bound_at(p) + 1,
{
    lemma_raw_shape_in_orbit(p);
    lemma_orbit_shape(bound_at(p), turn_at(p));
}

/// The bound never shrinks, and grows by at most one from a shape to the next.
pub proof fn lemma_bound_monotone(p: nat)
    ensures
        bound_at(p) <= bound_at(p + 1) <= bound_at(p) + 1,
{
    assert(state_at(p + 1) == pull(state_at(p)));
}

/// Positions are ordered as their bounds and turns are: a later shape is
/// emitted under a larger bound, or under the same bound at a later turn.
pub proof fn lemma_positions_ordered(q: nat, p: nat)
    requires
        q < p,
    ensures
        bound_at(q) < bound_at(p) || (bound_at(q) == bound_at(p) && turn_at(q) < turn_at(p)),
    decreases p,
{
    let before = (p - 1) as nat;
    assert(state_at(p) == pull(state_at(before)));
    if q < before {
        lemma_positions_ordered(q, before);
    }
}

/// The generator of raw shapes.
pub struct TreeIterator {
    current: Tree,
    depth: usize,
    emitted: Ghost<nat>,
}

impl TreeIterator {
    /// How many shapes the sequencer has emitted.
    pub closed spec fn position(&self) -> nat {
        self.emitted@
    }

    /// The sequencer holds the state that belongs to its position.
    pub closed spec fn wf(&self) -> bool {
        (self.current, self.depth as nat) == state_at(self.emitted@)
    }

    /// The next pull would have to raise a bound that is already the largest
    /// the machine can hold.
    pub open spec fn exhausted(&self) -> bool {
        &&& bound_at(self.position()) >= usize::MAX
        &&& raw_shape(self.position()).carries(bound_at(self.position()))
    }

    /// A sequencer at the start of the sequence.
    pub fn new() -> (iter: TreeIterator)
        ensures
            iter.wf(),
            iter.position() == 0,
    {
        TreeIterator { current: Tree::default(), depth: 0, emitted: Ghost(0) }
    }

    /// The shape that the next pull emits.
    pub fn current(&self) -> (shape: &Tree)
        requires
            self.wf(),
        ensures
            *shape == raw_shape(self.position()),
    {
        &self.current
    }

    /// The bound under which the next pull emits its shape.
    pub fn depth(&self) -> (bound: usize)
        requires
            self.wf(),
        ensures
            bound == bound_at(self.position()),
    {
        self.depth
    }

    /// Emits the shape at the present position and moves on to the next.
    pub fn next(&mut self) -> (shape: Tree)
        requires
            old(self).wf(),
            !old(self).exhausted(),
        ensures
            final(self).wf(),
            final(self).position() == old(self).position() + 1,
            shape == raw_shape(old(self).position()),
            shape.well_formed(),
    {
        let out = self.current.clone();
        proof {
            lemma_raw_shape_well_formed(self.emitted@);
            lemma_well_formed_advances(self.current, self.depth as nat);
        }
        if self.current.inc(self.depth) {
            self.depth += 1;
            proof {
                lemma_well_formed_advances(self.current, self.depth as nat);
            }
            self.current.inc(self.depth);
        }
        proof {
            assert(state_at(self.emitted@ + 1) == pull(state_at(self.emitted@)));
            self.emitted = Ghost(self.emitted@ + 1);
        }
        out
    }
}

} // verus!
