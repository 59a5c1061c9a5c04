//! What the successor rule visits. At a fixed bound the rule runs in a circle:
//! it starts from a spine, and the step that carries leads back to that spine.
//! Every child of a visited shape was itself visited at a smaller bound.

use vstd::prelude::*;
use crate::tree::Tree;

verus! {

/// The path of `bound + 1` nodes, each the first child of the one above.
pub open spec fn spine(bound: nat) -> Tree
    decreases bound,
{
    if bound == 0 {
        Tree::leaf_shape()
    } else {
        Tree::unary(spine((bound - 1) as nat))
    }
}

/// The shape reached from the spine of `bound` by `n` steps at `bound`.
pub open spec fn orbit(bound: nat, n: nat) -> Tree
    decreases n,
{
    if n == 0 {
        spine(bound)
    } else {
        orbit(bound, (n - 1) as nat).successor(bound)
    }
}

/// The shape reached from a fresh leaf by `k` steps at `bound`: the leaf
/// grows into the spine of `bound` and goes round its orbit from there.
pub open spec fn grown(bound: nat, k: nat) -> Tree {
    if k <= bound {
        spine(k)
    } else {
        orbit(bound, (k - bound) as nat)
    }
}

/// How far the second child of `orbit(bound, n)` has grown, if there is one.
pub open spec fn second_age(bound: nat, n: nat) -> Option<nat>
    recommends
        bound > 0,
    decreases n,
{
    if n == 0 {
        None
    } else {
        let below = (bound - 1) as nat;
        let before = second_age(bound, (n - 1) as nat);
        if !orbit(below, (n - 1) as nat).carries(below) {
            before
        } else {
            match before {
                None => Some(0),
                Some(k) => if grown(below, k).carries(below) {
                    None
                } else {
                    Some(k + 1)
                },
            }
        }
    }
}

/// The second slot of `orbit(bound, n)`.
pub open spec fn second_slot(bound: nat, n: nat) -> Option<Box<Tree>>
    recommends
        bound > 0,
{
    match second_age(bound, n) {
        None => None,
        Some(k) => Some(Box::new(grown((bound - 1) as nat, k))),
    }
}

/// Below the bound a spine grows into the next spine, without a carry.
pub proof fn lemma_spine_grows(height: nat, bound: nat)
    requires
        height < bound,
    ensures
        spine(height).step(bound) == (spine(height + 1), false),
    decreases height,
{
    if height > 0 {
        lemma_spine_grows((height - 1) as nat, (bound - 1) as nat);
    }
}

/// At bound zero the orbit never leaves the leaf.
pub proof fn lemma_orbit_zero(n: nat)
    ensures
        orbit(0, n) == Tree::leaf_shape(),
    decreases n,
{
    if n > 0 {
        lemma_orbit_zero((n - 1) as nat);
    }
}

/// A grown shape steps to the next grown shape.
pub proof fn lemma_grown_step(bound: nat, k: nat)
    ensures
        grown(bound, k).successor(bound) == grown(bound, k + 1),
{
    if k < bound {
        lemma_spine_grows(k, bound);
    } else if k == bound {
        assert(orbit(bound, 1) == orbit(bound, 0).successor(bound));
    } else {
        assert(orbit(bound, (k + 1 - bound) as nat) == orbit(bound, (k - bound) as nat).successor(
            bound,
        ));
    }
}

/// The children of an orbit shape: the first goes round the orbit one bound
/// below, in step with its parent; the second, where there is one, is a shape
/// grown from a leaf one bound below.
pub proof fn lemma_orbit_children(bound: nat, n: nat)
    requires
        bound > 0,
    ensures
        orbit(bound, n) == (Tree {
            first: Some(Box::new(orbit((bound - 1) as nat, n))),
            second: second_slot(bound, n),
        }),
    decreases n,
{
    let below = (bound - 1) as nat;
    if n > 0 {
        let m = (n - 1) as nat;
        lemma_orbit_children(bound, m);
        assert(orbit(below, n) == orbit(below, m).successor(below));
        match second_age(bound, m) {
            None => {},
            Some(k) => {
                lemma_grown_step(below, k);
            },
        }
    }
}

/// The step that carries leads back to the spine.
pub proof fn lemma_carry_resets(bound: nat, n: nat)
    requires
        orbit(bound, n).carries(bound),
    ensures
        orbit(bound, n + 1) == spine(bound),
    decreases bound,
{
    if bound == 0 {
        lemma_orbit_zero(n + 1);
    } else {
        let below = (bound - 1) as nat;
        lemma_orbit_children(bound, n);
        assert(orbit(bound, n + 1) == orbit(bound, n).successor(bound));
        assert(orbit(below, n).carries(below));
        lemma_carry_resets(below, n);
        assert(orbit(below, n + 1) == orbit(below, n).successor(below));
    }
}

/// After a carry the orbit repeats itself.
pub proof fn lemma_orbit_periodic(bound: nat, n: nat, k: nat)
    requires
        orbit(bound, n).carries(bound),
    ensures
        orbit(bound, n + 1 + k) == orbit(bound, k),
    decreases k,
{
    if k == 0 {
        lemma_carry_resets(bound, n);
    } else {
        lemma_orbit_periodic(bound, n, (k - 1) as nat);
        assert(orbit(bound, n + 1 + k) == orbit(bound, (n + k) as nat).successor(bound));
    }
}

/// Spines are well formed and as high as their name says.
pub proof fn lemma_spine_shape(bound: nat)
    ensures
        spine(bound).well_formed(),
        spine(bound).height() == bound + 1,
    decreases bound,
{
    if bound > 0 {
        lemma_spine_shape((bound - 1) as nat);
    }
}

/// Every shape of an orbit is well formed and exactly one node higher than the bound.
pub proof fn lemma_orbit_shape(bound: nat, n: nat)
    ensures
        orbit(bound, n).well_formed(),
        orbit(bound, n).height() == bound + 1,
    decreases bound,
{
    if bound == 0 {
        lemma_orbit_zero(n);
    } else {
        let below = (bound - 1) as nat;
        lemma_orbit_children(bound, n);
        lemma_orbit_shape(below, n);
        match second_age(bound, n) {
            None => {},
            Some(k) => {
                if k <= below {
                    lemma_spine_shape(k);
                } else {
                    lemma_orbit_shape(below, (k - below) as nat);
                }
            },
        }
    }
}

} // verus!
