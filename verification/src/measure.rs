//! Why the successor rule cannot go on for ever at one bound: every step that
//! does not carry raises the rank of the shape, and ranks are bounded.

use vstd::prelude::*;
use crate::tree::Tree;

verus! {

/// A strict upper limit of the ranks at `bound`.
pub open spec fn span(bound: nat) -> nat
    decreases bound,
{
    if bound == 0 {
        1
    } else {
        let width = span((bound - 1) as nat) + 1;
        width * width
    }
}

/// The rank of a shape at `bound`: its two slots read as the digits of a
/// number, the second slot being the more significant. An empty slot is the
/// digit zero; an occupied one is the rank of its shape one bound below, plus one.
pub open spec fn rank(shape: Tree, bound: nat) -> nat
    decreases bound,
{
    if bound == 0 {
        0
    } else {
        let below = (bound - 1) as nat;
        let low: nat = match shape.first {
            None => 0,
            Some(a) => 1 + rank(*a, below),
        };
        let high: nat = match shape.second {
            None => 0,
            Some(b) => 1 + rank(*b, below),
        };
        high * (span(below) + 1) + low
    }
}

proof fn lemma_two_digits_bounded(high: nat, low: nat, width: nat)
    requires
        high < width,
        low < width,
    ensures
        high * width + low < width * width,
{
    assert(high * width + low < width * width) by (nonlinear_arith)
        requires
            high < width,
            low < width,
    ;
}

proof fn lemma_high_digit_decides(high: nat, low: nat, higher: nat, other: nat, width: nat)
    requires
        high < higher,
        low < width,
    ensures
        high * width + low < higher * width + other,
{
    assert(high * width + low < higher * width + other) by (nonlinear_arith)
        requires
            high < higher,
            low < width,
    ;
}

/// Ranks stay below the span of their bound.
pub proof fn lemma_rank_bounded(shape: Tree, bound: nat)
    ensures
        rank(shape, bound) < span(bound),
    decreases bound,
{
    if bound > 0 {
        let below = (bound - 1) as nat;
        let width = span(below) + 1;
        let low: nat = match shape.first {
            None => 0,
            Some(a) => {
                lemma_rank_bounded(*a, below);
                1 + rank(*a, below)
            },
        };
        let high: nat = match shape.second {
            None => 0,
            Some(b) => {
                lemma_rank_bounded(*b, below);
                1 + rank(*b, below)
            },
        };
        lemma_two_digits_bounded(high, low, width);
    }
}

/// A step that does not carry raises the rank.
pub proof fn lemma_step_raises_rank(shape: Tree, bound: nat)
    requires
        shape.can_advance(bound),
        !shape.carries(bound),
    ensures
        rank(shape, bound) < rank(shape.successor(bound), bound),
    decreases bound,
{
    let below = (bound - 1) as nat;
    let width = span(below) + 1;
    let next = shape.successor(bound);
    match (shape.first, shape.second) {
        (Some(a), None) => {
            lemma_rank_bounded(*a, below);
            if a.carries(below) {
                lemma_high_digit_decides(
                    0,
                    1 + rank(*a, below),
                    1 + rank(Tree::leaf_shape(), below),
                    1 + rank(a.successor(below), below),
                    width,
                );
            } else {
                lemma_step_raises_rank(*a, below);
            }
        },
        (Some(a), Some(b)) => {
            lemma_rank_bounded(*a, below);
            if a.carries(below) {
                lemma_step_raises_rank(*b, below);
                lemma_high_digit_decides(
                    1 + rank(*b, below),
                    1 + rank(*a, below),
                    1 + rank(b.successor(below), below),
                    1 + rank(a.successor(below), below),
                    width,
                );
            } else {
                lemma_step_raises_rank(*a, below);
            }
        },
        _ => {},
    }
}

} // verus!
