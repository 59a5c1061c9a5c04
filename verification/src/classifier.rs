//! The classifier: one representative of every isomorphism class that the
//! sequencer reaches, in order of first appearance.

use vstd::prelude::*;
use crate::tree::Tree;
use crate::table::{distinct, id_of, lemma_id_is_place, IdentityTable};
use crate::canonical::{
    lemma_canonical_height, lemma_canonical_idempotent, lemma_canonical_stable,
    lemma_canonical_well_formed,
};
use crate::isomorphism::{lemma_canonical_isomorphic, lemma_isomorphic_same_canonical};
use crate::advance::lemma_well_formed_advances;
use crate::orbit::{
    lemma_orbit_children, lemma_orbit_periodic, lemma_orbit_shape, lemma_orbit_zero, orbit,
    second_age, spine,
};
use crate::measure::{lemma_rank_bounded, lemma_step_raises_rank, rank, span};
use crate::sequencer::{
    bound_at, lemma_positions_ordered, lemma_raw_shape_in_orbit, pull, raw_shape, state_at,
    turn_at, TreeIterator,
};

verus! {

/// The table once the first `p` raw shapes have been classified: each raw
/// shape in turn is made canonical against the table as it then stands, and
/// its canonical form is appended unless the table holds it already.
pub open spec fn table_at(p: nat) -> Seq<Tree>
    decreases p,
{
    if p == 0 {
        Seq::empty()
    } else {
        let before = table_at((p - 1) as nat);
        let canon = raw_shape((p - 1) as nat).canonical(before);
        if before.contains(canon) {
            before
        } else {
            before.push(canon)
        }
    }
}

/// `table` can make `shape` canonical and holds its canonical form.
pub open spec fn covered(shape: Tree, table: Seq<Tree>) -> bool {
    shape.resolvable(table) && table.contains(shape.canonical(table))
}

/// `at` is the first position from `from` on whose raw shape is of a class
/// that `table` does not hold.
pub open spec fn first_new_class(table: Seq<Tree>, from: nat, at: nat) -> bool {
    &&& from <= at
    &&& !table.contains(raw_shape(at).canonical(table))
    &&& forall|j: nat|
        from <= j < at ==> table.contains(#[trigger] raw_shape(j).canonical(table))
}

/// The classifier: a sequencer and the table of the classes found so far.
pub struct UniqueTreeIterator {
    unique_map: IdentityTable,
    tree_iter: TreeIterator,
}

impl UniqueTreeIterator {
    /// The canonical shapes emitted so far, in order; the identifier of each
    /// is its place in this sequence.
    pub closed spec fn discovered(&self) -> Seq<Tree> {
        self.unique_map@
    }

    /// How many raw shapes the classifier has pulled from its sequencer.
    pub closed spec fn position(&self) -> nat {
        self.tree_iter.position()
    }

    /// The sequencer is in order, and the table is the one that belongs to
    /// its position.
    pub closed spec fn wf(&self) -> bool {
        &&& self.tree_iter.wf()
        &&& self.unique_map@ == table_at(self.tree_iter.position())
    }

    /// The emitted shapes are a function of the position alone.
    pub proof fn lemma_discovered_is_table(&self)
        requires
            self.wf(),
        ensures
            self.discovered() == table_at(self.position()),
    {
    }

    /// A classifier that has seen nothing yet.
    pub fn new() -> (iter: UniqueTreeIterator)
        ensures
            iter.wf(),
            iter.position() == 0,
            iter.discovered() == Seq::<Tree>::empty(),
    {
        UniqueTreeIterator { unique_map: IdentityTable::new(), tree_iter: TreeIterator::new() }
    }

    /// The table of the shapes emitted so far.
    pub fn unique_map(&self) -> (table: &IdentityTable)
        ensures
            table@ == self.discovered(),
            self.wf() ==> table.wf(),
    {
        proof {
            if self.wf() {
                lemma_table_classified(self.tree_iter.position());
            }
        }
        &self.unique_map
    }

    /// The sequencer that the classifier pulls from.
    pub fn tree_iter(&self) -> (iter: &TreeIterator)
        ensures
            iter.position() == self.position(),
            self.wf() ==> iter.wf(),
    {
        &self.tree_iter
    }

    /// Pulls raw shapes until one is of a class not seen before, records its
    /// canonical form under the next identifier, and returns that form.
    ///
    /// Every shape that is pulled can be made canonical: the table holds the
    /// classes of all its children by then. And the search ends: under each
    /// bound the sequencer emits finitely many shapes, and the first shape
    /// under a new bound is higher than every shape before it.
    pub fn next(&mut self) -> (shape: Tree)
        requires
            old(self).wf(),
        ensures
            final(self).wf(),
            final(self).position() > old(self).position(),
            first_new_class(
                old(self).discovered(),
                old(self).position(),
                (final(self).position() - 1) as nat,
            ),
            shape == raw_shape((final(self).position() - 1) as nat).canonical(
                old(self).discovered(),
            ),
            final(self).discovered() == old(self).discovered().push(shape),
            id_of(final(self).discovered(), shape) == old(self).discovered().len(),
            shape.well_formed(),
    {
        let ghost start = self.tree_iter.position();
        let ghost table = self.unique_map@;
        loop
            invariant
                self.wf(),
                start == old(self).position(),
                table == old(self).discovered(),
                self.unique_map@ == table,
                start <= self.tree_iter.position(),
                forall|j: nat|
                    start <= j < self.tree_iter.position() ==> table.contains(
                        #[trigger] raw_shape(j).canonical(table),
                    ),
            decreases patience(self.tree_iter.position()),
        {
            let ghost p = self.tree_iter.position();
            proof {
                lemma_table_classified(p);
                lemma_raw_shape_in_orbit(p);
                lemma_next_resolvable(table, bound_at(p), turn_at(p));
                self.unique_map.lemma_len_fits();
            }
            let raw = self.tree_iter.next();
            let canon = raw.unique_isomorphic(&self.unique_map);
            if self.unique_map.insert(canon.clone()) {
                proof {
                    lemma_id_is_place(self.unique_map@, table.len() as int);
                    lemma_canonical_well_formed(raw, table);
                }
                return canon;
            }
            proof {
                lemma_patience_runs_out(p);
            }
        }
    }
}

/// No shape stands twice in the table; every shape of the table is its own
/// canonical form; and the identifier of each is its place.
pub proof fn lemma_table_distinct(p: nat, i: int, j: int)
    requires
        0 <= i < table_at(p).len(),
        0 <= j < table_at(p).len(),
    ensures
        i != j ==> table_at(p)[i] != table_at(p)[j],
        table_at(p)[i].resolvable(table_at(p)),
        table_at(p)[i].canonical(table_at(p)) == table_at(p)[i],
        id_of(table_at(p), table_at(p)[i]) == i,
{
    lemma_table_classified(p);
    lemma_id_is_place(table_at(p), i);
}

/// The table only grows, and by one shape at a time.
pub proof fn lemma_table_grows(p: nat)
    ensures
        table_at(p + 1) == table_at(p) || table_at(p + 1) == table_at(p).push(
            raw_shape(p).canonical(table_at(p)),
        ),
{
}

/// The table covers every raw shape that has been classified.
pub proof fn lemma_table_covers(p: nat, q: nat)
    requires
        q < p,
    ensures
        covered(raw_shape(q), table_at(p)),
{
    lemma_table_classified(p);
    lemma_positions_ordered(q, p);
    lemma_raw_shape_in_orbit(q);
}

/// No two shapes of the table are isomorphic.
pub proof fn lemma_table_not_isomorphic(p: nat, i: int, j: int)
    requires
        0 <= i < table_at(p).len(),
        0 <= j < table_at(p).len(),
        table_at(p)[i].isomorphic(table_at(p)[j]),
    ensures
        i == j,
{
    let table = table_at(p);
    lemma_table_distinct(p, i, j);
    lemma_table_distinct(p, j, i);
    lemma_isomorphic_same_canonical(table[i], table[j], table);
}

/// Every raw shape that has been classified is isomorphic to a shape of the
/// table: to its canonical form, which stands at the place returned.
pub proof fn lemma_table_represents(p: nat, q: nat) -> (id: int)
    requires
        q < p,
    ensures
        0 <= id < table_at(p).len(),
        raw_shape(q).isomorphic(table_at(p)[id]),
        table_at(p)[id] == raw_shape(q).canonical(table_at(p)),
{
    let table = table_at(p);
    lemma_table_covers(p, q);
    lemma_canonical_isomorphic(raw_shape(q), table);
    let canon = raw_shape(q).canonical(table);
    choose|id: int| 0 <= id < table.len() && table[id] == canon
}

/// A shape that a table covers is covered by every table grown from it.
pub proof fn lemma_covered_grows(shape: Tree, table: Seq<Tree>, added: Tree)
    requires
        covered(shape, table),
    ensures
        covered(shape, table.push(added)),
{
    lemma_canonical_stable(shape, table, added);
    let canon = shape.canonical(table);
    let i = choose|i: int| 0 <= i < table.len() && table[i] == canon;
    assert(table.push(added)[i] == canon);
}

/// Every shape of `table` is its own canonical form.
spec fn all_canonical(table: Seq<Tree>) -> bool {
    forall|i: int|
        0 <= i < table.len() ==> {
            &&& (#[trigger] table[i]).resolvable(table)
            &&& table[i].canonical(table) == table[i]
        }
}

/// No shape of `table` is higher than `limit`.
spec fn heights_within(table: Seq<Tree>, limit: nat) -> bool {
    forall|i: int| 0 <= i < table.len() ==> (#[trigger] table[i]).height() <= limit
}

/// `table` covers the whole orbit of every bound below `bound`, and the
/// first `turn` shapes of the orbit of `bound`.
spec fn orbits_covered(table: Seq<Tree>, bound: nat, turn: nat) -> bool {
    forall|d: nat, m: nat|
        d < bound || (d == bound && m < turn) ==> covered(#[trigger] orbit(d, m), table)
}

/// What holds of the table when the sequencer is about to emit the shape at
/// turn `turn` of the orbit of `bound`.
spec fn classified(table: Seq<Tree>, bound: nat, turn: nat) -> bool {
    &&& distinct(table)
    &&& all_canonical(table)
    &&& orbits_covered(table, bound, turn)
    &&& heights_within(table, if turn == 0 { bound } else { bound + 1 })
    &&& table.len() >= (if turn == 0 { bound } else { bound + 1 })
}

/// The bound and the turn that follow turn `turn` of the orbit of `bound`.
spec fn following(bound: nat, turn: nat) -> (nat, nat) {
    if orbit(bound, turn).carries(bound) {
        (bound + 1, 0)
    } else {
        (bound, turn + 1)
    }
}

/// An upper limit of the number of further shapes that are pulled from
/// position `p` on before one is of a new class.
spec fn patience(p: nat) -> nat {
    if turn_at(p) == 0 {
        0
    } else {
        (1 + span(bound_at(p)) - rank(raw_shape(p), bound_at(p))) as nat
    }
}

/// Once a step has carried at turn `n`, every shape of the orbit is one of its
/// first `n + 1` shapes.
proof fn lemma_orbit_folds(bound: nat, n: nat, m: nat) -> (r: nat)
    requires
        orbit(bound, n).carries(bound),
    ensures
        r <= n,
        orbit(bound, m) == orbit(bound, r),
    decreases m,
{
    if m <= n {
        m
    } else {
        let k = (m - n - 1) as nat;
        lemma_orbit_periodic(bound, n, k);
        lemma_orbit_folds(bound, n, k)
    }
}

/// The children of the shape that comes next were covered at smaller bounds.
proof fn lemma_next_resolvable(table: Seq<Tree>, bound: nat, turn: nat)
    requires
        orbits_covered(table, bound, turn),
    ensures
        orbit(bound, turn).resolvable(table),
{
    if bound == 0 {
        lemma_orbit_zero(turn);
    } else {
        let below = (bound - 1) as nat;
        lemma_orbit_children(bound, turn);
        assert(covered(orbit(below, turn), table));
        match second_age(bound, turn) {
            None => {},
            Some(k) => {
                if k <= below {
                    assert(spine(k) == orbit(k, 0));
                    assert(covered(orbit(k, 0), table));
                } else {
                    assert(covered(orbit(below, (k - below) as nat), table));
                }
            },
        }
    }
}

/// Covering the next shape of the orbit covers the orbits up to what follows.
proof fn lemma_cover_next(table: Seq<Tree>, bound: nat, turn: nat)
    requires
        orbits_covered(table, bound, turn),
        covered(orbit(bound, turn), table),
    ensures
        orbits_covered(table, following(bound, turn).0, following(bound, turn).1),
{
    let (b2, t2) = following(bound, turn);
    assert forall|d: nat, m: nat| d < b2 || (d == b2 && m < t2) implies covered(
        #[trigger] orbit(d, m),
        table,
    ) by {
        if d == bound && orbit(bound, turn).carries(bound) {
            let r = lemma_orbit_folds(bound, turn, m);
            assert(covered(orbit(bound, r), table));
        }
    }
}

/// A table that grows covers what it covered.
proof fn lemma_cover_grows(table: Seq<Tree>, added: Tree, bound: nat, turn: nat)
    requires
        orbits_covered(table, bound, turn),
    ensures
        orbits_covered(table.push(added), bound, turn),
{
    let bigger = table.push(added);
    assert forall|d: nat, m: nat| d < bound || (d == bound && m < turn) implies covered(
        #[trigger] orbit(d, m),
        bigger,
    ) by {
        lemma_covered_grows(orbit(d, m), table, added);
    }
}

/// The first shape of each orbit is of a new class: nothing as high is in the table.
proof fn lemma_first_turn_is_new(table: Seq<Tree>, bound: nat, turn: nat)
    requires
        classified(table, bound, turn),
        table.contains(orbit(bound, turn).canonical(table)),
    ensures
        turn > 0,
{
    lemma_orbit_shape(bound, turn);
    lemma_canonical_height(orbit(bound, turn), table);
}

/// The table stays as it should when the shape that was pulled is of a known class.
proof fn lemma_known_class(table: Seq<Tree>, bound: nat, turn: nat)
    requires
        classified(table, bound, turn),
        table.contains(orbit(bound, turn).canonical(table)),
    ensures
        classified(table, following(bound, turn).0, following(bound, turn).1),
{
    lemma_first_turn_is_new(table, bound, turn);
    lemma_next_resolvable(table, bound, turn);
    lemma_cover_next(table, bound, turn);
}

/// The table stays as it should when it takes in the canonical form of a
/// shape of a new class.
proof fn lemma_new_class(table: Seq<Tree>, bound: nat, turn: nat)
    requires
        classified(table, bound, turn),
        !table.contains(orbit(bound, turn).canonical(table)),
    ensures
        classified(
            table.push(orbit(bound, turn).canonical(table)),
            following(bound, turn).0,
            following(bound, turn).1,
        ),
{
    let raw = orbit(bound, turn);
    let canon = raw.canonical(table);
    let bigger = table.push(canon);
    lemma_next_resolvable(table, bound, turn);
    lemma_canonical_idempotent(raw, table);
    lemma_canonical_stable(raw, table, canon);
    lemma_canonical_stable(canon, table, canon);
    assert(bigger[table.len() as int] == canon);
    assert(distinct(bigger));
    assert forall|i: int| 0 <= i < bigger.len() implies (#[trigger] bigger[i]).resolvable(bigger)
        && bigger[i].canonical(bigger) == bigger[i] by {
        if i < table.len() {
            assert(table[i].resolvable(table));
            lemma_canonical_stable(table[i], table, canon);
        }
    }
    lemma_cover_grows(table, canon, bound, turn);
    lemma_cover_next(bigger, bound, turn);
    lemma_orbit_shape(bound, turn);
    lemma_canonical_height(raw, table);
    assert forall|i: int| 0 <= i < bigger.len() implies (#[trigger] bigger[i]).height() <= bound
        + 1 by {
        if i < table.len() {
            assert(table[i].height() <= bound + 1);
        }
    }
}

/// The table of every position is as it should be for the bound and the turn
/// of that position.
proof fn lemma_table_classified(p: nat)
    ensures
        classified(table_at(p), bound_at(p), turn_at(p)),
    decreases p,
{
    if p > 0 {
        let q = (p - 1) as nat;
        lemma_table_classified(q);
        lemma_raw_shape_in_orbit(q);
        assert(state_at(p) == pull(state_at(q)));
        assert((bound_at(p), turn_at(p)) == following(bound_at(q), turn_at(q)));
        if table_at(q).contains(raw_shape(q).canonical(table_at(q))) {
            lemma_known_class(table_at(q), bound_at(q), turn_at(q));
        } else {
            lemma_new_class(table_at(q), bound_at(q), turn_at(q));
        }
    }
}

/// A shape of a known class leaves less patience behind it than there was.
proof fn lemma_patience_runs_out(p: nat)
    requires
        table_at(p).contains(raw_shape(p).canonical(table_at(p))),
    ensures
        patience(p + 1) < patience(p),
{
    let bound = bound_at(p);
    let raw = raw_shape(p);
    lemma_table_classified(p);
    lemma_raw_shape_in_orbit(p);
    lemma_first_turn_is_new(table_at(p), bound, turn_at(p));
    lemma_orbit_shape(bound, turn_at(p));
    lemma_well_formed_advances(raw, bound);
    lemma_rank_bounded(raw, bound);
    assert(state_at(p + 1) == pull(state_at(p)));
    if !raw.carries(bound) {
        lemma_step_raises_rank(raw, bound);
        lemma_rank_bounded(raw.successor(bound), bound);
    }
}

} // verus!
