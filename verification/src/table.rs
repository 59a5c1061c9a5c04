//! The identity table: the canonical shapes found so far, in order of
//! discovery. The identifier of a shape is the place at which it stands.

use vstd::prelude::*;
use crate::tree::Tree;

verus! {

/// `id` is the first place at which `shape` stands in `shapes`.
pub open spec fn is_id_of(shapes: Seq<Tree>, shape: Tree, id: int) -> bool {
    &&& 0 <= id < shapes.len()
    &&& shapes[id] == shape
    &&& forall|j: int| 0 <= j < id ==> shapes[j] != shape
}

/// The identifier of `shape` among `shapes`; meaningful where `shapes` contains it.
pub open spec fn id_of(shapes: Seq<Tree>, shape: Tree) -> int {
    choose|id: int| is_id_of(shapes, shape, id)
}

/// No shape stands at two places.
pub open spec fn distinct(shapes: Seq<Tree>) -> bool {
    forall|i: int, j: int| 0 <= i < j < shapes.len() ==> shapes[i] != shapes[j]
}

/// A shape has at most one identifier.
pub proof fn lemma_id_unique(shapes: Seq<Tree>, shape: Tree, i: int, j: int)
    requires
        is_id_of(shapes, shape, i),
        is_id_of(shapes, shape, j),
    ensures
        i == j,
{
}

/// A shape that the table contains has an identifier, and `id_of` gives it.
pub proof fn lemma_id_of_contained(shapes: Seq<Tree>, shape: Tree)
    requires
        shapes.contains(shape),
    ensures
        is_id_of(shapes, shape, id_of(shapes, shape)),
{
    let k = choose|k: int| 0 <= k < shapes.len() && shapes[k] == shape;
    lemma_first_occurrence(shapes, shape, k);
}

proof fn lemma_first_occurrence(shapes: Seq<Tree>, shape: Tree, k: int)
    requires
        0 <= k < shapes.len(),
        shapes[k] == shape,
    ensures
        exists|id: int| is_id_of(shapes, shape, id),
    decreases k,
{
    if forall|j: int| 0 <= j < k ==> shapes[j] != shape {
        assert(is_id_of(shapes, shape, k));
    } else {
        let j = choose|j: int| 0 <= j < k && shapes[j] == shape;
        lemma_first_occurrence(shapes, shape, j);
    }
}

/// Where no shape stands twice, the identifier of a shape is its place.
pub proof fn lemma_id_is_place(shapes: Seq<Tree>, i: int)
    requires
        distinct(shapes),
        0 <= i < shapes.len(),
    ensures
        id_of(shapes, shapes[i]) == i,
{
    assert(is_id_of(shapes, shapes[i], i));
    lemma_id_of_contained(shapes, shapes[i]);
    lemma_id_unique(shapes, shapes[i], i, id_of(shapes, shapes[i]));
}

/// Appending a shape leaves every identifier that was already given as it was.
pub proof fn lemma_id_of_stable(shapes: Seq<Tree>, added: Tree, shape: Tree)
    requires
        shapes.contains(shape),
    ensures
        shapes.push(added).contains(shape),
        id_of(shapes.push(added), shape) == id_of(shapes, shape),
{
    lemma_id_of_contained(shapes, shape);
    let id = id_of(shapes, shape);
    let grown = shapes.push(added);
    assert(grown[id] == shape);
    assert(is_id_of(grown, shape, id));
    lemma_id_of_contained(grown, shape);
    lemma_id_unique(grown, shape, id, id_of(grown, shape));
}

/// The shapes discovered so far, each under the identifier it was given.
#[derive(Debug)]
pub struct IdentityTable {
    shapes: Vec<Tree>,
}

impl View for IdentityTable {
    type V = Seq<Tree>;

    closed spec fn view(&self) -> Seq<Tree> {
        self.shapes@
    }
}

impl IdentityTable {
    /// Identifiers are never shared: the table holds each shape once.
    pub open spec fn wf(&self) -> bool {
        distinct(self@)
    }

    /// The table fits in memory, so its length fits the machine word.
    pub proof fn lemma_len_fits(&self)
        ensures
            self@.len() <= usize::MAX,
    {
        assert(self.shapes.len() == self.shapes@.len());
    }

    /// The empty table.
    pub fn new() -> (table: IdentityTable)
        ensures
            table.wf(),
            table@ == Seq::<Tree>::empty(),
    {
        IdentityTable { shapes: Vec::new() }
    }

    /// How many shapes have an identifier; also the identifier that the next
    /// new shape receives.
    pub fn len(&self) -> (n: usize)
        ensures
            n == self@.len(),
    {
        self.shapes.len()
    }

    /// The shape that was given the identifier `id`.
    pub fn get(&self, id: usize) -> (shape: Option<&Tree>)
        ensures
            id < self@.len() ==> shape == Some(&self@[id as int]),
            id >= self@.len() ==> shape.is_none(),
    {
        if id < self.shapes.len() {
            Some(&self.shapes[id])
        } else {
            None
        }
    }

    /// Looks up the identifier of `shape`.
    pub fn id_of(&self, shape: &Tree) -> (id: Option<usize>)
        ensures
            match id {
                Some(i) => is_id_of(self@, *shape, i as int) && i as int == id_of(self@, *shape),
                None => !self@.contains(*shape),
            },
    {
        let mut i: usize = 0;
        while i < self.shapes.len()
            invariant
                i <= self.shapes@.len(),
                forall|j: int| 0 <= j < i ==> self.shapes@[j] != *shape,
            decreases self.shapes@.len() - i,
        {
            if self.shapes[i] == *shape {
                proof {
                    assert(self@.contains(*shape));
                    lemma_id_of_contained(self@, *shape);
                    lemma_id_unique(self@, *shape, i as int, id_of(self@, *shape));
                }
                return Some(i);
            }
            i += 1;
        }
        None
    }

    /// Gives `shape` the next identifier unless it has one already, and says
    /// whether it was new. An identifier once given never changes.
    pub fn insert(&mut self, shape: Tree) -> (novel: bool)
        requires
            old(self).wf(),
        ensures
            final(self).wf(),
            novel == !old(self)@.contains(shape),
            novel ==> final(self)@ == old(self)@.push(shape),
            !novel ==> final(self)@ == old(self)@,
    {
        match self.id_of(&shape) {
            Some(_) => false,
            None => {
                self.shapes.push(shape);
                true
            },
        }
    }
}

} // verus!
