//! Sets of cell coordinates, kept in a hash set that the verifier takes on
//! trust.

use crate::vec_2d::Index2d;
use bevy::utils::HashSet;
use vstd::prelude::*;

verus! {

/// A finite set of cell coordinates, kept in a `bevy::utils::HashSet`, which
/// is the hash set of `hashbrown` with a hasher of bevy's choice.
///
/// The hash set itself is hidden from the verifier; everything known of it
/// is stated by the contracts of the private functions below, in terms of
/// `cell_set_contents`. Nothing of them is proved.
#[verifier::external_body]
#[derive(Debug, PartialEq, Eq)]
pub struct CellSet {
    cells: HashSet<Index2d>,
}

/// The coordinates that a `CellSet` holds.
pub uninterp spec fn cell_set_contents(s: CellSet) -> Set<Index2d>;

impl View for CellSet {
    type V = Set<Index2d>;

    open spec fn view(&self) -> Set<Index2d> {
        cell_set_contents(*self)
    }
}

/// `HashSet::from` on a one-element array: the set that holds exactly that
/// coordinate.
#[verifier::external_body]
fn hash_set_from_cell(cell: Index2d) -> (s: CellSet)
    ensures
        cell_set_contents(s) == set![cell],
{
    CellSet { cells: HashSet::from([cell]) }
}

/// `HashSet::union`, collected into a new set: every coordinate of either
/// operand and no other.
#[verifier::external_body]
fn hash_set_union(a: &CellSet, b: &CellSet) -> (s: CellSet)
    ensures
        cell_set_contents(s) == cell_set_contents(*a).union(cell_set_contents(*b)),
{
    CellSet { cells: a.cells.union(&b.cells).copied().collect() }
}

/// `HashSet::contains`: whether the coordinate is in the set.
#[verifier::external_body]
fn hash_set_contains(s: &CellSet, cell: Index2d) -> (found: bool)
    ensures
        found == cell_set_contents(*s).contains(cell),
{
    s.cells.contains(&cell)
}

/// `HashSet::iter`, collected: each coordinate of the set exactly once, in
/// an order that the hash set chooses.
#[verifier::external_body]
fn hash_set_iter(s: &CellSet) -> (cells: Vec<Index2d>)
    ensures
        cells@.no_duplicates(),
        cells@.to_set() == cell_set_contents(*s),
{
    s.cells.iter().copied().collect()
}

/// `HashSet::clone`: a set with the same coordinates.
#[verifier::external_body]
fn hash_set_clone(s: &CellSet) -> (copy: CellSet)
    ensures
        cell_set_contents(copy) == cell_set_contents(*s),
{
    CellSet { cells: s.cells.clone() }
}

impl Clone for CellSet {
    /// A set that holds the same coordinates.
    fn clone(&self) -> (copy: Self)
        ensures
            copy@ == self@,
    {
        hash_set_clone(self)
    }
}

impl CellSet {
    /// The set that holds one coordinate.
    pub fn singleton(cell: Index2d) -> (s: CellSet)
        ensures
            s@ == set![cell],
    {
        hash_set_from_cell(cell)
    }

    /// The union of two sets.
    pub fn union(&self, other: &CellSet) -> (s: CellSet)
        ensures
            s@ == self@.union(other@),
    {
        hash_set_union(self, other)
    }

    /// Whether the set holds a coordinate.
    pub fn contains(&self, cell: Index2d) -> (found: bool)
        ensures
            found == self@.contains(cell),
    {
        hash_set_contains(self, cell)
    }

    /// The coordinates of the set, each once, in no particular order.
    pub fn to_vec(&self) -> (cells: Vec<Index2d>)
        ensures
            cells@.no_duplicates(),
            cells@.to_set() == self@,
    {
        hash_set_iter(self)
    }

    /// The number of coordinates in the set.
    pub fn len(&self) -> (n: usize)
        ensures
            self@.finite(),
            n == self@.len(),
    {
        let cells = hash_set_iter(self);
        proof {
            cells@.unique_seq_to_set();
        }
        cells.len()
    }
}

} // verus!
