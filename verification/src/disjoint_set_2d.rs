//! A union-find forest over the cells of a grid, and the regions of a
//! labelled grid that it finds.

use crate::cell_set::CellSet;
use crate::connectivity::{
    adjacent, chain_between, chain_step, connected, joined, lemma_connected_refl,
    lemma_connected_step, lemma_connected_sym, lemma_connected_trans,
};
use crate::vec_2d::{grid_cells, lemma_grid_cells_len, Index2d, Vec2d};
use vstd::prelude::*;

verus! {

/// One cell of the forest: a root that owns the members of its region, or a
/// child that names its parent.
#[derive(Debug, Eq, PartialEq)]
pub enum DisjoinSetEntry {
    Parent(CellSet),
    Child(Index2d),
}

/// A union-find forest over the cells of a grid.
#[derive(Debug)]
pub struct DisjointSet2d {
    group_count: usize,
    parents: Vec2d<DisjoinSetEntry>,
}

/// The representatives after the regions of `a` and `b` are united: the
/// cells that had the representative of `b` take that of `a`. Nothing
/// changes unless both cells have a representative.
pub open spec fn unite_roots(roots: Map<Index2d, Index2d>, a: Index2d, b: Index2d) -> Map<
    Index2d,
    Index2d,
> {
    if roots.dom().contains(a) && roots.dom().contains(b) {
        Map::new(
            |c: Index2d| roots.dom().contains(c),
            |c: Index2d|
                if roots[c] == roots[b] {
                    roots[a]
                } else {
                    roots[c]
                },
        )
    } else {
        roots
    }
}

/// The representatives after the scan has dealt with the cell `c`: it is
/// united with its right neighbour if the two are joined, and then with its
/// lower neighbour if those two are joined.
pub open spec fn scan_cell<T>(
    roots: Map<Index2d, Index2d>,
    labels: Map<Index2d, T>,
    c: Index2d,
) -> Map<Index2d, Index2d> {
    let right = DisjointSet2d::right_of(c);
    let down = DisjointSet2d::down_of(c);
    let first = if joined(labels, c, right) {
        unite_roots(roots, c, right)
    } else {
        roots
    };
    if joined(labels, c, down) {
        unite_roots(first, c, down)
    } else {
        first
    }
}

/// The representatives after the row-major scan has dealt with the rows
/// before `y` and with the first `n` cells of row `y`. At the start every
/// cell of the grid stands for itself.
pub open spec fn scan_roots_upto<T>(
    labels: Map<Index2d, T>,
    width: nat,
    height: nat,
    y: nat,
    n: nat,
) -> Map<Index2d, Index2d>
    decreases y, n,
{
    if n > 0 {
        scan_cell(
            scan_roots_upto(labels, width, height, y, (n - 1) as nat),
            labels,
            ((n - 1) as usize, y as usize),
        )
    } else if y > 0 {
        scan_roots_upto(labels, width, height, (y - 1) as nat, width)
    } else {
        Map::new(|c: Index2d| c.0 < width && c.1 < height, |c: Index2d| c)
    }
}

/// The representatives that the row-major scan of a labelled grid yields.
pub open spec fn scan_roots<T>(labels: Map<Index2d, T>, width: nat, height: nat) -> Map<
    Index2d,
    Index2d,
> {
    scan_roots_upto(labels, width, height, height, 0)
}

/// The scan looks at nothing but which neighbouring cells are joined: two
/// labellings that join the same neighbours yield the same representatives.
pub proof fn lemma_scan_roots_by_pattern<A, B>(
    first: Map<Index2d, A>,
    second: Map<Index2d, B>,
    width: nat,
    height: nat,
    y: nat,
    n: nat,
)
    requires
        forall|a: Index2d, b: Index2d| #[trigger] joined(first, a, b) == joined(second, a, b),
    ensures
        scan_roots_upto(first, width, height, y, n) == scan_roots_upto(second, width, height, y, n),
        y == height && n == 0 ==> scan_roots(first, width, height) == scan_roots(
            second,
            width,
            height,
        ),
    decreases y, n,
{
    if n > 0 {
        lemma_scan_roots_by_pattern(first, second, width, height, y, (n - 1) as nat);
        let c: Index2d = ((n - 1) as usize, y as usize);
        assert(joined(first, c, DisjointSet2d::right_of(c)) == joined(
            second,
            c,
            DisjointSet2d::right_of(c),
        ));
        assert(joined(first, c, DisjointSet2d::down_of(c)) == joined(
            second,
            c,
            DisjointSet2d::down_of(c),
        ));
    } else if y > 0 {
        lemma_scan_roots_by_pattern(first, second, width, height, (y - 1) as nat, width);
    }
}

/// Two grids of one size in which the same pairs of cells hold equal values
/// get the same representatives from the scan, whatever the values are.
pub proof fn lemma_scan_roots_of_like_grids<A, B>(first: Vec2d<A>, second: Vec2d<B>)
    requires
        first.wf(),
        second.wf(),
        first.width == second.width,
        first.height == second.height,
        forall|p: Index2d, q: Index2d|
            #![trigger first.at(p), first.at(q)]
            first.has(p) && first.has(q) ==> ((first.at(p) == first.at(q)) <==> (second.at(p)
                == second.at(q))),
    ensures
        scan_roots(first.cells(), first.width as nat, first.height as nat) == scan_roots(
            second.cells(),
            second.width as nat,
            second.height as nat,
        ),
{
    let one = first.cells();
    let two = second.cells();
    assert forall|a: Index2d, b: Index2d| #[trigger] joined(one, a, b) == joined(two, a, b) by {
        assert(one.dom().contains(a) == two.dom().contains(a)) by {
            if first.has(a) || second.has(a) {
                assert(first@[a.1 as int].len() == second@[a.1 as int].len());
            }
        }
        assert(one.dom().contains(b) == two.dom().contains(b)) by {
            if first.has(b) || second.has(b) {
                assert(first@[b.1 as int].len() == second@[b.1 as int].len());
            }
        }
        if one.dom().contains(a) && one.dom().contains(b) {
            assert((first.at(a) == first.at(b)) <==> (second.at(a) == second.at(b)));
        }
    }
    lemma_scan_roots_by_pattern(
        one,
        two,
        first.width as nat,
        first.height as nat,
        first.height as nat,
        0,
    );
}

impl DisjoinSetEntry {
    /// A root whose region is the one cell `c`.
    pub open spec fn is_singleton_root(&self, c: Index2d) -> bool {
        *self matches DisjoinSetEntry::Parent(members) && members@ == set![c]
    }

    /// The entry of a cell that is a region of its own.
    pub fn singleton_root(x: usize, y: usize) -> (entry: DisjoinSetEntry)
        ensures
            entry.is_singleton_root((x, y)),
    {
        DisjoinSetEntry::Parent(CellSet::singleton((x, y)))
    }
}

impl DisjointSet2d {
    /// The number of columns.
    pub closed spec fn width(&self) -> usize {
        self.parents.width
    }

    /// The number of rows.
    pub closed spec fn height(&self) -> usize {
        self.parents.height
    }

    /// The coordinate lies in the grid.
    pub open spec fn contains(&self, c: Index2d) -> bool {
        c.0 < self.width() && c.1 < self.height()
    }

    /// The entry of a cell of the grid.
    spec fn entry(&self, c: Index2d) -> Option<DisjoinSetEntry> {
        if self.contains(c) {
            Some(self.parents.at(c))
        } else {
            None
        }
    }

    /// The cell is the representative of a region.
    spec fn is_root(&self, c: Index2d) -> bool {
        self.entry(c) matches Some(DisjoinSetEntry::Parent(_))
    }

    /// Where one arrives from `c` after at most `steps` parent links.
    spec fn ancestor(&self, c: Index2d, steps: nat) -> Index2d
        decreases steps,
    {
        if steps == 0 {
            c
        } else {
            match self.entry(c) {
                Some(DisjoinSetEntry::Child(p)) => self.ancestor(p, (steps - 1) as nat),
                _ => c,
            }
        }
    }

    /// `steps` parent links lead from `c` to a root.
    spec fn reaches_root(&self, c: Index2d, steps: nat) -> bool {
        self.is_root(self.ancestor(c, steps))
    }

    /// Some number of parent links leads from `c` to a root.
    spec fn has_root(&self, c: Index2d) -> bool {
        exists|steps: nat| self.reaches_root(c, steps)
    }

    /// The representative of the region of `c`: the root at the end of its
    /// chain of parent links. A coordinate outside the grid stands for itself.
    pub closed spec fn root(&self, c: Index2d) -> Index2d {
        self.ancestor(c, choose|steps: nat| self.reaches_root(c, steps))
    }

    /// What a lookup of the representative yields.
    pub open spec fn find(&self, c: Index2d) -> Option<Index2d> {
        if self.contains(c) {
            Some(self.root(c))
        } else {
            None
        }
    }

    /// The cells whose representative is `r`.
    pub open spec fn region(&self, r: Index2d) -> Set<Index2d> {
        Set::new(|c: Index2d| self.contains(c) && self.root(c) == r)
    }

    /// The representatives of all regions: the cells that stand for
    /// themselves.
    pub open spec fn roots(&self) -> Set<Index2d> {
        Set::new(|c: Index2d| self.contains(c) && self.root(c) == c)
    }

    /// The number of regions.
    pub open spec fn region_count(&self) -> nat {
        self.roots().len()
    }

    /// The cells whose entry is a root.
    spec fn stored_roots(&self) -> Set<Index2d> {
        Set::new(|c: Index2d| self.contains(c) && self.is_root(c))
    }

    /// The member set that a cell stores, if the cell is a root.
    pub closed spec fn linked(&self, c: Index2d) -> Option<CellSet> {
        match self.entry(c) {
            Some(DisjoinSetEntry::Parent(members)) => Some(members),
            _ => None,
        }
    }

    /// What holds of one cell of a well-formed forest.
    spec fn cell_wf(&self, c: Index2d) -> bool {
        &&& self.has_root(c)
        &&& self.entry(c) matches Some(DisjoinSetEntry::Child(p)) ==> self.contains(p)
        &&& self.entry(c) matches Some(DisjoinSetEntry::Parent(members)) ==> members@ == self.region(
            c,
        )
    }

    /// The forest is well formed: parent links stay in the grid and end at a
    /// root, each root stores exactly the cells of its region, and the
    /// counter holds the number of roots. Every forest that a program holds
    /// is well formed.
    #[verifier::type_invariant]
    pub closed spec fn wf(&self) -> bool {
        &&& self.parents.wf()
        &&& forall|c: Index2d| self.contains(c) ==> #[trigger] self.cell_wf(c)
        &&& self.stored_roots().finite()
        &&& self.group_count == self.stored_roots().len()
    }

    /// Parent links never leave the grid.
    proof fn lemma_ancestor_contained(&self, c: Index2d, steps: nat)
        requires
            self.wf(),
            self.contains(c),
        ensures
            self.contains(self.ancestor(c, steps)),
        decreases steps,
    {
        if steps > 0 {
            assert(self.cell_wf(c));
            match self.entry(c) {
                Some(DisjoinSetEntry::Child(p)) => {
                    self.lemma_ancestor_contained(p, (steps - 1) as nat);
                },
                _ => {},
            }
        }
    }

    /// Once a root is reached, more steps lead nowhere else.
    proof fn lemma_ancestor_stable(&self, c: Index2d, steps: nat, more: nat)
        requires
            self.reaches_root(c, steps),
            steps <= more,
        ensures
            self.ancestor(c, more) == self.ancestor(c, steps),
        decreases steps,
    {
        if steps > 0 {
            match self.entry(c) {
                Some(DisjoinSetEntry::Child(p)) => {
                    self.lemma_ancestor_stable(p, (steps - 1) as nat, (more - 1) as nat);
                },
                _ => {},
            }
        }
    }

    /// Whatever number of steps reaches a root reaches the representative.
    proof fn lemma_root_by_steps(&self, c: Index2d, steps: nat)
        requires
            self.reaches_root(c, steps),
        ensures
            self.root(c) == self.ancestor(c, steps),
            self.is_root(self.root(c)),
    {
        let chosen = choose|k: nat| self.reaches_root(c, k);
        if chosen <= steps {
            self.lemma_ancestor_stable(c, chosen, steps);
        } else {
            self.lemma_ancestor_stable(c, steps, chosen);
        }
    }

    /// A child shares the representative of its parent.
    proof fn lemma_root_of_child(&self, c: Index2d, p: Index2d)
        requires
            self.wf(),
            self.contains(c),
            self.entry(c) == Some(DisjoinSetEntry::Child(p)),
        ensures
            self.contains(p),
            self.root(c) == self.root(p),
    {
        assert(self.cell_wf(c));
        let steps = choose|k: nat| self.reaches_root(c, k);
        assert(steps > 0);
        self.lemma_root_by_steps(c, steps);
        self.lemma_root_by_steps(p, (steps - 1) as nat);
    }

    /// The representative of a cell of the grid is a cell of the grid whose
    /// entry is a root.
    proof fn lemma_root_stored(&self, c: Index2d)
        requires
            self.wf(),
            self.contains(c),
        ensures
            self.contains(self.root(c)),
            self.is_root(self.root(c)),
    {
        assert(self.cell_wf(c));
        let steps = choose|k: nat| self.reaches_root(c, k);
        self.lemma_root_by_steps(c, steps);
        self.lemma_ancestor_contained(c, steps);
    }

    /// The representative of a cell of the grid lies in the grid, stands for
    /// itself, and has the cell in its region.
    pub proof fn lemma_root_is_root(&self, c: Index2d)
        requires
            self.wf(),
            self.contains(c),
        ensures
            self.contains(self.root(c)),
            self.root(self.root(c)) == self.root(c),
            self.region(self.root(c)).contains(c),
    {
        self.lemma_root_stored(c);
        self.lemma_root_of_root(self.root(c));
    }

    /// A root is its own representative.
    proof fn lemma_root_of_root(&self, r: Index2d)
        requires
            self.is_root(r),
        ensures
            self.root(r) == r,
    {
        assert(self.ancestor(r, 0) == r);
        assert(self.reaches_root(r, 0));
        self.lemma_root_by_steps(r, 0);
    }

    /// A cell of the grid is a root exactly if it is its own representative.
    proof fn lemma_root_iff_fixed(&self, c: Index2d)
        requires
            self.wf(),
            self.contains(c),
        ensures
            self.is_root(c) <==> self.root(c) == c,
    {
        if self.is_root(c) {
            self.lemma_root_of_root(c);
        }
        self.lemma_root_stored(c);
    }

    /// The cells whose entry is a root are the representatives.
    proof fn lemma_roots_stored(&self)
        requires
            self.wf(),
        ensures
            self.roots() == self.stored_roots(),
    {
        assert forall|c: Index2d| self.roots().contains(c) == self.stored_roots().contains(c) by {
            if self.contains(c) {
                self.lemma_root_iff_fixed(c);
            }
        }
        assert(self.roots() =~= self.stored_roots());
    }

    /// The member set stored at the representative of a cell holds that cell.
    pub proof fn lemma_linked_holds_cell(&self, c: Index2d)
        requires
            self.wf(),
            self.contains(c),
        ensures
            self.linked(self.root(c)) matches Some(members) && members@.contains(c),
    {
        self.lemma_root_is_root(c);
        assert(self.cell_wf(self.root(c)));
    }

    /// A stored member set is the region of the root that stores it.
    pub proof fn lemma_linked_is_region(&self, r: Index2d)
        requires
            self.wf(),
        ensures
            self.linked(r) is Some <==> self.contains(r) && self.root(r) == r,
            self.linked(r) matches Some(members) ==> members@ == self.region(r),
    {
        if self.contains(r) {
            self.lemma_root_iff_fixed(r);
            assert(self.cell_wf(r));
        }
    }

    /// `after` results from this forest by uniting the regions of `a` and
    /// `b`: the cells of the region of `b` take the representative of `a`,
    /// every other cell keeps its own, and one region fewer is left unless
    /// the two were one already.
    pub open spec fn united(&self, a: Index2d, b: Index2d, after: &DisjointSet2d) -> bool {
        &&& after.width() == self.width()
        &&& after.height() == self.height()
        &&& forall|c: Index2d|
            self.contains(c) ==> #[trigger] after.root(c) == (if self.root(c) == self.root(b) {
                self.root(a)
            } else {
                self.root(c)
            })
        &&& after.region_count() == self.region_count() - (if self.root(a) == self.root(b) {
            0int
        } else {
            1int
        })
    }

    /// Two cells of the grid share a representative exactly if a chain of
    /// neighbouring cells of one label connects them.
    pub open spec fn partitions<T>(&self, labels: Map<Index2d, T>) -> bool {
        forall|a: Index2d, b: Index2d|
            #![trigger self.root(a), self.root(b)]
            #![trigger connected(labels, a, b)]
            self.contains(a) && self.contains(b) ==> (self.root(a) == self.root(b) <==> connected(
                labels,
                a,
                b,
            ))
    }

    /// The forest before a merge of the root `rb` into the root `ra`, and the
    /// entries after it.
    spec fn merge_step(&self, after: &DisjointSet2d, ra: Index2d, rb: Index2d) -> bool {
        &&& self.wf()
        &&& self.is_root(ra)
        &&& self.is_root(rb)
        &&& ra != rb
        &&& after.parents.wf()
        &&& after.width() == self.width()
        &&& after.height() == self.height()
        &&& forall|c: Index2d|
            self.contains(c) && c != ra && c != rb ==> #[trigger] after.entry(c) == self.entry(c)
        &&& after.entry(rb) == Some(DisjoinSetEntry::Child(ra))
        &&& after.entry(ra) matches Some(DisjoinSetEntry::Parent(members)) && members@
            == self.region(ra).union(self.region(rb))
    }

    /// After a merge, a cell reaches its old root, or the surviving root in
    /// one step more.
    proof fn lemma_merge_reach(
        &self,
        after: &DisjointSet2d,
        ra: Index2d,
        rb: Index2d,
        c: Index2d,
        steps: nat,
    )
        requires
            self.merge_step(after, ra, rb),
            self.contains(c),
            self.reaches_root(c, steps),
        ensures
            self.ancestor(c, steps) == rb ==> after.ancestor(c, steps + 1) == ra,
            self.ancestor(c, steps) != rb ==> after.ancestor(c, steps) == self.ancestor(c, steps),
            after.is_root(ra),
            self.ancestor(c, steps) != rb ==> after.is_root(self.ancestor(c, steps)),
        decreases steps,
    {
        assert(after.ancestor(ra, steps) == ra);
        if c == rb {
            assert(self.ancestor(c, steps) == rb);
            assert(after.ancestor(c, steps + 1) == after.ancestor(ra, steps));
        } else if c == ra {
            assert(self.ancestor(c, steps) == ra);
        } else {
            assert(after.entry(c) == self.entry(c));
            assert(self.cell_wf(c));
            match self.entry(c) {
                Some(DisjoinSetEntry::Child(p)) => {
                    assert(steps > 0);
                    self.lemma_merge_reach(after, ra, rb, p, (steps - 1) as nat);
                    assert(self.ancestor(c, steps) == self.ancestor(p, (steps - 1) as nat));
                    assert(after.ancestor(c, steps) == after.ancestor(p, (steps - 1) as nat));
                    assert(after.ancestor(c, steps + 1) == after.ancestor(p, steps));
                },
                _ => {
                    assert(self.ancestor(c, steps) == c);
                    assert(after.ancestor(c, steps) == c);
                },
            }
        }
    }

    /// After a merge, the cells of the absorbed region have the surviving
    /// root, and every other cell keeps its root.
    proof fn lemma_merge_root(&self, after: &DisjointSet2d, ra: Index2d, rb: Index2d, c: Index2d)
        requires
            self.merge_step(after, ra, rb),
            self.contains(c),
        ensures
            after.has_root(c),
            after.root(c) == (if self.root(c) == rb {
                ra
            } else {
                self.root(c)
            }),
    {
        assert(self.cell_wf(c));
        let steps = choose|k: nat| self.reaches_root(c, k);
        self.lemma_root_by_steps(c, steps);
        self.lemma_merge_reach(after, ra, rb, c, steps);
        if self.root(c) == rb {
            assert(after.reaches_root(c, steps + 1));
            after.lemma_root_by_steps(c, steps + 1);
        } else {
            assert(after.reaches_root(c, steps));
            after.lemma_root_by_steps(c, steps);
        }
    }

    /// A merge leaves a well-formed forest with one root fewer.
    proof fn lemma_merge_wf(&self, after: &DisjointSet2d, ra: Index2d, rb: Index2d)
        requires
            self.merge_step(after, ra, rb),
            after.group_count == self.group_count - 1,
        ensures
            after.wf(),
            self.united(ra, rb, after),
    {
        self.lemma_root_of_root(ra);
        self.lemma_root_of_root(rb);
        assert forall|c: Index2d| self.contains(c) implies #[trigger] after.root(c) == (if self.root(
            c,
        ) == self.root(rb) {
            self.root(ra)
        } else {
            self.root(c)
        }) by {
            self.lemma_merge_root(after, ra, rb, c);
        }
        assert forall|c: Index2d| after.contains(c) implies #[trigger] after.cell_wf(c) by {
            self.lemma_merge_root(after, ra, rb, c);
            assert(self.cell_wf(c));
            if c == ra {
                assert(after.region(ra) =~= self.region(ra).union(self.region(rb)));
            } else if c == rb {
            } else {
                assert(after.entry(c) == self.entry(c));
                if self.is_root(c) {
                    self.lemma_root_of_root(c);
                    assert(after.region(c) =~= self.region(c));
                }
            }
        }
        assert(after.stored_roots() =~= self.stored_roots().remove(rb)) by {
            assert forall|c: Index2d|
                after.stored_roots().contains(c) == self.stored_roots().remove(rb).contains(c) by {
                if self.contains(c) && c != ra && c != rb {
                    assert(after.entry(c) == self.entry(c));
                }
            }
        }
        assert(self.stored_roots().contains(rb));
        assert(after.wf());
        self.lemma_roots_stored();
        after.lemma_roots_stored();
    }

    /// In a forest where every cell is a root, each cell is its own region.
    proof fn lemma_all_roots_wf(&self)
        requires
            self.parents.wf(),
            self.group_count == self.width() * self.height(),
            forall|c: Index2d|
                self.contains(c) ==> (#[trigger] self.entry(c) matches Some(entry)
                    && entry.is_singleton_root(c)),
        ensures
            self.wf(),
            forall|c: Index2d| self.contains(c) ==> #[trigger] self.root(c) == c,
    {
        assert forall|c: Index2d| self.contains(c) implies #[trigger] self.root(c) == c by {
            assert(self.entry(c) is Some);
            self.lemma_root_of_root(c);
        }
        assert forall|c: Index2d| self.contains(c) implies #[trigger] self.cell_wf(c) by {
            assert(self.entry(c) is Some);
            self.lemma_root_of_root(c);
            assert(self.reaches_root(c, 0));
            assert(self.region(c) =~= set![c]);
        }
        lemma_grid_cells_len(self.width() as nat, self.height() as nat);
        assert(self.stored_roots() =~= grid_cells(self.width() as nat, self.height() as nat)) by {
            assert forall|c: Index2d| self.stored_roots().contains(c) == grid_cells(
                self.width() as nat,
                self.height() as nat,
            ).contains(c) by {
                if self.contains(c) {
                    assert(self.entry(c) is Some);
                }
            }
        }
    }

    /// The cell to the right of `c`.
    pub open spec fn right_of(c: Index2d) -> Index2d {
        ((c.0 + 1) as usize, c.1)
    }

    /// The cell below `c`, one row further on.
    pub open spec fn down_of(c: Index2d) -> Index2d {
        (c.0, (c.1 + 1) as usize)
    }

    /// The representative of each cell of the grid.
    pub open spec fn root_map(&self) -> Map<Index2d, Index2d> {
        Map::new(|c: Index2d| self.contains(c), |c: Index2d| self.root(c))
    }

    /// Uniting two cells of the grid changes the representatives as
    /// `unite_roots` says.
    proof fn lemma_united_root_map(&self, after: &DisjointSet2d, a: Index2d, b: Index2d)
        requires
            self.contains(a),
            self.contains(b),
            self.united(a, b, after),
        ensures
            after.root_map() == unite_roots(self.root_map(), a, b),
    {
        assert(after.root_map() =~= unite_roots(self.root_map(), a, b));
    }

    /// Cells that share a representative are connected.
    spec fn sound<T>(&self, labels: Map<Index2d, T>) -> bool {
        forall|a: Index2d, b: Index2d|
            #![trigger self.root(a), self.root(b)]
            self.contains(a) && self.contains(b) && self.root(a) == self.root(b) ==> connected(
                labels,
                a,
                b,
            )
    }

    /// `c` shares its representative with its right and lower neighbours
    /// wherever it is joined to them.
    spec fn cell_done<T>(&self, labels: Map<Index2d, T>, c: Index2d) -> bool {
        &&& joined(labels, c, Self::right_of(c)) ==> self.root(c) == self.root(Self::right_of(c))
        &&& joined(labels, c, Self::down_of(c)) ==> self.root(c) == self.root(Self::down_of(c))
    }

    /// Every cell before column `x` of row `y`, in row-major order, is done.
    spec fn scanned<T>(&self, labels: Map<Index2d, T>, x: int, y: int) -> bool {
        forall|c: Index2d|
            self.contains(c) && (c.1 < y || (c.1 == y && c.0 < x)) ==> #[trigger] self.cell_done(
                labels,
                c,
            )
    }

    /// Uniting two joined cells keeps the forest sound, and keeps done what
    /// was done.
    proof fn lemma_link_joined<T>(
        &self,
        after: &DisjointSet2d,
        labels: Map<Index2d, T>,
        a: Index2d,
        b: Index2d,
        x: int,
        y: int,
    )
        requires
            self.wf(),
            self.contains(a),
            self.contains(b),
            self.united(a, b, after),
            joined(labels, a, b),
            self.sound(labels),
            self.scanned(labels, x, y),
            forall|c: Index2d| labels.dom().contains(c) ==> self.contains(c),
        ensures
            after.sound(labels),
            after.scanned(labels, x, y),
            after.root(a) == after.root(b),
            forall|c: Index2d| self.contains(c) && self.cell_done(labels, c) ==> after.cell_done(labels, c),
    {
        self.lemma_root_is_root(a);
        self.lemma_root_is_root(b);
        let ra = self.root(a);
        let rb = self.root(b);
        lemma_connected_step(labels, a, b);
        assert forall|c: Index2d, d: Index2d|
            after.contains(c) && after.contains(d) && after.root(c) == after.root(
                d,
            ) implies connected(labels, c, d) by {
            if (self.root(c) == rb) == (self.root(d) == rb) {
                assert(self.root(c) == self.root(d));
            } else if self.root(c) == rb {
                assert(self.root(d) == ra);
                assert(connected(labels, c, b));
                lemma_connected_sym(labels, a, b);
                assert(connected(labels, a, d));
                lemma_connected_trans(labels, c, b, a);
                lemma_connected_trans(labels, c, a, d);
            } else {
                assert(self.root(c) == ra);
                assert(connected(labels, c, a));
                assert(connected(labels, b, d));
                lemma_connected_trans(labels, c, a, b);
                lemma_connected_trans(labels, c, b, d);
            }
        }
        assert forall|c: Index2d| self.contains(c) && self.cell_done(labels, c) implies after.cell_done(
            labels,
            c,
        ) by {
            if joined(labels, c, Self::right_of(c)) {
                assert(self.contains(Self::right_of(c)));
            }
            if joined(labels, c, Self::down_of(c)) {
                assert(self.contains(Self::down_of(c)));
            }
        }
        assert forall|c: Index2d|
            after.contains(c) && (c.1 < y || (c.1 == y && c.0 < x)) implies #[trigger] after.cell_done(
            labels,
            c,
        ) by {
            assert(self.cell_done(labels, c));
        }
    }

    /// One step of the scan: the scanned cell `a` is united with its
    /// neighbour `b` if the two are joined, and nothing happens otherwise.
    /// The step keeps the forest sound, keeps done what was done, and changes
    /// the representatives as `unite_roots` says.
    proof fn lemma_scan_step<T>(
        &self,
        after: &DisjointSet2d,
        labels: Map<Index2d, T>,
        a: Index2d,
        b: Index2d,
        x: int,
        y: int,
    )
        requires
            self.wf(),
            self.contains(a),
            forall|c: Index2d| labels.dom().contains(c) ==> self.contains(c),
            self.sound(labels),
            self.scanned(labels, x, y),
            joined(labels, a, b) ==> self.united(a, b, after),
            !joined(labels, a, b) ==> *after == *self,
        ensures
            after.width() == self.width(),
            after.height() == self.height(),
            after.sound(labels),
            after.scanned(labels, x, y),
            joined(labels, a, b) ==> after.root(a) == after.root(b),
            forall|c: Index2d| self.contains(c) && self.cell_done(labels, c) ==> after.cell_done(labels, c),
            after.root_map() == (if joined(labels, a, b) {
                unite_roots(self.root_map(), a, b)
            } else {
                self.root_map()
            }),
    {
        if joined(labels, a, b) {
            assert(self.contains(b));
            self.lemma_link_joined(after, labels, a, b, x, y);
            self.lemma_united_root_map(after, a, b);
        }
    }

    /// In a fully scanned forest the cells of a chain share a representative.
    proof fn lemma_chain_same_root<T>(&self, labels: Map<Index2d, T>, path: Seq<Index2d>, i: int)
        requires
            self.wf(),
            forall|c: Index2d| labels.dom().contains(c) ==> self.contains(c),
            forall|c: Index2d| self.contains(c) ==> #[trigger] self.cell_done(labels, c),
            crate::connectivity::is_chain(labels, path),
            0 <= i < path.len(),
        ensures
            self.root(path[i]) == self.root(path[0]),
        decreases i,
    {
        if i > 0 {
            self.lemma_chain_same_root(labels, path, i - 1);
            assert(chain_step(labels, path, i - 1));
            let u = path[i - 1];
            let v = path[i];
            assert(joined(labels, u, v));
            assert(joined(labels, v, u));
            assert(self.cell_done(labels, u));
            assert(self.cell_done(labels, v));
            assert(adjacent(u, v));
            if u.1 == v.1 && u.0 + 1 == v.0 {
                assert(v == Self::right_of(u));
            } else if u.1 == v.1 {
                assert(u == Self::right_of(v));
            } else if u.1 + 1 == v.1 {
                assert(v == Self::down_of(u));
            } else {
                assert(u == Self::down_of(v));
            }
        }
    }

    /// A sound and fully scanned forest partitions the grid by connectivity.
    proof fn lemma_scanned_partitions<T>(&self, labels: Map<Index2d, T>)
        requires
            self.wf(),
            forall|c: Index2d| labels.dom().contains(c) ==> self.contains(c),
            self.sound(labels),
            self.scanned(labels, 0, self.height() as int),
        ensures
            self.partitions(labels),
    {
        assert forall|a: Index2d, b: Index2d|
            self.contains(a) && self.contains(b) && connected(labels, a, b) implies self.root(a)
            == self.root(b) by {
            let path = choose|path: Seq<Index2d>| #[trigger] chain_between(labels, path, a, b);
            self.lemma_chain_same_root(labels, path, path.len() - 1);
        }
    }

    /// `copy` has the entries of this forest, with member sets that hold
    /// the same cells.
    spec fn same_entries(&self, copy: &DisjointSet2d) -> bool {
        &&& copy.parents.wf()
        &&& copy.width() == self.width()
        &&& copy.height() == self.height()
        &&& copy.group_count == self.group_count
        &&& forall|c: Index2d|
            self.contains(c) ==> match (#[trigger] self.entry(c), copy.entry(c)) {
                (Some(DisjoinSetEntry::Parent(a)), Some(DisjoinSetEntry::Parent(b))) => a@ == b@,
                (Some(DisjoinSetEntry::Child(a)), Some(DisjoinSetEntry::Child(b))) => a == b,
                _ => false,
            }
    }

    /// Parent links lead to the same cells in a copy.
    proof fn lemma_copy_ancestor(&self, copy: &DisjointSet2d, c: Index2d, steps: nat)
        requires
            self.same_entries(copy),
        ensures
            copy.ancestor(c, steps) == self.ancestor(c, steps),
            copy.reaches_root(c, steps) == self.reaches_root(c, steps),
        decreases steps,
    {
        if self.contains(c) {
            assert(self.entry(c) is Some);
        }
        if steps > 0 {
            match self.entry(c) {
                Some(DisjoinSetEntry::Child(p)) => {
                    self.lemma_copy_ancestor(copy, p, (steps - 1) as nat);
                },
                _ => {},
            }
        }
        let end = self.ancestor(c, steps);
        if self.contains(end) {
            assert(self.entry(end) is Some);
        }
    }

    /// A copy is well formed and has the same representatives.
    proof fn lemma_copy_wf(&self, copy: &DisjointSet2d)
        requires
            self.wf(),
            self.same_entries(copy),
        ensures
            copy.wf(),
            forall|c: Index2d| #[trigger] copy.root(c) == self.root(c),
    {
        assert forall|c: Index2d| #[trigger] copy.root(c) == self.root(c) by {
            let steps = choose|k: nat| self.reaches_root(c, k);
            let other = choose|k: nat| copy.reaches_root(c, k);
            self.lemma_copy_ancestor(copy, c, steps);
            self.lemma_copy_ancestor(copy, c, other);
            if self.contains(c) {
                assert(self.cell_wf(c));
                self.lemma_root_by_steps(c, steps);
                copy.lemma_root_by_steps(c, steps);
            } else {
                assert(self.entry(c) is None);
                assert(copy.entry(c) is None);
                self.lemma_ancestor_outside(c, steps);
                copy.lemma_ancestor_outside(c, other);
            }
        }
        assert forall|c: Index2d| copy.contains(c) implies #[trigger] copy.cell_wf(c) by {
            assert(self.cell_wf(c));
            assert(self.entry(c) is Some);
            let steps = choose|k: nat| self.reaches_root(c, k);
            self.lemma_copy_ancestor(copy, c, steps);
            assert(copy.reaches_root(c, steps));
            assert(copy.region(c) =~= self.region(c));
        }
        assert(copy.stored_roots() =~= self.stored_roots()) by {
            assert forall|c: Index2d| copy.stored_roots().contains(c) == self.stored_roots().contains(
                c,
            ) by {
                if self.contains(c) {
                    assert(self.entry(c) is Some);
                }
            }
        }
    }

    /// A coordinate outside the grid has no parent links to follow.
    proof fn lemma_ancestor_outside(&self, c: Index2d, steps: nat)
        requires
            !self.contains(c),
        ensures
            self.ancestor(c, steps) == c,
    {
    }

    /// The forest of a grid without cells.
    fn empty() -> (set: DisjointSet2d)
        ensures
            set.width() == 0,
            set.height() == 0,
    {
        let parents: Vec2d<DisjoinSetEntry> = Vec2d::default();
        proof {
            let nothing = DisjointSet2d { group_count: 0, parents };
            assert(nothing.stored_roots() =~= Set::<Index2d>::empty());
        }
        DisjointSet2d { group_count: 0, parents }
    }

    /// Builds the regions of a labelled grid: every cell starts as a region
    /// of its own, and a row-major scan unites each cell with its right and
    /// its lower neighbour where the labels are equal. The representative
    /// of the scanned cell survives each union.
    pub fn from_vec_2d<T: Eq>(data: &Vec2d<T>) -> (set: DisjointSet2d)
        requires
            vstd::laws_eq::obeys_concrete_eq::<T>(),
            data.width * data.height <= usize::MAX,
        ensures
            set.wf(),
            set.width() == data.width,
            set.height() == data.height,
            set.partitions(data.cells()),
            set.root_map() == scan_roots(data.cells(), data.width as nat, data.height as nat),
    {
        let group_count = data.width * data.height;
        let parents = Vec2d::generate(data.width, data.height, DisjoinSetEntry::singleton_root);
        proof {
            let initial = DisjointSet2d { group_count, parents };
            assert forall|c: Index2d|
                initial.contains(c) implies (#[trigger] initial.entry(c) matches Some(entry)
                && entry.is_singleton_root(c)) by {
                assert(initial.entry(c) == Some(initial.parents.at((c.0, c.1))));
            }
            initial.lemma_all_roots_wf();
        }
        let mut disjoint_set = DisjointSet2d { group_count, parents };
        let ghost labels = data.cells();
        let ghost w = data.width as nat;
        let ghost h = data.height as nat;
        proof {
            reveal(vstd::laws_eq::obeys_concrete_eq);
            disjoint_set.lemma_all_roots_wf();
            assert forall|a: Index2d, b: Index2d|
                disjoint_set.contains(a) && disjoint_set.contains(b) && disjoint_set.root(a)
                    == disjoint_set.root(b) implies connected(labels, a, b) by {
                lemma_connected_refl(labels, a);
            }
            assert(disjoint_set.root_map() =~= scan_roots_upto(labels, w, h, 0, 0));
        }
        for y in 0..data.height
            invariant
                labels == data.cells(),
                vstd::laws_eq::obeys_concrete_eq::<T>(),
                disjoint_set.wf(),
                disjoint_set.width() == data.width,
                disjoint_set.height() == data.height,
                disjoint_set.sound(labels),
                disjoint_set.scanned(labels, 0, y as int),
                w == data.width,
                h == data.height,
                disjoint_set.root_map() == scan_roots_upto(labels, w, h, y as nat, 0),
        {
            for x in 0..data.width
                invariant
                    y < data.height,
                    labels == data.cells(),
                    vstd::laws_eq::obeys_concrete_eq::<T>(),
                    disjoint_set.wf(),
                    disjoint_set.width() == data.width,
                    disjoint_set.height() == data.height,
                    disjoint_set.sound(labels),
                    disjoint_set.scanned(labels, x as int, y as int),
                    w == data.width,
                    h == data.height,
                    disjoint_set.root_map() == scan_roots_upto(labels, w, h, y as nat, x as nat),
            {
                let ghost here: Index2d = (x, y);
                let ghost start = disjoint_set;
                if let Some(current_value) = data.get((x, y)) {
                    if let Some(right_value) = data.get((x + 1, y)) {
                        proof {
                            reveal(vstd::laws_eq::obeys_concrete_eq);
                        }
                        if *current_value == *right_value {
                            disjoint_set.link((x, y), (x + 1, y));
                        }
                    }
                    let ghost middle = disjoint_set;
                    proof {
                        start.lemma_scan_step(
                            &middle,
                            labels,
                            here,
                            Self::right_of(here),
                            x as int,
                            y as int,
                        );
                    }
                    if let Some(down_value) = data.get((x, y + 1)) {
                        proof {
                            reveal(vstd::laws_eq::obeys_concrete_eq);
                        }
                        if *current_value == *down_value {
                            disjoint_set.link((x, y), (x, y + 1));
                        }
                    }
                    proof {
                        middle.lemma_scan_step(
                            &disjoint_set,
                            labels,
                            here,
                            Self::down_of(here),
                            x as int,
                            y as int,
                        );
                        if joined(labels, here, Self::right_of(here)) {
                            assert(middle.contains(Self::right_of(here)));
                        }
                    }
                }
                assert(disjoint_set.cell_done(labels, here));
                assert(disjoint_set.root_map() == scan_cell(start.root_map(), labels, here));
            }
        }
        proof {
            disjoint_set.lemma_scanned_partitions(labels);
        }
        disjoint_set
    }

    /// Resolves the representative of a cell by following parent links.
    /// A coordinate outside the grid yields `None`.
    pub fn get_parent(&self, index: Index2d) -> (parent: Option<Index2d>)
        ensures
            parent == self.find(index),
            parent matches Some(root) ==> self.contains(root) && self.root(root) == root
                && self.region(root).contains(index),
    {
        let mut current_index = index;
        let ghost mut steps: nat = choose|k: nat| self.reaches_root(index, k);
        proof {
            use_type_invariant(self);
            if self.contains(index) {
                self.lemma_root_is_root(index);
                assert(self.cell_wf(index));
            }
        }
        loop
            invariant
                self.wf(),
                self.contains(index) == self.contains(current_index),
                self.contains(index) ==> self.reaches_root(current_index, steps),
                self.contains(index) ==> self.root(current_index) == self.root(index),
            decreases steps,
        {
            match self.parents.get(current_index) {
                None => {
                    return None;
                },
                Some(DisjoinSetEntry::Parent(_)) => {
                    proof {
                        self.lemma_root_of_root(current_index);
                    }
                    return Some(current_index);
                },
                Some(DisjoinSetEntry::Child(parent_index)) => {
                    proof {
                        self.lemma_root_of_child(current_index, *parent_index);
                        assert(steps > 0);
                        steps = (steps - 1) as nat;
                    }
                    current_index = *parent_index;
                },
            }
        }
    }

    /// The full member set of a region, asked for by its representative.
    /// Any other coordinate yields `None`.
    pub fn get_linked(&self, index: Index2d) -> (members: Option<&CellSet>)
        ensures
            match members {
                Some(set) => self.linked(index) == Some(*set) && set@ == self.region(index),
                None => self.linked(index) is None,
            },
            members is Some <==> self.contains(index) && self.root(index) == index,
    {
        proof {
            use_type_invariant(self);
            self.lemma_linked_is_region(index);
        }
        match self.parents.get(index) {
            Some(DisjoinSetEntry::Parent(set)) => Some(set),
            _ => None,
        }
    }

    /// Unites the regions of `a` and `b`; the representative of `a` survives.
    /// Nothing changes if either coordinate lies outside the grid or the two
    /// share a region already.
    pub fn link(&mut self, a: Index2d, b: Index2d)
        ensures
            final(self).wf(),
            old(self).contains(a) && old(self).contains(b) ==> old(self).united(a, b, final(self)),
            !(old(self).contains(a) && old(self).contains(b)) ==> *final(self) == *old(self),
            old(self).root(a) == old(self).root(b) ==> *final(self) == *old(self),
    {
        proof {
            use_type_invariant(&*self);
        }
        let a_parent_index = match self.get_parent(a) {
            Some(p) => p,
            None => {
                return ;
            },
        };
        let b_parent_index = match self.get_parent(b) {
            Some(p) => p,
            None => {
                return ;
            },
        };
        if a_parent_index.0 == b_parent_index.0 && a_parent_index.1 == b_parent_index.1 {
            return ;
        }
        proof {
            self.lemma_root_stored(a);
            self.lemma_root_stored(b);
            assert(self.cell_wf(a_parent_index));
            assert(self.cell_wf(b_parent_index));
        }
        let a_set = match self.parents.get(a_parent_index) {
            Some(DisjoinSetEntry::Parent(set)) => set,
            _ => {
                return ;
            },
        };
        let b_set = match self.parents.get(b_parent_index) {
            Some(DisjoinSetEntry::Parent(set)) => set,
            _ => {
                return ;
            },
        };
        let merged = a_set.union(b_set);

        // Between the two writes the forest is not well formed, so it is
        // taken apart, changed, and put together again.
        let mut taken = DisjointSet2d::empty();
        std::mem::swap(self, &mut taken);
        let DisjointSet2d { group_count, mut parents } = taken;
        parents.set(a_parent_index, DisjoinSetEntry::Parent(merged));
        parents.set(b_parent_index, DisjoinSetEntry::Child(a_parent_index));
        proof {
            assert(old(self).stored_roots().contains(b_parent_index));
            assert(old(self).stored_roots().remove(b_parent_index).len() >= 0);
            let after = DisjointSet2d { group_count: (group_count - 1) as usize, parents };
            assert forall|c: Index2d|
                old(self).contains(c) && c != a_parent_index && c != b_parent_index implies #[trigger] after.entry(
                c,
            ) == old(self).entry(c) by {
                assert(after.parents@[c.1 as int][c.0 as int] == old(self).parents@[c.1 as int][c.0 as int]);
            }
            old(self).lemma_merge_wf(&after, a_parent_index, b_parent_index);
        }
        *self = DisjointSet2d { group_count: group_count - 1, parents };
    }

    /// The number of regions.
    pub fn group_count(&self) -> (count: usize)
        ensures
            self.roots().finite(),
            count == self.region_count(),
    {
        proof {
            use_type_invariant(self);
            self.lemma_roots_stored();
        }
        self.group_count
    }
}

impl Clone for DisjoinSetEntry {
    /// An entry of the same kind: a root with the same members, or a child
    /// of the same parent.
    fn clone(&self) -> (copy: Self)
        ensures
            match (*self, copy) {
                (DisjoinSetEntry::Parent(a), DisjoinSetEntry::Parent(b)) => a@ == b@,
                (DisjoinSetEntry::Child(a), DisjoinSetEntry::Child(b)) => a == b,
                _ => false,
            },
    {
        match self {
            DisjoinSetEntry::Parent(members) => DisjoinSetEntry::Parent(members.clone()),
            DisjoinSetEntry::Child(parent) => DisjoinSetEntry::Child((parent.0, parent.1)),
        }
    }
}

impl Clone for DisjointSet2d {
    /// A forest with the same regions and the same representatives.
    fn clone(&self) -> (copy: Self)
        ensures
            copy.wf(),
            copy.width() == self.width(),
            copy.height() == self.height(),
            forall|c: Index2d| #[trigger] copy.root(c) == self.root(c),
    {
        let parents = self.parents.clone();
        proof {
            use_type_invariant(self);
            let copy = DisjointSet2d { group_count: self.group_count, parents };
            assert forall|c: Index2d| self.contains(c) implies match (
                #[trigger] self.entry(c),
                copy.entry(c),
            ) {
                (Some(DisjoinSetEntry::Parent(a)), Some(DisjoinSetEntry::Parent(b))) => a@ == b@,
                (Some(DisjoinSetEntry::Child(a)), Some(DisjoinSetEntry::Child(b))) => a == b,
                _ => false,
            } by {
                assert(cloned(self.parents.at(c), copy.parents.at(c)));
            }
            self.lemma_copy_wf(&copy);
        }
        DisjointSet2d { group_count: self.group_count, parents }
    }
}

} // verus!
