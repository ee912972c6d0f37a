//! The board as a mathematical value: its regions, its paint marks and its
//! handles, what a fill does to them, and the laws that follow.

use crate::art_board::{Pixel, PixelEdgeDirection, RenderUpdate, SpawnRequest};
use crate::connectivity::{
    adjacent, connected, joined, lemma_connected_alike, lemma_connected_step,
};
use crate::raster::Rgb;
use crate::vec_2d::{grid_cells, Index2d};
use bevy::prelude::Entity;
use vstd::prelude::*;

verus! {

/// One slot of the border-line table: a cell and one of its sides.
pub type EdgeKey = (Index2d, PixelEdgeDirection);

/// The board as a mathematical value.
pub struct BoardView {
    /// The number of columns.
    pub width: nat,
    /// The number of rows.
    pub height: nat,
    /// The palette id of each cell.
    pub ids: Map<Index2d, u32>,
    /// The colour of each palette id.
    pub palette: Seq<Rgb>,
    /// The representative of the region of each cell.
    pub roots: Map<Index2d, Index2d>,
    /// The cells whose sprite has been filled.
    pub colored: Set<Index2d>,
    /// The sprite handle of each cell that has one.
    pub pixel_entities: Map<Index2d, Entity>,
    /// The border-line handle of each side of a cell that has one.
    pub edge_entities: Map<EdgeKey, Entity>,
}

impl BoardView {
    /// The coordinate lies on the board.
    pub open spec fn contains(self, c: Index2d) -> bool {
        c.0 < self.width && c.1 < self.height
    }

    /// The cell lies on the board and the renderer's sprite for it is
    /// recorded.
    pub open spec fn has_sprite(self, c: Index2d) -> bool {
        self.contains(c) && self.pixel_entities.contains_key(c)
    }

    /// The cells of the region that `root` stands for.
    pub open spec fn region(self, root: Index2d) -> Set<Index2d> {
        Set::new(|c: Index2d| self.contains(c) && self.roots[c] == root)
    }

    /// The neighbour of `c` on the side `dir` lies on the board and in
    /// another region.
    pub open spec fn has_boundary(self, c: Index2d, dir: PixelEdgeDirection) -> bool {
        &&& self.contains(c)
        &&& dir.spec_offset_index(c) matches Some(n) && self.contains(n) && self.roots[c]
            != self.roots[n]
    }

    /// The regions are the maximal sets of connected cells of one palette id.
    pub open spec fn regions_wf(self) -> bool {
        &&& self.ids.dom() == grid_cells(self.width, self.height)
        &&& self.roots.dom() == grid_cells(self.width, self.height)
        &&& forall|a: Index2d, b: Index2d|
            #![trigger self.roots[a], self.roots[b]]
            #![trigger connected(self.ids, a, b)]
            self.contains(a) && self.contains(b) ==> (self.roots[a] == self.roots[b] <==> connected(
                self.ids,
                a,
                b,
            ))
        &&& forall|c: Index2d|
            self.contains(c) ==> self.contains(#[trigger] self.roots[c]) && self.roots[self.roots[c]]
                == self.roots[c]
    }

    /// The board is consistent: regions follow the palette ids, every id has
    /// its colour, sprite handles belong to cells of the board, paint marks
    /// to cells with a sprite, and border lines to sides where two regions
    /// meet.
    pub open spec fn wf(self) -> bool {
        &&& self.regions_wf()
        &&& self.palette.no_duplicates()
        &&& forall|c: Index2d| self.contains(c) ==> #[trigger] self.ids[c] < self.palette.len()
        &&& forall|c: Index2d| #[trigger] self.colored.contains(c) ==> self.has_sprite(c)
        &&& forall|c: Index2d| #[trigger] self.pixel_entities.contains_key(c) ==> self.contains(c)
        &&& forall|c: Index2d, dir: PixelEdgeDirection| #[trigger]
            self.edge_entities.contains_key((c, dir)) ==> self.has_boundary(c, dir)
    }

    /// The colour that a cell shows once it is filled; `None` while it still
    /// shows its pale preview.
    pub open spec fn displayed(self, c: Index2d) -> Option<Rgb> {
        if self.colored.contains(c) {
            Some(self.palette[self.ids[c] as int])
        } else {
            None
        }
    }

    /// A border line is to be created on this side of the cell: two regions
    /// meet there and no handle is recorded yet.
    pub open spec fn edge_wanted(self, c: Index2d, dir: PixelEdgeDirection) -> bool {
        self.has_boundary(c, dir) && !self.edge_entities.contains_key((c, dir))
    }

    /// The wanted border lines among the first `n` sides of a cell, in the
    /// order up, right, down, left.
    pub open spec fn wanted_edges(self, c: Index2d, n: nat) -> Seq<PixelEdgeDirection>
        decreases n,
    {
        if n == 0 {
            Seq::empty()
        } else {
            let earlier = self.wanted_edges(c, (n - 1) as nat);
            let dir = PixelEdgeDirection::spec_from_index(n - 1);
            if self.edge_wanted(c, dir) {
                earlier.push(dir)
            } else {
                earlier
            }
        }
    }

    /// The request for the sprite of a cell: a new sprite starts unfilled.
    pub open spec fn pixel_request(self, c: Index2d) -> SpawnRequest {
        SpawnRequest::Pixel {
            pos: c,
            pixel: Pixel { id: self.ids[c], colored: false },
            color: self.palette[self.ids[c] as int],
        }
    }

    /// What is to be created for one cell: its sprite, then its wanted
    /// border lines.
    pub open spec fn cell_requests(self, c: Index2d) -> Seq<SpawnRequest> {
        seq![self.pixel_request(c)] + self.wanted_edges(c, 4).map_values(
            |dir: PixelEdgeDirection| SpawnRequest::Edge { pos: c, dir },
        )
    }

    /// What is to be created for the first `n` cells of row `y`.
    pub open spec fn row_requests(self, y: nat, n: nat) -> Seq<SpawnRequest>
        decreases n,
    {
        if n == 0 {
            Seq::empty()
        } else {
            self.row_requests(y, (n - 1) as nat) + self.cell_requests(((n - 1) as usize, y as usize))
        }
    }

    /// What is to be created for the first `n` rows, row by row.
    pub open spec fn spawn_requests(self, n: nat) -> Seq<SpawnRequest>
        decreases n,
    {
        if n == 0 {
            Seq::empty()
        } else {
            self.spawn_requests((n - 1) as nat) + self.row_requests((n - 1) as nat, self.width)
        }
    }

    /// The board with the sprite handle of a cell recorded.
    pub open spec fn with_pixel_entity(self, c: Index2d, entity: Entity) -> BoardView {
        if self.contains(c) {
            BoardView { pixel_entities: self.pixel_entities.insert(c, entity), ..self }
        } else {
            self
        }
    }

    /// The board with a border-line handle recorded, where one is wanted.
    pub open spec fn with_edge_entity(
        self,
        c: Index2d,
        dir: PixelEdgeDirection,
        entity: Entity,
    ) -> BoardView {
        if self.edge_wanted(c, dir) {
            BoardView { edge_entities: self.edge_entities.insert((c, dir), entity), ..self }
        } else {
            self
        }
    }

    /// The slots of the border lines of the given cells.
    pub open spec fn edge_keys(cells: Set<Index2d>) -> Set<EdgeKey> {
        Set::new(|k: EdgeKey| cells.contains(k.0))
    }

    /// The board with a cell marked as filled. A cell without a recorded
    /// sprite is passed over.
    pub open spec fn color_cell(self, c: Index2d) -> BoardView {
        if self.has_sprite(c) {
            BoardView { colored: self.colored.insert(c), ..self }
        } else {
            self
        }
    }

    /// The board without the border-line handles of a cell.
    pub open spec fn clear_edges(self, c: Index2d) -> BoardView {
        BoardView { edge_entities: self.edge_entities.remove_keys(Self::edge_keys(set![c])), ..self }
    }

    /// The board after one cell has been filled: it is marked if it has
    /// a sprite, and its border-line handles are gone either way.
    pub open spec fn fill_cell(self, c: Index2d) -> BoardView {
        self.color_cell(c).clear_edges(c)
    }

    /// The board after the cells of a sequence have been filled in turn.
    pub open spec fn fill_cells(self, cells: Seq<Index2d>) -> BoardView
        decreases cells.len(),
    {
        if cells.len() == 0 {
            self
        } else {
            self.fill_cells(cells.drop_last()).fill_cell(cells.last())
        }
    }

    /// The board after the cells of a set have been filled: those with a
    /// recorded sprite are marked, and the border-line handles of all of
    /// them are gone.
    pub open spec fn fill_all(self, cells: Set<Index2d>) -> BoardView {
        BoardView {
            colored: self.colored.union(
                Set::new(|c: Index2d| cells.contains(c) && self.has_sprite(c)),
            ),
            edge_entities: self.edge_entities.remove_keys(Self::edge_keys(cells)),
            ..self
        }
    }

    /// The region whose member set is stored at `parent`: that of `parent`
    /// if it stands for itself, and no cell otherwise.
    pub open spec fn linked_region(self, parent: Index2d) -> Set<Index2d> {
        if self.contains(parent) && self.roots[parent] == parent {
            self.region(parent)
        } else {
            Set::empty()
        }
    }

    /// The region of the cell at signed coordinates; no cell where the
    /// coordinates lie off the board.
    pub open spec fn region_at(self, x: int, y: int) -> Set<Index2d> {
        if 0 <= x < self.width && 0 <= y < self.height {
            self.region(self.roots[(x as usize, y as usize)])
        } else {
            Set::empty()
        }
    }

    /// The board after a fill at a cell given by signed coordinates: the
    /// region of that cell is filled; a coordinate off the board changes
    /// nothing.
    pub open spec fn fill_at(self, x: int, y: int) -> BoardView {
        self.fill_all(self.region_at(x, y))
    }

    /// The change of colour that the renderer is told of when a cell is
    /// filled: none where the cell has no sprite handle.
    pub open spec fn paint_update(self, c: Index2d) -> Option<RenderUpdate> {
        if self.has_sprite(c) {
            Some(
                RenderUpdate::Paint {
                    entity: self.pixel_entities[c],
                    pixel: Pixel { id: self.ids[c], colored: true },
                    color: self.palette[self.ids[c] as int],
                },
            )
        } else {
            None
        }
    }

    /// The border-line handles among the first `n` sides of a cell, in the
    /// order up, right, down, left.
    pub open spec fn edge_handles(self, c: Index2d, n: nat) -> Seq<Entity>
        decreases n,
    {
        if n == 0 {
            Seq::empty()
        } else {
            let earlier = self.edge_handles(c, (n - 1) as nat);
            let key = (c, PixelEdgeDirection::spec_from_index(n - 1));
            if self.edge_entities.contains_key(key) {
                earlier.push(self.edge_entities[key])
            } else {
                earlier
            }
        }
    }

    /// What the renderer is told when one cell is filled: the colour of its
    /// sprite, then the removal of each of its border lines.
    pub open spec fn cell_updates(self, c: Index2d) -> Seq<RenderUpdate> {
        (match self.paint_update(c) {
            Some(update) => seq![update],
            None => Seq::empty(),
        }) + self.edge_handles(c, 4).map_values(|entity: Entity| RenderUpdate::Despawn { entity })
    }

    /// What the renderer is told when the cells of a sequence are filled in
    /// turn.
    pub open spec fn fill_updates(self, cells: Seq<Index2d>) -> Seq<RenderUpdate>
        decreases cells.len(),
    {
        if cells.len() == 0 {
            Seq::empty()
        } else {
            self.fill_updates(cells.drop_last()) + self.fill_cells(cells.drop_last()).cell_updates(
                cells.last(),
            )
        }
    }

    /// The updates are those of filling the given cells one by one, each
    /// once, in some order.
    pub open spec fn fills(self, cells: Set<Index2d>, updates: Seq<RenderUpdate>) -> bool {
        exists|order: Seq<Index2d>|
            order.no_duplicates() && order.to_set() == cells && updates == #[trigger] self.fill_updates(
                order,
            )
    }

    /// Marking a cell leaves its border-line handles where they are.
    pub proof fn lemma_color_keeps_handles(self, c: Index2d)
        ensures
            self.color_cell(c).edge_handles(c, 4) == self.edge_handles(c, 4),
            self.color_cell(c).edge_entities == self.edge_entities,
    {
        reveal_with_fuel(BoardView::edge_handles, 5);
    }

    /// Filling the cells of a sequence in turn, in whatever order and however
    /// often each occurs, fills the set of those cells.
    pub proof fn lemma_fill_cells_is_fill_all(self, cells: Seq<Index2d>)
        ensures
            self.fill_cells(cells) == self.fill_all(cells.to_set()),
        decreases cells.len(),
    {
        let all = self.fill_all(cells.to_set());
        if cells.len() == 0 {
            assert(all.colored =~= self.colored);
            assert(all.edge_entities =~= self.edge_entities);
        } else {
            let before = self.fill_cells(cells.drop_last());
            let last = cells.last();
            self.lemma_fill_cells_is_fill_all(cells.drop_last());
            assert forall|c: Index2d| cells.to_set().contains(c) <==> (cells.drop_last().to_set().contains(
                c,
            ) || c == last) by {
                if cells.to_set().contains(c) {
                    let i = choose|i: int| 0 <= i < cells.len() && cells[i] == c;
                    if i < cells.len() - 1 {
                        assert(cells.drop_last()[i] == c);
                    }
                }
                if cells.drop_last().to_set().contains(c) {
                    let i = choose|i: int| 0 <= i < cells.len() - 1 && cells.drop_last()[i] == c;
                    assert(cells[i] == c);
                }
                if c == last {
                    assert(cells[cells.len() - 1] == c);
                }
            }
            let after = before.fill_cell(last);
            assert(after.colored =~= all.colored);
            assert(after.edge_entities =~= all.edge_entities);
        }
    }

    /// The cells of one region share a palette id.
    pub proof fn lemma_region_shares_id(self, a: Index2d, b: Index2d)
        requires
            self.wf(),
            self.contains(a),
            self.contains(b),
            self.roots[a] == self.roots[b],
        ensures
            self.ids[a] == self.ids[b],
    {
        assert(connected(self.ids, a, b));
        lemma_connected_alike(self.ids, a, b);
    }

    /// Neighbouring cells lie in one region exactly if they share a palette
    /// id.
    pub proof fn lemma_neighbors_same_region(self, a: Index2d, b: Index2d)
        requires
            self.wf(),
            self.contains(a),
            self.contains(b),
            adjacent(a, b),
        ensures
            self.roots[a] == self.roots[b] <==> self.ids[a] == self.ids[b],
    {
        if self.roots[a] == self.roots[b] {
            self.lemma_region_shares_id(a, b);
        }
        if self.ids[a] == self.ids[b] {
            assert(joined(self.ids, a, b));
            lemma_connected_step(self.ids, a, b);
        }
    }

    /// A border line separates two neighbouring cells of the board that
    /// differ in palette id: none lies between two cells of one region.
    pub proof fn lemma_boundary_between_ids(self, c: Index2d, dir: PixelEdgeDirection)
        requires
            self.wf(),
            self.edge_entities.contains_key((c, dir)),
        ensures
            self.contains(c),
            dir.spec_offset_index(c) matches Some(n) && self.contains(n) && adjacent(c, n)
                && self.roots[c] != self.roots[n] && self.ids[c] != self.ids[n],
    {
        assert(self.has_boundary(c, dir));
        let n = dir.spec_offset_index(c).unwrap();
        self.lemma_neighbors_same_region(c, n);
    }

    /// A fill at a cell marks every cell of the region of that cell whose
    /// sprite is recorded, each with the one colour of the region's palette
    /// id, and leaves the mark and the colour of every other cell as they
    /// were: of the cells outside the region, and of those without a sprite.
    pub proof fn lemma_fill_marks_region(self, x: int, y: int, c: Index2d)
        requires
            self.wf(),
            0 <= x < self.width,
            0 <= y < self.height,
            self.contains(c),
        ensures
            ({
                let member = (x as usize, y as usize);
                let after = self.fill_at(x, y);
                let reached = self.roots[c] == self.roots[member] && self.has_sprite(c);
                &&& reached ==> after.displayed(c) == Some(self.palette[self.ids[member] as int])
                &&& !reached ==> after.displayed(c) == self.displayed(c)
            }),
    {
        let member = (x as usize, y as usize);
        if self.roots[c] == self.roots[member] {
            self.lemma_region_shares_id(c, member);
            assert(self.region(self.roots[member]).contains(c));
        }
    }

    /// Filling the same cells a second time changes nothing.
    pub proof fn lemma_fill_all_idempotent(self, cells: Set<Index2d>)
        ensures
            self.fill_all(cells).fill_all(cells) == self.fill_all(cells),
    {
        let once = self.fill_all(cells);
        let twice = once.fill_all(cells);
        assert(twice.colored =~= once.colored);
        assert(twice.edge_entities =~= once.edge_entities);
    }

    /// A fill leaves the regions as they are.
    pub proof fn lemma_fill_keeps_regions(self, cells: Set<Index2d>)
        ensures
            forall|root: Index2d| #[trigger] self.fill_all(cells).region(root) == self.region(root),
            forall|parent: Index2d| #[trigger]
                self.fill_all(cells).linked_region(parent) == self.linked_region(parent),
            forall|x: int, y: int| #[trigger]
                self.fill_all(cells).region_at(x, y) == self.region_at(x, y),
    {
        let after = self.fill_all(cells);
        assert forall|root: Index2d| #[trigger] after.region(root) == self.region(root) by {
            assert(after.region(root) =~= self.region(root));
        }
    }

    /// A fill only adds marks and only removes border lines; everything else
    /// stays as it is.
    pub proof fn lemma_fill_monotone(self, cells: Set<Index2d>)
        ensures
            self.colored.subset_of(self.fill_all(cells).colored),
            self.fill_all(cells).edge_entities.submap_of(self.edge_entities),
            self.fill_all(cells) == (BoardView {
                colored: self.fill_all(cells).colored,
                edge_entities: self.fill_all(cells).edge_entities,
                ..self
            }),
    {
    }

    /// Filling no cell changes nothing.
    pub proof fn lemma_fill_none(self)
        ensures
            self.fill_all(Set::empty()) == self,
    {
        let after = self.fill_all(Set::empty());
        assert(after.colored =~= self.colored);
        assert(after.edge_entities =~= self.edge_entities);
    }

    /// A second fill at the same place changes nothing: the paint marks and
    /// the border lines are those left by the first.
    pub proof fn lemma_fill_at_idempotent(self, x: int, y: int)
        ensures
            self.fill_at(x, y).fill_at(x, y) == self.fill_at(x, y),
    {
        self.lemma_fill_keeps_regions(self.region_at(x, y));
        self.lemma_fill_all_idempotent(self.region_at(x, y));
    }
}

} // verus!
