//! The board: built from a picture, it says what the renderer is to draw,
//! keeps the handles of what was drawn, and fills a region at a time.

use crate::board_view::{BoardView, EdgeKey};
use crate::disjoint_set_2d::{scan_roots, DisjointSet2d};
use crate::raster::{
    first_seen, lemma_cell_index, lemma_distinct_colors_bound, lemma_first_seen_distinct,
    lemma_first_seen_step, pack_rgb, Raster, Rgb,
};
use crate::vec_2d::{grid_cells, Index2d, Vec2d};
use bevy::prelude::Entity;
use std::collections::HashMap;
use vstd::prelude::*;

verus! {

/// `bevy::prelude::Entity`: the handle of something the renderer draws. The
/// board stores such handles and hands them back; it never looks inside.
#[verifier::external_type_specification]
#[verifier::external_body]
pub struct ExEntity(Entity);

/// The paint state of the sprite of one cell: its palette id, and whether
/// it has been filled.
#[derive(Debug, Clone, Copy, PartialEq, Eq)]
pub struct Pixel {
    pub id: u32,
    pub colored: bool,
}

/// One of the four sides of a cell.
#[derive(Debug, Clone, Copy, Eq, PartialEq)]
pub enum PixelEdgeDirection {
    Up,
    Right,
    Down,
    Left,
}

/// The handles of the border lines of one cell, by side.
pub type PixelEdgeEntities = [Option<Entity>; 4];

impl PixelEdgeDirection {
    /// The place of a side in the order up, right, down, left.
    pub open spec fn spec_index(self) -> int {
        match self {
            PixelEdgeDirection::Up => 0,
            PixelEdgeDirection::Right => 1,
            PixelEdgeDirection::Down => 2,
            PixelEdgeDirection::Left => 3,
        }
    }

    /// The side at a place in the order up, right, down, left.
    pub open spec fn spec_from_index(i: int) -> PixelEdgeDirection {
        if i == 0 {
            PixelEdgeDirection::Up
        } else if i == 1 {
            PixelEdgeDirection::Right
        } else if i == 2 {
            PixelEdgeDirection::Down
        } else {
            PixelEdgeDirection::Left
        }
    }

    /// The coordinate one step away on this side, where the machine can
    /// name it.
    pub open spec fn spec_offset_index(self, index: Index2d) -> Option<Index2d> {
        match self {
            PixelEdgeDirection::Up => if index.1 < usize::MAX {
                Some((index.0, (index.1 + 1) as usize))
            } else {
                None
            },
            PixelEdgeDirection::Right => if index.0 < usize::MAX {
                Some(((index.0 + 1) as usize, index.1))
            } else {
                None
            },
            PixelEdgeDirection::Down => if index.1 > 0 {
                Some((index.0, (index.1 - 1) as usize))
            } else {
                None
            },
            PixelEdgeDirection::Left => if index.0 > 0 {
                Some(((index.0 - 1) as usize, index.1))
            } else {
                None
            },
        }
    }

    /// The place of a side in the order up, right, down, left.
    pub fn index(self) -> (i: usize)
        ensures
            i == self.spec_index(),
    {
        match self {
            PixelEdgeDirection::Up => 0,
            PixelEdgeDirection::Right => 1,
            PixelEdgeDirection::Down => 2,
            PixelEdgeDirection::Left => 3,
        }
    }

    /// The side at a place in the order up, right, down, left; `None` for
    /// a place beyond the fourth.
    pub fn from_index(i: usize) -> (dir: Option<PixelEdgeDirection>)
        ensures
            dir == (if i < 4 {
                Some(Self::spec_from_index(i as int))
            } else {
                None
            }),
            dir matches Some(d) ==> d.spec_index() == i,
    {
        if i == 0 {
            Some(PixelEdgeDirection::Up)
        } else if i == 1 {
            Some(PixelEdgeDirection::Right)
        } else if i == 2 {
            Some(PixelEdgeDirection::Down)
        } else if i == 3 {
            Some(PixelEdgeDirection::Left)
        } else {
            None
        }
    }

    /// The coordinate of the neighbour on this side: one row up or down, or
    /// one column right or left. `None` where that coordinate would be
    /// negative or beyond what the machine can name.
    pub fn offset_index(&self, index: Index2d) -> (neighbor: Option<Index2d>)
        ensures
            neighbor == self.spec_offset_index(index),
    {
        match self {
            PixelEdgeDirection::Up => if index.1 < usize::MAX {
                Some((index.0, index.1 + 1))
            } else {
                None
            },
            PixelEdgeDirection::Right => if index.0 < usize::MAX {
                Some((index.0 + 1, index.1))
            } else {
                None
            },
            PixelEdgeDirection::Down => if index.1 > 0 {
                Some((index.0, index.1 - 1))
            } else {
                None
            },
            PixelEdgeDirection::Left => if index.0 > 0 {
                Some((index.0 - 1, index.1))
            } else {
                None
            },
        }
    }
}

/// Something the renderer is asked to create.
#[derive(Debug, Clone, Copy, PartialEq, Eq)]
pub enum SpawnRequest {
    /// The sprite of a cell, with its unfilled paint state and the true
    /// colour that a fill will show.
    Pixel { pos: Index2d, pixel: Pixel, color: Rgb },
    /// The border line on one side of a cell.
    Edge { pos: Index2d, dir: PixelEdgeDirection },
}

/// Something the renderer is asked to change.
#[derive(Debug, Clone, Copy, PartialEq, Eq)]
pub enum RenderUpdate {
    /// Show the sprite behind the handle in a colour, with a new paint state.
    Paint { entity: Entity, pixel: Pixel, color: Rgb },
    /// Remove what is behind the handle.
    Despawn { entity: Entity },
}

/// The items of a vector in the opposite order.
fn reversed<T>(items: Vec<T>) -> (turned: Vec<T>)
    ensures
        turned@ == items@.reverse(),
{
    let mut items = items;
    let mut turned: Vec<T> = Vec::new();
    let ghost all = items@;
    while items.len() > 0
        invariant
            items@.len() + turned@.len() == all.len(),
            forall|i: int| 0 <= i < items@.len() ==> items@[i] == all[i],
            forall|i: int| 0 <= i < turned@.len() ==> turned@[i] == all[all.len() - 1 - i],
        decreases items@.len(),
    {
        let item = items.pop().unwrap();
        turned.push(item);
    }
    assert(turned@ =~= all.reverse());
    turned
}

/// The cells of a grid of marks that are marked.
spec fn colored_of(grid: Vec2d<bool>) -> Set<Index2d> {
    Set::new(|c: Index2d| grid.cells().contains_key(c) && grid.at(c))
}

/// The handles of a grid of optional handles, by cell.
spec fn pixel_entities_of(grid: Vec2d<Option<Entity>>) -> Map<Index2d, Entity> {
    Map::new(
        |c: Index2d| grid.cells().contains_key(c) && grid.at(c) is Some,
        |c: Index2d| grid.at(c).unwrap(),
    )
}

/// The handles of a grid of border-line slots, by cell and side.
spec fn edge_entities_of(grid: Vec2d<PixelEdgeEntities>) -> Map<EdgeKey, Entity> {
    Map::new(
        |k: EdgeKey| grid.cells().contains_key(k.0) && grid.at(k.0)[k.1.spec_index()] is Some,
        |k: EdgeKey| grid.at(k.0)[k.1.spec_index()].unwrap(),
    )
}

/// The colours of a palette table, by id.
spec fn palette_of(colors: Map<u32, Rgb>) -> Seq<Rgb> {
    Seq::new(colors.len(), |id: int| colors[id as u32])
}

/// The representative of each cell of a forest.
spec fn roots_of(set: DisjointSet2d) -> Map<Index2d, Index2d> {
    set.root_map()
}

/// The tables of a scan agree with the colours seen so far: `inverse`
/// gives each seen colour, packed, its place in `seen`, and `colors` gives
/// each place its colour.
spec fn palette_state(inverse: Map<u32, u32>, colors: Map<u32, Rgb>, seen: Seq<Rgb>) -> bool {
    &&& seen.no_duplicates()
    &&& inverse.dom().finite()
    &&& inverse.len() == seen.len()
    &&& colors.dom().finite()
    &&& colors.len() == seen.len()
    &&& forall|k: u32| #[trigger]
        inverse.contains_key(k) ==> inverse[k] < seen.len() && pack_rgb(seen[inverse[k] as int]) == k
    &&& forall|i: int|
        0 <= i < seen.len() ==> inverse.contains_key(#[trigger] pack_rgb(seen[i])) && inverse[pack_rgb(
            seen[i],
        )] == i
    &&& forall|id: u32| #[trigger] colors.contains_key(id) <==> id < seen.len()
    &&& forall|i: int| 0 <= i < seen.len() ==> colors[i as u32] == #[trigger] seen[i]
}

/// A colour whose packed form is in the table was seen, at the place the
/// table gives.
proof fn lemma_palette_known(
    inverse: Map<u32, u32>,
    colors: Map<u32, Rgb>,
    seen: Seq<Rgb>,
    color: Rgb,
)
    requires
        palette_state(inverse, colors, seen),
        inverse.contains_key(pack_rgb(color)),
    ensures
        inverse[pack_rgb(color)] < seen.len(),
        seen[inverse[pack_rgb(color)] as int] == color,
        seen.contains(color),
{
    let id = inverse[pack_rgb(color)];
    assert(pack_rgb(seen[id as int]) == pack_rgb(color));
}

/// A colour whose packed form is not in the table is new; entering it at
/// the next place keeps the tables in agreement.
proof fn lemma_palette_new(
    inverse: Map<u32, u32>,
    colors: Map<u32, Rgb>,
    seen: Seq<Rgb>,
    color: Rgb,
)
    requires
        palette_state(inverse, colors, seen),
        !inverse.contains_key(pack_rgb(color)),
    ensures
        !seen.contains(color),
        seen.len() < 0x100_0000,
        palette_state(
            inverse.insert(pack_rgb(color), seen.len() as u32),
            colors.insert(seen.len() as u32, color),
            seen.push(color),
        ),
{
    if seen.contains(color) {
        let i = choose|i: int| 0 <= i < seen.len() && seen[i] == color;
        assert(inverse.contains_key(pack_rgb(seen[i])));
    }
    let grown = seen.push(color);
    assert(grown.no_duplicates());
    lemma_distinct_colors_bound(grown);
    let id = seen.len() as u32;
    let inverse2 = inverse.insert(pack_rgb(color), id);
    let colors2 = colors.insert(id, color);
    assert(!colors.contains_key(id));
    assert forall|i: int| 0 <= i < grown.len() implies inverse2.contains_key(
        #[trigger] pack_rgb(grown[i]),
    ) && inverse2[pack_rgb(grown[i])] == i by {
        if i < seen.len() {
            assert(inverse.contains_key(pack_rgb(seen[i])));
        }
    }
    assert forall|k: u32| #[trigger] inverse2.contains_key(k) implies inverse2[k] < grown.len()
        && pack_rgb(grown[inverse2[k] as int]) == k by {
        if k != pack_rgb(color) {
            assert(inverse.contains_key(k));
        }
    }
    assert forall|i: int| 0 <= i < grown.len() implies colors2[i as u32] == #[trigger] grown[i] by {
        if i < seen.len() {
            assert(colors[i as u32] == seen[i]);
        }
    }
}

/// A board of cells to be coloured in: the palette id of each cell, the
/// regions of equal ids, the paint state, and the handles of what the
/// renderer has drawn.
#[derive(Debug)]
pub struct ArtBoard {
    width: u32,
    height: u32,
    pixel_ids: Vec2d<u32>,
    pixel_disjoint_set: DisjointSet2d,
    pixel_colored: Vec2d<bool>,
    pixel_entities: Vec2d<Option<Entity>>,
    pixel_edge_entities: Vec2d<PixelEdgeEntities>,
    color_id_map: HashMap<u32, Rgb>,
}

impl Clone for ArtBoard {
    /// A board in the same state.
    fn clone(&self) -> (copy: Self)
        ensures
            copy.wf(),
            copy@ == self@,
    {
        let pixel_ids = self.pixel_ids.copied();
        let pixel_disjoint_set = self.pixel_disjoint_set.clone();
        let pixel_colored = self.pixel_colored.copied();
        let pixel_entities = self.pixel_entities.copied();
        let pixel_edge_entities = self.pixel_edge_entities.copied();
        let color_id_map = self.color_id_map.clone();
        proof {
            use_type_invariant(self);
            let copy = ArtBoard {
                width: self.width,
                height: self.height,
                pixel_ids,
                pixel_disjoint_set,
                pixel_colored,
                pixel_entities,
                pixel_edge_entities,
                color_id_map,
            };
            assert(copy@.ids =~= self@.ids);
            assert(copy@.roots =~= self@.roots);
            assert(copy@.colored =~= self@.colored);
            assert(copy@.pixel_entities =~= self@.pixel_entities);
            assert(copy@.edge_entities =~= self@.edge_entities);
            assert(copy@ == self@);
            assert(copy.wf());
        }
        ArtBoard {
            width: self.width,
            height: self.height,
            pixel_ids,
            pixel_disjoint_set,
            pixel_colored,
            pixel_entities,
            pixel_edge_entities,
            color_id_map,
        }
    }
}

impl View for ArtBoard {
    type V = BoardView;

    closed spec fn view(&self) -> BoardView {
        BoardView {
            width: self.width as nat,
            height: self.height as nat,
            ids: self.pixel_ids.cells(),
            palette: palette_of(self.color_id_map@),
            roots: roots_of(self.pixel_disjoint_set),
            colored: colored_of(self.pixel_colored),
            pixel_entities: pixel_entities_of(self.pixel_entities),
            edge_entities: edge_entities_of(self.pixel_edge_entities),
        }
    }
}

impl ArtBoard {
    /// A grid of the board has the size of the board.
    spec fn grid_fits<T>(&self, grid: Vec2d<T>) -> bool {
        grid.wf() && grid.width == self.width && grid.height == self.height
    }

    /// The tables of the board have its size, the regions are those of the
    /// palette ids, and the board is consistent as a mathematical value.
    /// Every board that a program holds is well formed.
    #[verifier::type_invariant]
    pub closed spec fn wf(&self) -> bool {
        &&& self.grid_fits(self.pixel_ids)
        &&& self.grid_fits(self.pixel_colored)
        &&& self.grid_fits(self.pixel_entities)
        &&& self.grid_fits(self.pixel_edge_entities)
        &&& self.pixel_disjoint_set.wf()
        &&& self.pixel_disjoint_set.width() == self.width
        &&& self.pixel_disjoint_set.height() == self.height
        &&& forall|id: u32| #[trigger]
            self.color_id_map@.contains_key(id) <==> id < self.color_id_map@.len()
        &&& self@.wf()
    }

    /// The rows hold, for each pixel of the picture in storage order, the
    /// place of its colour among the colours first seen, and the table
    /// gives each place its colour.
    spec fn scan_result(image: &Raster, rows: Seq<Vec<u32>>, colors: Map<u32, Rgb>) -> bool {
        let seen = first_seen(image@);
        &&& rows.len() == image.spec_height()
        &&& forall|r: int| 0 <= r < rows.len() ==> (#[trigger] rows[r])@.len() == image.spec_width()
        &&& forall|r: int, c: int|
            0 <= r < image.spec_height() && 0 <= c < image.spec_width() ==> (#[trigger] rows[r]@[c])
                < seen.len() && seen[rows[r]@[c] as int] == image.pixel(c, r)
        &&& colors.dom().finite()
        &&& colors.len() == seen.len()
        &&& forall|id: u32| #[trigger] colors.contains_key(id) <==> id < seen.len()
        &&& forall|i: int| 0 <= i < seen.len() ==> colors[i as u32] == #[trigger] seen[i]
    }

    /// Numbers the colours of a picture in the order in which a scan of its
    /// storage first meets them.
    fn color_ids(image: &Raster) -> (scan: (Vec<Vec<u32>>, HashMap<u32, Rgb>))
        ensures
            Self::scan_result(image, scan.0@, scan.1@),
    {
        broadcast use vstd::std_specs::hash::group_hash_axioms;

        let width = image.width();
        let height = image.height();
        let pixels = image.pixels();
        let stored = pixels.len();
        let mut inverse_color_id_map: HashMap<u32, u32> = HashMap::new();
        let mut color_id_map: HashMap<u32, Rgb> = HashMap::new();
        let mut id_rows: Vec<Vec<u32>> = Vec::new();
        let mut index: usize = 0;
        let mut row: u32 = 0;
        let ghost w = width as int;
        let ghost h = height as int;
        proof {
            assert(pixels@.take(0) =~= Seq::<Rgb>::empty());
            assert(0 * w == 0) by (nonlinear_arith);
        }
        while row < height
            invariant
                row <= height,
                w == width == image.spec_width(),
                h == height == image.spec_height(),
                pixels@ == image@,
                stored == pixels@.len() == w * h,
                index == row * w,
                index <= stored,
                id_rows@.len() == row,
                forall|r: int| 0 <= r < row ==> (#[trigger] id_rows@[r])@.len() == w,
                palette_state(
                    inverse_color_id_map@,
                    color_id_map@,
                    first_seen(pixels@.take(index as int)),
                ),
                forall|r: int, c: int|
                    0 <= r < row && 0 <= c < w ==> (#[trigger] id_rows@[r]@[c]) < first_seen(
                        pixels@.take(index as int),
                    ).len() && first_seen(pixels@.take(index as int))[id_rows@[r]@[c] as int]
                        == pixels@[r * w + c],
            decreases height - row,
        {
            let mut id_row: Vec<u32> = Vec::new();
            let mut col: u32 = 0;
            while col < width
                invariant
                    col <= width,
                    row < height,
                    w == width == image.spec_width(),
                    h == height == image.spec_height(),
                    pixels@ == image@,
                    stored == pixels@.len() == w * h,
                    index == row * w + col,
                    index <= stored,
                    id_rows@.len() == row,
                    id_row@.len() == col,
                    forall|r: int| 0 <= r < row ==> (#[trigger] id_rows@[r])@.len() == w,
                    palette_state(
                        inverse_color_id_map@,
                        color_id_map@,
                        first_seen(pixels@.take(index as int)),
                    ),
                    forall|r: int, c: int|
                        0 <= r < row && 0 <= c < w ==> (#[trigger] id_rows@[r]@[c]) < first_seen(
                            pixels@.take(index as int),
                        ).len() && first_seen(pixels@.take(index as int))[id_rows@[r]@[c] as int]
                            == pixels@[r * w + c],
                    forall|c: int|
                        0 <= c < col ==> (#[trigger] id_row@[c]) < first_seen(
                            pixels@.take(index as int),
                        ).len() && first_seen(pixels@.take(index as int))[id_row@[c] as int]
                            == pixels@[row * w + c],
                decreases width - col,
            {
                proof {
                    lemma_cell_index(col as int, row as int, w, h);
                    lemma_first_seen_step(pixels@, index as int);
                }
                let ghost seen = first_seen(pixels@.take(index as int));
                let image_pixel = pixels[index];
                let key: u32 = image_pixel.0 as u32 * 65536 + image_pixel.1 as u32 * 256
                    + image_pixel.2 as u32;
                assert(key == pack_rgb(image_pixel));
                let color_id = match inverse_color_id_map.get(&key) {
                    Some(id) => {
                        proof {
                            lemma_palette_known(
                                inverse_color_id_map@,
                                color_id_map@,
                                seen,
                                image_pixel,
                            );
                        }
                        *id
                    },
                    None => {
                        proof {
                            lemma_palette_new(
                                inverse_color_id_map@,
                                color_id_map@,
                                seen,
                                image_pixel,
                            );
                        }
                        let id = inverse_color_id_map.len() as u32;
                        inverse_color_id_map.insert(key, id);
                        color_id_map.insert(id, image_pixel);
                        id
                    },
                };
                id_row.push(color_id);
                index += 1;
                col += 1;
            }
            id_rows.push(id_row);
            proof {
                assert(row * w + w == (row + 1) * w) by (nonlinear_arith);
            }
            row += 1;
        }
        proof {
            assert(h * w == w * h) by (nonlinear_arith);
            assert(pixels@.take(index as int) =~= pixels@);
        }
        (id_rows, color_id_map)
    }

    /// Builds the board of a picture. Palette ids number the colours in the
    /// order in which a scan of the picture's storage first meets them; row 0
    /// of the board is the bottom row of the picture. The regions and their
    /// representatives are those that the row-major scan of the palette ids
    /// yields. Every cell starts unfilled and without handles.
    pub fn from_image(image: Raster) -> (board: ArtBoard)
        ensures
            board.wf(),
            board@.wf(),
            board@.width == image.spec_width(),
            board@.height == image.spec_height(),
            board@.palette == first_seen(image@),
            board@.roots == scan_roots(board@.ids, board@.width, board@.height),
            forall|c: Index2d|
                board@.contains(c) ==> board@.palette[(#[trigger] board@.ids[c]) as int] == image.pixel(
                    c.0 as int,
                    image.spec_height() - 1 - c.1,
                ),
            board@.colored == Set::<Index2d>::empty(),
            board@.pixel_entities == Map::<Index2d, Entity>::empty(),
            board@.edge_entities == Map::<EdgeKey, Entity>::empty(),
    {
        let (id_rows, color_id_map) = Self::color_ids(&image);
        let ghost scanned = id_rows@;
        let id_rows = reversed(id_rows);
        let width = image.width();
        let height = image.height();
        let stored = image.pixels().len();
        let ids = Vec2d { width: width as usize, height: height as usize, data: id_rows };
        proof {
            lemma_first_seen_distinct(image@);
            assert(ids.wf());
            assert(ids.cells().dom() =~= grid_cells(width as nat, height as nat));
        }
        let pixel_disjoint_set = DisjointSet2d::from_vec_2d(&ids);
        let no_edges: PixelEdgeEntities = [None, None, None, None];
        let pixel_colored = Vec2d::fill(width as usize, height as usize, false);
        let pixel_entities = Vec2d::fill(width as usize, height as usize, None);
        let pixel_edge_entities = Vec2d::fill(width as usize, height as usize, no_edges);
        proof {
            let board = ArtBoard {
                width,
                height,
                pixel_disjoint_set,
                pixel_ids: ids,
                pixel_colored,
                pixel_entities,
                pixel_edge_entities,
                color_id_map,
            };
            let view = board@;
            assert(view.palette =~= first_seen(image@));
            assert(view.roots.dom() =~= grid_cells(width as nat, height as nat));
            assert forall|c: Index2d| view.contains(c) implies view.contains(
                #[trigger] view.roots[c],
            ) && view.roots[view.roots[c]] == view.roots[c] by {
                board.pixel_disjoint_set.lemma_root_is_root(c);
            }
            assert forall|c: Index2d| view.contains(c) implies view.palette[(#[trigger] view.ids[c]) as int]
                == image.pixel(c.0 as int, image.spec_height() - 1 - c.1) && view.ids[c]
                < view.palette.len() by {
                let r = height - 1 - c.1;
                assert(board.pixel_ids.at(c) == scanned[r]@[c.0 as int]);
            }
            assert(view.colored =~= Set::<Index2d>::empty()) by {
                assert forall|c: Index2d| !view.colored.contains(c) by {
                    if board.pixel_colored.cells().contains_key(c) {
                        assert(cloned(false, board.pixel_colored.at((c.0, c.1))));
                    }
                }
            }
            assert(view.pixel_entities =~= Map::<Index2d, Entity>::empty()) by {
                assert forall|c: Index2d| !view.pixel_entities.contains_key(c) by {
                    if board.pixel_entities.cells().contains_key(c) {
                        assert(cloned(None::<Entity>, board.pixel_entities.at((c.0, c.1))));
                    }
                }
            }
            assert(view.edge_entities =~= Map::<EdgeKey, Entity>::empty()) by {
                assert forall|k: EdgeKey| !view.edge_entities.contains_key(k) by {
                    if board.pixel_edge_entities.cells().contains_key(k.0) {
                        let slots = board.pixel_edge_entities.at((k.0.0, k.0.1));
                        assert(cloned(no_edges, slots));
                        assert(cloned(no_edges[k.1.spec_index()], slots[k.1.spec_index()]));
                    }
                }
            }
            assert(board.wf());
        }
        ArtBoard {
            width,
            height,
            pixel_disjoint_set,
            pixel_ids: ids,
            pixel_colored,
            pixel_entities,
            pixel_edge_entities,
            color_id_map,
        }
    }

    /// The number of columns.
    pub fn width(&self) -> (width: u32)
        ensures
            width == self@.width,
    {
        self.width
    }

    /// The number of rows.
    pub fn height(&self) -> (height: u32)
        ensures
            height == self@.height,
    {
        self.height
    }

    /// The palette id of a cell; `None` off the board.
    pub fn color_id(&self, pos: Index2d) -> (id: Option<u32>)
        ensures
            id == (if self@.contains(pos) {
                Some(self@.ids[pos])
            } else {
                None
            }),
    {
        proof {
            use_type_invariant(&*self);
        }
        match self.pixel_ids.get(pos) {
            Some(id) => Some(*id),
            None => None,
        }
    }

    /// The colour of a palette id; `None` for an id that no cell has.
    pub fn color(&self, id: u32) -> (color: Option<Rgb>)
        ensures
            color == (if id < self@.palette.len() {
                Some(self@.palette[id as int])
            } else {
                None
            }),
    {
        proof {
            use_type_invariant(&*self);
        }
        broadcast use vstd::std_specs::hash::group_hash_axioms;

        match self.color_id_map.get(&id) {
            Some(color) => Some(*color),
            None => None,
        }
    }

    /// The paint state of a cell; `None` off the board.
    pub fn pixel(&self, pos: Index2d) -> (pixel: Option<Pixel>)
        ensures
            pixel == (if self@.contains(pos) {
                Some(Pixel { id: self@.ids[pos], colored: self@.colored.contains(pos) })
            } else {
                None
            }),
    {
        proof {
            use_type_invariant(&*self);
        }
        match (self.pixel_ids.get(pos), self.pixel_colored.get(pos)) {
            (Some(id), Some(colored)) => Some(Pixel { id: *id, colored: *colored }),
            _ => None,
        }
    }

    /// The sprite handle recorded for a cell, if any.
    pub fn pixel_entity(&self, pos: Index2d) -> (entity: Option<Entity>)
        ensures
            entity == (if self@.pixel_entities.contains_key(pos) {
                Some(self@.pixel_entities[pos])
            } else {
                None
            }),
    {
        proof {
            use_type_invariant(&*self);
        }
        match self.pixel_entities.get(pos) {
            Some(Some(entity)) => Some(*entity),
            _ => None,
        }
    }

    /// The border-line handle recorded for one side of a cell, if any.
    pub fn pixel_edge_entity(&self, pos: Index2d, dir: PixelEdgeDirection) -> (entity: Option<
        Entity,
    >)
        ensures
            entity == (if self@.edge_entities.contains_key((pos, dir)) {
                Some(self@.edge_entities[(pos, dir)])
            } else {
                None
            }),
    {
        proof {
            use_type_invariant(&*self);
        }
        match self.pixel_edge_entities.get(pos) {
            Some(slots) => slots[dir.index()],
            None => None,
        }
    }

    /// The representative of the region of a cell; `None` off the board.
    pub fn region_root(&self, pos: Index2d) -> (root: Option<Index2d>)
        ensures
            root == (if self@.contains(pos) {
                Some(self@.roots[pos])
            } else {
                None
            }),
    {
        proof {
            use_type_invariant(&*self);
        }
        self.pixel_disjoint_set.get_parent(pos)
    }

    /// Whether two regions meet on one side of a cell: the neighbour on that
    /// side lies on the board and has another representative.
    pub fn has_boundary(&self, pos: Index2d, dir: PixelEdgeDirection) -> (meets: bool)
        ensures
            meets == self@.has_boundary(pos, dir),
    {
        proof {
            use_type_invariant(&*self);
        }
        let pixel_parent_index = match self.pixel_disjoint_set.get_parent(pos) {
            Some(i) => i,
            None => {
                return false;
            },
        };
        let neighbor_index = match dir.offset_index(pos) {
            Some(i) => i,
            None => {
                return false;
            },
        };
        let neighbor_parent_index = match self.pixel_disjoint_set.get_parent(neighbor_index) {
            Some(i) => i,
            None => {
                return false;
            },
        };
        pixel_parent_index.0 != neighbor_parent_index.0 || pixel_parent_index.1
            != neighbor_parent_index.1
    }

    /// The sides of a cell on which a border line is to be created, in the
    /// order up, right, down, left: those where two regions meet and no
    /// handle is recorded yet.
    pub fn spawn_pixel_edges(&self, pos: Index2d) -> (sides: Vec<PixelEdgeDirection>)
        ensures
            sides@ == self@.wanted_edges(pos, 4),
    {
        proof {
            use_type_invariant(&*self);
        }
        let mut sides: Vec<PixelEdgeDirection> = Vec::new();
        let pixel_parent_index = match self.pixel_disjoint_set.get_parent(pos) {
            Some(i) => i,
            None => {
                proof {
                    reveal_with_fuel(BoardView::wanted_edges, 5);
                }
                return sides;
            },
        };
        let edge_entities = match self.pixel_edge_entities.get(pos) {
            Some(e) => e,
            None => {
                return sides;
            },
        };
        for i in 0..4usize
            invariant
                self.wf(),
                self@.contains(pos),
                pixel_parent_index == self@.roots[pos],
                *edge_entities == self.pixel_edge_entities.at(pos),
                sides@ == self@.wanted_edges(pos, i as nat),
        {
            let dir = PixelEdgeDirection::from_index(i).unwrap();
            let ghost earlier = sides@;
            if let Some(neighbor_index) = dir.offset_index(pos) {
                if let Some(neighbor_parent_index) = self.pixel_disjoint_set.get_parent(
                    neighbor_index,
                ) {
                    if (pixel_parent_index.0 != neighbor_parent_index.0 || pixel_parent_index.1
                        != neighbor_parent_index.1) && edge_entities[i].is_none() {
                        sides.push(dir);
                    }
                }
            }
            proof {
                assert(self@.edge_entities.contains_key((pos, dir)) == (edge_entities[i as int] is Some));
                assert(sides@ == if self@.edge_wanted(pos, dir) {
                    earlier.push(dir)
                } else {
                    earlier
                });
            }
        }
        sides
    }

    /// What the renderer is to create, cell by cell in row-major order: the
    /// sprite of each cell, which starts unfilled, followed by the border
    /// lines wanted on its sides.
    pub fn spawn_pixels(&self) -> (requests: Vec<SpawnRequest>)
        ensures
            requests@ == self@.spawn_requests(self@.height),
    {
        proof {
            use_type_invariant(&*self);
        }
        broadcast use vstd::std_specs::hash::group_hash_axioms;

        let mut requests: Vec<SpawnRequest> = Vec::new();
        for y in 0..self.height
            invariant
                self.wf(),
                requests@ == self@.spawn_requests(y as nat),
        {
            for x in 0..self.width
                invariant
                    y < self.height,
                    self.wf(),
                    requests@ == self@.spawn_requests(y as nat) + self@.row_requests(
                        y as nat,
                        x as nat,
                    ),
            {
                let pos = (x as usize, y as usize);
                let ghost before = requests@;
                let color_id = *self.pixel_ids.get(pos).unwrap();
                let color = *self.color_id_map.get(&color_id).unwrap();
                requests.push(
                    SpawnRequest::Pixel {
                        pos,
                        pixel: Pixel { id: color_id, colored: false },
                        color,
                    },
                );
                let sides = self.spawn_pixel_edges(pos);
                let ghost edges = sides@.map_values(
                    |dir: PixelEdgeDirection| SpawnRequest::Edge { pos, dir },
                );
                for i in 0..sides.len()
                    invariant
                        edges == sides@.map_values(
                            |dir: PixelEdgeDirection| SpawnRequest::Edge { pos, dir },
                        ),
                        requests@ == before + seq![self@.pixel_request(pos)] + edges.take(i as int),
                {
                    requests.push(SpawnRequest::Edge { pos, dir: sides[i] });
                    proof {
                        assert(edges.take(i + 1) =~= edges.take(i as int).push(edges[i as int]));
                    }
                }
                proof {
                    assert(edges.take(sides.len() as int) =~= edges);
                    assert(requests@ =~= self@.spawn_requests(y as nat) + self@.row_requests(
                        y as nat,
                        (x + 1) as nat,
                    ));
                }
            }
        }
        requests
    }

    /// Writing a sprite handle into the table keeps the board well formed
    /// and records the handle.
    proof fn lemma_set_pixel_entity(
        &self,
        pos: Index2d,
        entity: Entity,
        grid: Vec2d<Option<Entity>>,
    )
        requires
            self.wf(),
            grid.wf(),
            self.pixel_entities.set_to(pos, Some(entity), grid),
        ensures
            (ArtBoard { pixel_entities: grid, ..*self }).wf(),
            (ArtBoard { pixel_entities: grid, ..*self })@ == self@.with_pixel_entity(pos, entity),
    {
        let after = ArtBoard { pixel_entities: grid, ..*self };
        assert(after@.pixel_entities =~= self@.with_pixel_entity(pos, entity).pixel_entities);
    }

    /// Records the sprite handle that the renderer created for a cell. A
    /// coordinate off the board changes nothing.
    pub fn set_pixel_entity(&mut self, pos: Index2d, entity: Entity)
        ensures
            final(self).wf(),
            final(self)@.wf(),
            final(self)@ == old(self)@.with_pixel_entity(pos, entity),
    {
        proof {
            use_type_invariant(&*self);
            assert forall|grid: Vec2d<Option<Entity>>|
                grid.wf() && #[trigger] self.pixel_entities.set_to(
                    pos,
                    Some(entity),
                    grid,
                ) implies (ArtBoard { pixel_entities: grid, ..*self }).wf() by {
                self.lemma_set_pixel_entity(pos, entity, grid);
            }
        }
        self.pixel_entities.set(pos, Some(entity));
        proof {
            old(self).lemma_set_pixel_entity(pos, entity, self.pixel_entities);
        }
    }

    /// Writing a handle into an empty slot on a side where two regions meet
    /// keeps the board well formed and records the handle.
    proof fn lemma_set_edge_entity(
        &self,
        pos: Index2d,
        dir: PixelEdgeDirection,
        entity: Entity,
        slots: PixelEdgeEntities,
        grid: Vec2d<PixelEdgeEntities>,
    )
        requires
            self.wf(),
            self@.edge_wanted(pos, dir),
            forall|j: int|
                0 <= j < 4 ==> #[trigger] slots[j] == (if j == dir.spec_index() {
                    Some(entity)
                } else {
                    self.pixel_edge_entities.at(pos)[j]
                }),
            grid.wf(),
            self.pixel_edge_entities.set_to(pos, slots, grid),
        ensures
            (ArtBoard { pixel_edge_entities: grid, ..*self }).wf(),
            (ArtBoard { pixel_edge_entities: grid, ..*self })@ == self@.with_edge_entity(
                pos,
                dir,
                entity,
            ),
    {
        let after = ArtBoard { pixel_edge_entities: grid, ..*self };
        let wanted = self@.with_edge_entity(pos, dir, entity).edge_entities;
        assert forall|k: EdgeKey| after@.edge_entities.contains_key(k) == wanted.contains_key(k) by {
            if k.0 == pos {
                assert(k.1 == dir <==> k.1.spec_index() == dir.spec_index());
                assert(0 <= k.1.spec_index() < 4);
            }
        }
        assert forall|k: EdgeKey| after@.edge_entities.contains_key(k) implies after@.edge_entities[k]
            == wanted[k] by {
            assert(0 <= k.1.spec_index() < 4);
        }
        assert(after@.edge_entities =~= wanted);
    }

    /// Records the border-line handle that the renderer created for one side
    /// of a cell, if a border line is wanted there: two regions meet on that
    /// side and no handle is recorded yet. Otherwise nothing changes.
    pub fn spawn_pixel_edge(
        &mut self,
        pos: Index2d,
        dir: PixelEdgeDirection,
        entity: Entity,
    ) -> (recorded: bool)
        ensures
            final(self).wf(),
            final(self)@.wf(),
            recorded == old(self)@.edge_wanted(pos, dir),
            final(self)@ == old(self)@.with_edge_entity(pos, dir, entity),
    {
        proof {
            use_type_invariant(&*self);
        }
        if !self.has_boundary(pos, dir) {
            return false;
        }
        let mut edge_entities = match self.pixel_edge_entities.get(pos) {
            Some(e) => *e,
            None => {
                return false;
            },
        };
        let slot = dir.index();
        if edge_entities[slot].is_some() {
            return false;
        }
        edge_entities[slot] = Some(entity);
        proof {
            assert forall|grid: Vec2d<PixelEdgeEntities>|
                grid.wf() && #[trigger] self.pixel_edge_entities.set_to(
                    pos,
                    edge_entities,
                    grid,
                ) implies (ArtBoard { pixel_edge_entities: grid, ..*self }).wf() by {
                self.lemma_set_edge_entity(pos, dir, entity, edge_entities, grid);
            }
        }
        self.pixel_edge_entities.set(pos, edge_entities);
        proof {
            old(self).lemma_set_edge_entity(
                pos,
                dir,
                entity,
                edge_entities,
                self.pixel_edge_entities,
            );
        }
        true
    }

    /// Writing a mark into the table for a cell with a recorded sprite keeps
    /// the board well formed and marks the cell.
    proof fn lemma_set_colored(&self, index: Index2d, grid: Vec2d<bool>)
        requires
            self.wf(),
            self@.has_sprite(index),
            grid.wf(),
            self.pixel_colored.set_to(index, true, grid),
        ensures
            (ArtBoard { pixel_colored: grid, ..*self }).wf(),
            (ArtBoard { pixel_colored: grid, ..*self })@ == self@.color_cell(index),
    {
        let after = ArtBoard { pixel_colored: grid, ..*self };
        assert(after@.colored =~= self@.color_cell(index).colored);
    }

    /// Marks a cell as filled and says what the renderer is to show for it:
    /// its true colour, for the sprite whose handle is recorded. A cell
    /// without a recorded sprite, or a coordinate off the board, is passed
    /// over: nothing is marked and nothing is said.
    pub fn color_pixel(&mut self, index: Index2d) -> (update: Option<RenderUpdate>)
        ensures
            final(self).wf(),
            final(self)@.wf(),
            final(self)@ == old(self)@.color_cell(index),
            update == old(self)@.paint_update(index),
            update is None ==> *final(self) == *old(self),
    {
        broadcast use vstd::std_specs::hash::group_hash_axioms;

        proof {
            use_type_invariant(&*self);
        }
        let pixel_entity = match self.pixel_entities.get(index) {
            Some(Some(entity)) => *entity,
            _ => {
                return None;
            },
        };
        let id = match self.pixel_ids.get(index) {
            Some(id) => *id,
            None => {
                return None;
            },
        };
        let color = match self.color_id_map.get(&id) {
            Some(c) => *c,
            None => {
                return None;
            },
        };
        proof {
            assert forall|grid: Vec2d<bool>|
                grid.wf() && #[trigger] self.pixel_colored.set_to(index, true, grid) implies (ArtBoard {
                    pixel_colored: grid,
                    ..*self
                }).wf() by {
                self.lemma_set_colored(index, grid);
            }
        }
        self.pixel_colored.set(index, true);
        proof {
            old(self).lemma_set_colored(index, self.pixel_colored);
        }
        Some(
            RenderUpdate::Paint { entity: pixel_entity, pixel: Pixel { id, colored: true }, color },
        )
    }

    /// Emptying the slots of a cell keeps the board well formed and forgets
    /// the border-line handles of the cell.
    proof fn lemma_clear_edges(
        &self,
        pos: Index2d,
        slots: PixelEdgeEntities,
        grid: Vec2d<PixelEdgeEntities>,
    )
        requires
            self.wf(),
            forall|j: int| 0 <= j < 4 ==> #[trigger] slots[j] is None,
            grid.wf(),
            self.pixel_edge_entities.set_to(pos, slots, grid),
        ensures
            (ArtBoard { pixel_edge_entities: grid, ..*self }).wf(),
            (ArtBoard { pixel_edge_entities: grid, ..*self })@ == self@.clear_edges(pos),
    {
        let after = ArtBoard { pixel_edge_entities: grid, ..*self };
        let wanted = self@.clear_edges(pos).edge_entities;
        assert forall|k: EdgeKey| after@.edge_entities.contains_key(k) == wanted.contains_key(k) by {
            assert(0 <= k.1.spec_index() < 4);
        }
        assert(after@.edge_entities =~= wanted);
    }

    /// Forgets the border-line handles of a cell and hands them out, in the
    /// order up, right, down, left, for the renderer to remove.
    pub fn clear_pixel_edges(&mut self, pos: Index2d) -> (removed: Vec<Entity>)
        ensures
            final(self).wf(),
            final(self)@.wf(),
            final(self)@ == old(self)@.clear_edges(pos),
            removed@ == old(self)@.edge_handles(pos, 4),
    {
        proof {
            use_type_invariant(&*self);
        }
        let mut removed: Vec<Entity> = Vec::new();
        let mut edge_entities = match self.pixel_edge_entities.get(pos) {
            Some(e) => *e,
            None => {
                proof {
                    reveal_with_fuel(BoardView::edge_handles, 5);
                    assert(self@.edge_entities =~= old(self)@.clear_edges(pos).edge_entities);
                }
                return removed;
            },
        };
        let ghost stored = edge_entities;
        for i in 0..4usize
            invariant
                *self == *old(self),
                self.wf(),
                self@.contains(pos),
                stored == self.pixel_edge_entities.at(pos),
                removed@ == self@.edge_handles(pos, i as nat),
                forall|j: int| 0 <= j < i ==> edge_entities[j] is None,
                forall|j: int| i <= j < 4 ==> edge_entities[j] == stored[j],
        {
            let ghost dir = PixelEdgeDirection::spec_from_index(i as int);
            proof {
                assert(self@.edge_entities.contains_key((pos, dir)) == (stored[i as int] is Some));
            }
            if let Some(entity) = edge_entities[i] {
                removed.push(entity);
                edge_entities[i] = None;
            }
        }
        proof {
            assert forall|grid: Vec2d<PixelEdgeEntities>|
                grid.wf() && #[trigger] self.pixel_edge_entities.set_to(
                    pos,
                    edge_entities,
                    grid,
                ) implies (ArtBoard { pixel_edge_entities: grid, ..*self }).wf() by {
                self.lemma_clear_edges(pos, edge_entities, grid);
            }
        }
        self.pixel_edge_entities.set(pos, edge_entities);
        proof {
            old(self).lemma_clear_edges(pos, edge_entities, self.pixel_edge_entities);
        }
        removed
    }

    /// Fills the given cells one after the other: each cell with a recorded
    /// sprite is marked and the renderer is told its colour; for every cell
    /// the renderer is told which border lines to remove.
    pub fn fill_cells(&mut self, cells: &Vec<Index2d>) -> (updates: Vec<RenderUpdate>)
        ensures
            final(self).wf(),
            final(self)@.wf(),
            final(self)@ == old(self)@.fill_cells(cells@),
            updates@ == old(self)@.fill_updates(cells@),
    {
        proof {
            use_type_invariant(&*self);
        }
        let mut updates: Vec<RenderUpdate> = Vec::new();
        proof {
            assert(cells@.take(0) =~= Seq::<Index2d>::empty());
        }
        for i in 0..cells.len()
            invariant
                self.wf(),
                self@ == old(self)@.fill_cells(cells@.take(i as int)),
                updates@ == old(self)@.fill_updates(cells@.take(i as int)),
        {
            let index = cells[i];
            let ghost before = self@;
            let ghost told = updates@;
            proof {
                assert(cells@.take(i + 1).drop_last() =~= cells@.take(i as int));
            }
            if let Some(update) = self.color_pixel(index) {
                updates.push(update);
            }
            let ghost painted = updates@;
            let removed = self.clear_pixel_edges(index);
            let ghost despawns = removed@.map_values(
                |entity: Entity| RenderUpdate::Despawn { entity },
            );
            proof {
                before.lemma_color_keeps_handles(index);
            }
            for j in 0..removed.len()
                invariant
                    despawns == removed@.map_values(
                        |entity: Entity| RenderUpdate::Despawn { entity },
                    ),
                    updates@ == painted + despawns.take(j as int),
            {
                updates.push(RenderUpdate::Despawn { entity: removed[j] });
                proof {
                    assert(despawns.take(j + 1) =~= despawns.take(j as int).push(
                        despawns[j as int],
                    ));
                }
            }
            proof {
                assert(despawns.take(removed.len() as int) =~= despawns);
                assert(updates@ =~= told + before.cell_updates(index));
            }
        }
        proof {
            assert(cells@.take(cells.len() as int) =~= cells@);
        }
        updates
    }

    /// Fills the region whose member set is stored at `parent`. Nothing
    /// happens unless `parent` is the representative of a region.
    pub fn fill_pixels(&mut self, parent: Index2d) -> (updates: Vec<RenderUpdate>)
        ensures
            final(self).wf(),
            final(self)@.wf(),
            final(self)@ == old(self)@.fill_all(old(self)@.linked_region(parent)),
            old(self)@.fills(old(self)@.linked_region(parent), updates@),
            !(old(self)@.contains(parent) && old(self)@.roots[parent] == parent) ==> *final(self) == *old(
                self,
            ) && updates@.len() == 0,
    {
        proof {
            use_type_invariant(&*self);
        }
        let linked_indices = match self.pixel_disjoint_set.get_linked(parent) {
            Some(i) => i.to_vec(),
            None => {
                proof {
                    self@.lemma_fill_none();
                    let none = Seq::<Index2d>::empty();
                    assert(none.to_set() =~= Set::<Index2d>::empty());
                    assert(self@.fill_updates(none) == Seq::<RenderUpdate>::empty());
                }
                return Vec::new();
            },
        };
        proof {
            assert(linked_indices@.to_set() =~= self@.linked_region(parent));
            self@.lemma_fill_cells_is_fill_all(linked_indices@);
        }
        self.fill_cells(&linked_indices)
    }

    /// Fills the region of the cell at signed coordinates. A negative
    /// coordinate, or one beyond the board, changes nothing.
    pub fn fill_pixels_at_position(&mut self, x: i64, y: i64) -> (updates: Vec<RenderUpdate>)
        ensures
            final(self).wf(),
            final(self)@.wf(),
            final(self)@ == old(self)@.fill_at(x as int, y as int),
            old(self)@.fills(old(self)@.region_at(x as int, y as int), updates@),
            !(0 <= x < old(self)@.width && 0 <= y < old(self)@.height) ==> *final(self) == *old(self)
                && updates@.len() == 0,
    {
        proof {
            use_type_invariant(&*self);
        }
        if x < 0 || y < 0 || x >= self.width as i64 || y >= self.height as i64 {
            proof {
                self@.lemma_fill_none();
                let none = Seq::<Index2d>::empty();
                assert(none.to_set() =~= Set::<Index2d>::empty());
                assert(self@.fill_updates(none) == Seq::<RenderUpdate>::empty());
            }
            return Vec::new();
        }
        match self.pixel_disjoint_set.get_parent((x as usize, y as usize)) {
            Some(parent) => {
                proof {
                    assert(self@.linked_region(parent) == self@.region_at(x as int, y as int));
                }
                self.fill_pixels(parent)
            },
            None => Vec::new(),
        }
    }

    /// A well-formed board is consistent as a mathematical value.
    pub proof fn lemma_view_wf(&self)
        requires
            self.wf(),
        ensures
            self@.wf(),
    {
    }
}

} // verus!
