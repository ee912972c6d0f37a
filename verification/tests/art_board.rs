use bevy::prelude::Entity;
use tile_painting::art_board::{ArtBoard, Pixel, PixelEdgeDirection, RenderUpdate, SpawnRequest};
use tile_painting::raster::{Raster, Rgb};

const RED: Rgb = (255, 0, 0);
const GREEN: Rgb = (0, 255, 0);
const BLUE: Rgb = (0, 0, 255);

const SIDES: [PixelEdgeDirection; 4] = [
    PixelEdgeDirection::Up,
    PixelEdgeDirection::Right,
    PixelEdgeDirection::Down,
    PixelEdgeDirection::Left,
];

fn board(width: u32, height: u32, pixels: Vec<Rgb>) -> ArtBoard {
    ArtBoard::from_image(Raster::new(width, height, pixels).unwrap())
}

/// Plays the renderer: creates a handle for each request and records it.
fn register(board: &mut ArtBoard, first: u32) -> u32 {
    let mut next = first;
    for request in board.spawn_pixels() {
        let entity = Entity::from_raw(next);
        next += 1;
        match request {
            SpawnRequest::Pixel { pos, .. } => board.set_pixel_entity(pos, entity),
            SpawnRequest::Edge { pos, dir } => assert!(board.spawn_pixel_edge(pos, dir, entity)),
        }
    }
    next
}

fn edges_of(board: &ArtBoard, pos: (usize, usize)) -> Vec<PixelEdgeDirection> {
    SIDES.iter().copied().filter(|dir| board.pixel_edge_entity(pos, *dir).is_some()).collect()
}

fn edge_count(board: &ArtBoard) -> usize {
    let mut count = 0;
    for y in 0..board.height() as usize {
        for x in 0..board.width() as usize {
            count += edges_of(board, (x, y)).len();
        }
    }
    count
}

fn colored_cells(board: &ArtBoard) -> Vec<(usize, usize)> {
    let mut cells = Vec::new();
    for y in 0..board.height() as usize {
        for x in 0..board.width() as usize {
            if board.pixel((x, y)).unwrap().colored {
                cells.push((x, y));
            }
        }
    }
    cells
}

#[test]
fn palette_ids_follow_the_order_of_first_sight() {
    // The picture, top row first:   G R
    //                               R B
    let board = board(2, 2, vec![GREEN, RED, RED, BLUE]);
    assert_eq!(board.color(0), Some(GREEN));
    assert_eq!(board.color(1), Some(RED));
    assert_eq!(board.color(2), Some(BLUE));
    assert_eq!(board.color(3), None);
}

#[test]
fn row_zero_is_the_bottom_of_the_picture() {
    let board = board(2, 2, vec![GREEN, RED, RED, BLUE]);
    assert_eq!(board.width(), 2);
    assert_eq!(board.height(), 2);
    assert_eq!(board.color_id((0, 1)), Some(0));
    assert_eq!(board.color_id((1, 1)), Some(1));
    assert_eq!(board.color_id((0, 0)), Some(1));
    assert_eq!(board.color_id((1, 0)), Some(2));
    assert_eq!(board.color_id((2, 0)), None);
    assert_eq!(board.color_id((0, 2)), None);
}

#[test]
fn a_new_board_is_unfilled_and_without_handles() {
    let board = board(2, 2, vec![GREEN, RED, RED, BLUE]);
    assert!(colored_cells(&board).is_empty());
    assert_eq!(edge_count(&board), 0);
    for y in 0..2 {
        for x in 0..2 {
            assert_eq!(board.pixel_entity((x, y)), None);
        }
    }
    assert_eq!(board.pixel((1, 0)), Some(Pixel { id: 2, colored: false }));
    assert_eq!(board.pixel((2, 0)), None);
}

#[test]
fn two_colours_side_by_side() {
    let mut board = board(2, 1, vec![RED, BLUE]);
    assert_eq!(board.region_root((0, 0)), Some((0, 0)));
    assert_eq!(board.region_root((1, 0)), Some((1, 0)));
    assert_eq!(
        board.spawn_pixels(),
        vec![
            SpawnRequest::Pixel { pos: (0, 0), pixel: Pixel { id: 0, colored: false }, color: RED },
            SpawnRequest::Edge { pos: (0, 0), dir: PixelEdgeDirection::Right },
            SpawnRequest::Pixel { pos: (1, 0), pixel: Pixel { id: 1, colored: false }, color: BLUE },
            SpawnRequest::Edge { pos: (1, 0), dir: PixelEdgeDirection::Left },
        ]
    );
    assert_eq!(register(&mut board, 0), 4);
    assert_eq!(edges_of(&board, (0, 0)), vec![PixelEdgeDirection::Right]);
    assert_eq!(edges_of(&board, (1, 0)), vec![PixelEdgeDirection::Left]);
    assert_eq!(edge_count(&board), 2);

    let updates = board.fill_pixels_at_position(0, 0);
    assert_eq!(
        updates,
        vec![
            RenderUpdate::Paint {
                entity: Entity::from_raw(0),
                pixel: Pixel { id: 0, colored: true },
                color: RED,
            },
            RenderUpdate::Despawn { entity: Entity::from_raw(1) },
        ]
    );
    assert_eq!(colored_cells(&board), vec![(0, 0)]);
    assert!(edges_of(&board, (0, 0)).is_empty());
    assert_eq!(edges_of(&board, (1, 0)), vec![PixelEdgeDirection::Left]);
    assert_eq!(board.pixel_edge_entity((1, 0), PixelEdgeDirection::Left), Some(Entity::from_raw(3)));

    let updates = board.fill_pixels_at_position(1, 0);
    assert_eq!(
        updates,
        vec![
            RenderUpdate::Paint {
                entity: Entity::from_raw(2),
                pixel: Pixel { id: 1, colored: true },
                color: BLUE,
            },
            RenderUpdate::Despawn { entity: Entity::from_raw(3) },
        ]
    );
    assert_eq!(colored_cells(&board), vec![(0, 0), (1, 0)]);
    assert_eq!(edge_count(&board), 0);
}

#[test]
fn a_single_cell() {
    let mut board = board(1, 1, vec![GREEN]);
    assert_eq!(board.region_root((0, 0)), Some((0, 0)));
    assert_eq!(
        board.spawn_pixels(),
        vec![SpawnRequest::Pixel { pos: (0, 0), pixel: Pixel { id: 0, colored: false }, color: GREEN }]
    );
    assert_eq!(register(&mut board, 10), 11);
    assert_eq!(edge_count(&board), 0);
    let updates = board.fill_pixels_at_position(0, 0);
    assert_eq!(
        updates,
        vec![RenderUpdate::Paint {
            entity: Entity::from_raw(10),
            pixel: Pixel { id: 0, colored: true },
            color: GREEN,
        }]
    );
    assert_eq!(board.pixel((0, 0)), Some(Pixel { id: 0, colored: true }));
    assert_eq!(edge_count(&board), 0);
    assert_eq!(board.pixel_entity((0, 0)), Some(Entity::from_raw(10)));
}

#[test]
fn a_checkerboard_has_one_region_per_cell() {
    let mut pixels = Vec::new();
    for y in 0..3 {
        for x in 0..4 {
            pixels.push(if (x + y) % 2 == 0 { RED } else { BLUE });
        }
    }
    let mut board = board(4, 3, pixels);
    for y in 0..3 {
        for x in 0..4 {
            assert_eq!(board.region_root((x, y)), Some((x, y)));
        }
    }
    register(&mut board, 0);
    // Each of the 17 inner borders has a line on both of its sides.
    assert_eq!(edge_count(&board), 34);
    assert_eq!(
        edges_of(&board, (1, 1)),
        vec![
            PixelEdgeDirection::Up,
            PixelEdgeDirection::Right,
            PixelEdgeDirection::Down,
            PixelEdgeDirection::Left
        ]
    );
    assert_eq!(edges_of(&board, (0, 0)), vec![PixelEdgeDirection::Up, PixelEdgeDirection::Right]);
    let updates = board.fill_pixels_at_position(1, 1);
    assert_eq!(updates.len(), 5);
    assert_eq!(colored_cells(&board), vec![(1, 1)]);
    assert_eq!(edge_count(&board), 30);
    assert!(edges_of(&board, (1, 1)).is_empty());
    assert!(edges_of(&board, (0, 1)).contains(&PixelEdgeDirection::Right));
}

#[test]
fn a_fill_marks_the_whole_region_and_nothing_else() {
    // Top row first:  R R B
    //                 G R B
    //                 G G B
    let mut board = board(3, 3, vec![RED, RED, BLUE, GREEN, RED, BLUE, GREEN, GREEN, BLUE]);
    register(&mut board, 0);
    let updates = board.fill_pixels_at_position(1, 1);
    assert_eq!(colored_cells(&board), vec![(1, 1), (0, 2), (1, 2)]);
    let mut painted = Vec::new();
    for update in &updates {
        if let RenderUpdate::Paint { pixel, color, .. } = update {
            painted.push((*pixel, *color));
        }
    }
    assert_eq!(painted, vec![(Pixel { id: 0, colored: true }, RED); 3]);
    for cell in [(1, 1), (0, 2), (1, 2)] {
        assert!(edges_of(&board, cell).is_empty());
        assert_eq!(board.color(board.pixel(cell).unwrap().id), Some(RED));
    }
    // The neighbours keep the lines on their own sides.
    assert_eq!(edges_of(&board, (2, 2)), vec![PixelEdgeDirection::Left]);
    assert_eq!(edges_of(&board, (0, 1)), vec![PixelEdgeDirection::Up, PixelEdgeDirection::Right]);
    assert_eq!(board.pixel((0, 1)), Some(Pixel { id: 2, colored: false }));
}

#[test]
fn filling_any_member_fills_the_same_region() {
    let picture = vec![RED, RED, BLUE, GREEN, RED, BLUE, GREEN, GREEN, BLUE];
    for member in [(1, 1), (0, 2), (1, 2)] {
        let mut board = board(3, 3, picture.clone());
        register(&mut board, 0);
        board.fill_pixels_at_position(member.0, member.1);
        assert_eq!(colored_cells(&board), vec![(1, 1), (0, 2), (1, 2)]);
    }
}

#[test]
fn a_second_fill_changes_nothing() {
    let mut board = board(3, 3, vec![RED, RED, BLUE, GREEN, RED, BLUE, GREEN, GREEN, BLUE]);
    register(&mut board, 0);
    let first = board.fill_pixels_at_position(2, 0);
    assert_eq!(first.len(), 6);
    let cells = colored_cells(&board);
    let edges = edge_count(&board);
    let second = board.fill_pixels_at_position(2, 0);
    assert_eq!(colored_cells(&board), cells);
    assert_eq!(edge_count(&board), edges);
    // The colours are told again; no line is left to remove.
    assert_eq!(second.len(), 3);
    assert!(second.iter().all(|update| matches!(update, RenderUpdate::Paint { .. })));
}

#[test]
fn a_fill_off_the_board_changes_nothing() {
    let mut board = board(2, 1, vec![RED, BLUE]);
    register(&mut board, 0);
    for (x, y) in [(-1, 0), (0, -1), (2, 0), (0, 1), (i64::MIN, 0), (i64::MAX, i64::MAX)] {
        assert!(board.fill_pixels_at_position(x, y).is_empty());
    }
    assert!(colored_cells(&board).is_empty());
    assert_eq!(edge_count(&board), 2);
}

#[test]
fn a_fill_before_the_renderer_has_drawn_marks_nothing() {
    let mut board = board(2, 1, vec![RED, RED]);
    let updates = board.fill_pixels_at_position(1, 0);
    assert!(updates.is_empty());
    assert!(colored_cells(&board).is_empty());
    assert_eq!(board.pixel((1, 0)), Some(Pixel { id: 0, colored: false }));
}

#[test]
fn a_fill_passes_over_cells_without_a_sprite() {
    let mut board = board(3, 1, vec![RED, RED, BLUE]);
    board.set_pixel_entity((1, 0), Entity::from_raw(7));
    assert!(board.spawn_pixel_edge((1, 0), PixelEdgeDirection::Right, Entity::from_raw(8)));
    let updates = board.fill_pixels_at_position(0, 0);
    assert_eq!(
        updates,
        vec![
            RenderUpdate::Paint {
                entity: Entity::from_raw(7),
                pixel: Pixel { id: 0, colored: true },
                color: RED,
            },
            RenderUpdate::Despawn { entity: Entity::from_raw(8) },
        ]
    );
    assert_eq!(colored_cells(&board), vec![(1, 0)]);
    assert_eq!(edge_count(&board), 0);
    // Once the other cell has its sprite, a second fill reaches it.
    board.set_pixel_entity((0, 0), Entity::from_raw(9));
    assert_eq!(board.fill_pixels_at_position(0, 0).len(), 2);
    assert_eq!(colored_cells(&board), vec![(0, 0), (1, 0)]);
}

#[test]
fn new_sprites_start_unfilled() {
    let mut board = board(2, 1, vec![RED, RED]);
    register(&mut board, 0);
    board.fill_pixels_at_position(1, 0);
    assert_eq!(colored_cells(&board), vec![(0, 0), (1, 0)]);
    assert_eq!(
        board.spawn_pixels(),
        vec![
            SpawnRequest::Pixel { pos: (0, 0), pixel: Pixel { id: 0, colored: false }, color: RED },
            SpawnRequest::Pixel { pos: (1, 0), pixel: Pixel { id: 0, colored: false }, color: RED },
        ]
    );
}

#[test]
fn fill_pixels_takes_a_representative() {
    let mut board = board(3, 1, vec![RED, RED, BLUE]);
    register(&mut board, 0);
    let root = board.region_root((1, 0)).unwrap();
    let other = if root == (0, 0) { (1, 0) } else { (0, 0) };
    assert!(board.fill_pixels(other).is_empty());
    assert!(colored_cells(&board).is_empty());
    board.fill_pixels(root);
    assert_eq!(colored_cells(&board), vec![(0, 0), (1, 0)]);
    assert!(board.fill_pixels((3, 0)).is_empty());
}

#[test]
fn fill_cells_fills_in_the_order_given() {
    let mut board = board(2, 1, vec![RED, BLUE]);
    register(&mut board, 0);
    let updates = board.fill_cells(&vec![(1, 0), (0, 0), (1, 0), (5, 5)]);
    assert_eq!(
        updates,
        vec![
            RenderUpdate::Paint {
                entity: Entity::from_raw(2),
                pixel: Pixel { id: 1, colored: true },
                color: BLUE,
            },
            RenderUpdate::Despawn { entity: Entity::from_raw(3) },
            RenderUpdate::Paint {
                entity: Entity::from_raw(0),
                pixel: Pixel { id: 0, colored: true },
                color: RED,
            },
            RenderUpdate::Despawn { entity: Entity::from_raw(1) },
            RenderUpdate::Paint {
                entity: Entity::from_raw(2),
                pixel: Pixel { id: 1, colored: true },
                color: BLUE,
            },
        ]
    );
    assert_eq!(colored_cells(&board), vec![(0, 0), (1, 0)]);
}

#[test]
fn border_lines_lie_between_different_colours_only() {
    let mut board = board(3, 3, vec![RED, RED, BLUE, GREEN, RED, BLUE, GREEN, GREEN, BLUE]);
    register(&mut board, 0);
    for y in 0..3usize {
        for x in 0..3usize {
            for dir in SIDES {
                let neighbor = dir.offset_index((x, y)).filter(|n| n.0 < 3 && n.1 < 3);
                let differs = match neighbor {
                    Some(n) => board.color_id(n) != board.color_id((x, y)),
                    None => false,
                };
                assert_eq!(board.has_boundary((x, y), dir), differs);
                assert_eq!(board.pixel_edge_entity((x, y), dir).is_some(), differs);
            }
        }
    }
}

#[test]
fn a_border_line_is_recorded_once() {
    let mut board = board(2, 1, vec![RED, BLUE]);
    assert_eq!(board.spawn_pixel_edges((0, 0)), vec![PixelEdgeDirection::Right]);
    assert!(board.spawn_pixel_edge((0, 0), PixelEdgeDirection::Right, Entity::from_raw(1)));
    assert!(!board.spawn_pixel_edge((0, 0), PixelEdgeDirection::Right, Entity::from_raw(2)));
    assert_eq!(board.pixel_edge_entity((0, 0), PixelEdgeDirection::Right), Some(Entity::from_raw(1)));
    assert!(board.spawn_pixel_edges((0, 0)).is_empty());
    // A second pass asks for the sprites again, and for the missing line only.
    assert_eq!(
        board.spawn_pixels(),
        vec![
            SpawnRequest::Pixel { pos: (0, 0), pixel: Pixel { id: 0, colored: false }, color: RED },
            SpawnRequest::Pixel { pos: (1, 0), pixel: Pixel { id: 1, colored: false }, color: BLUE },
            SpawnRequest::Edge { pos: (1, 0), dir: PixelEdgeDirection::Left },
        ]
    );
}

#[test]
fn no_border_line_is_recorded_where_none_belongs() {
    let mut board = board(2, 1, vec![RED, RED]);
    assert!(!board.spawn_pixel_edge((0, 0), PixelEdgeDirection::Right, Entity::from_raw(1)));
    assert!(!board.spawn_pixel_edge((0, 0), PixelEdgeDirection::Left, Entity::from_raw(1)));
    assert!(!board.spawn_pixel_edge((0, 0), PixelEdgeDirection::Up, Entity::from_raw(1)));
    assert!(!board.spawn_pixel_edge((4, 4), PixelEdgeDirection::Down, Entity::from_raw(1)));
    assert_eq!(edge_count(&board), 0);
}

#[test]
fn a_sprite_handle_off_the_board_is_dropped() {
    let mut board = board(1, 1, vec![RED]);
    board.set_pixel_entity((1, 0), Entity::from_raw(4));
    assert_eq!(board.pixel_entity((1, 0)), None);
    assert_eq!(board.pixel_entity((0, 0)), None);
    board.set_pixel_entity((0, 0), Entity::from_raw(4));
    board.set_pixel_entity((0, 0), Entity::from_raw(5));
    assert_eq!(board.pixel_entity((0, 0)), Some(Entity::from_raw(5)));
}

#[test]
fn color_pixel_marks_a_cell_with_a_sprite() {
    let mut board = board(2, 1, vec![RED, RED]);
    board.set_pixel_entity((1, 0), Entity::from_raw(8));
    assert_eq!(board.color_pixel((0, 0)), None);
    assert!(colored_cells(&board).is_empty());
    assert_eq!(
        board.color_pixel((1, 0)),
        Some(RenderUpdate::Paint {
            entity: Entity::from_raw(8),
            pixel: Pixel { id: 0, colored: true },
            color: RED,
        })
    );
    assert_eq!(board.color_pixel((2, 0)), None);
    assert_eq!(colored_cells(&board), vec![(1, 0)]);
}

#[test]
fn clear_pixel_edges_hands_out_the_handles_in_order() {
    let mut pixels = vec![BLUE; 9];
    pixels[4] = RED;
    let mut board = board(3, 3, pixels);
    assert!(board.spawn_pixel_edge((1, 1), PixelEdgeDirection::Left, Entity::from_raw(3)));
    assert!(board.spawn_pixel_edge((1, 1), PixelEdgeDirection::Up, Entity::from_raw(0)));
    assert!(board.spawn_pixel_edge((1, 1), PixelEdgeDirection::Down, Entity::from_raw(2)));
    assert_eq!(
        board.clear_pixel_edges((1, 1)),
        vec![Entity::from_raw(0), Entity::from_raw(2), Entity::from_raw(3)]
    );
    assert!(board.clear_pixel_edges((1, 1)).is_empty());
    assert!(board.clear_pixel_edges((3, 3)).is_empty());
    assert_eq!(
        board.spawn_pixel_edges((1, 1)),
        vec![
            PixelEdgeDirection::Up,
            PixelEdgeDirection::Right,
            PixelEdgeDirection::Down,
            PixelEdgeDirection::Left
        ]
    );
}

#[test]
fn an_empty_picture_gives_an_empty_board() {
    for (width, height) in [(0, 0), (0, 3), (3, 0)] {
        let mut board = board(width, height, vec![]);
        assert_eq!(board.width(), width);
        assert_eq!(board.height(), height);
        assert!(board.spawn_pixels().is_empty());
        assert!(board.fill_pixels_at_position(0, 0).is_empty());
        assert_eq!(board.region_root((0, 0)), None);
        assert_eq!(board.color(0), None);
    }
}

#[test]
fn offset_index_steps_to_the_neighbour() {
    assert_eq!(PixelEdgeDirection::Up.offset_index((3, 4)), Some((3, 5)));
    assert_eq!(PixelEdgeDirection::Right.offset_index((3, 4)), Some((4, 4)));
    assert_eq!(PixelEdgeDirection::Down.offset_index((3, 4)), Some((3, 3)));
    assert_eq!(PixelEdgeDirection::Left.offset_index((3, 4)), Some((2, 4)));
    assert_eq!(PixelEdgeDirection::Down.offset_index((3, 0)), None);
    assert_eq!(PixelEdgeDirection::Left.offset_index((0, 4)), None);
    assert_eq!(PixelEdgeDirection::Up.offset_index((0, usize::MAX)), None);
    assert_eq!(PixelEdgeDirection::Right.offset_index((usize::MAX, 0)), None);
}

#[test]
fn sides_are_numbered_up_right_down_left() {
    for (i, dir) in SIDES.iter().enumerate() {
        assert_eq!(dir.index(), i);
        assert_eq!(PixelEdgeDirection::from_index(i), Some(*dir));
    }
    assert_eq!(PixelEdgeDirection::from_index(4), None);
}

#[test]
fn a_cloned_board_goes_its_own_way() {
    let mut first = board(2, 1, vec![RED, BLUE]);
    register(&mut first, 0);
    let mut second = first.clone();
    first.fill_pixels_at_position(0, 0);
    assert_eq!(colored_cells(&first), vec![(0, 0)]);
    assert!(colored_cells(&second).is_empty());
    assert_eq!(edge_count(&second), 2);
    assert_eq!(second.pixel_entity((1, 0)), Some(Entity::from_raw(2)));
    assert_eq!(second.color(1), Some(BLUE));
    assert_eq!(second.fill_pixels_at_position(1, 0).len(), 2);
    assert_eq!(colored_cells(&second), vec![(1, 0)]);
}
