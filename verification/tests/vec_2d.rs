use tile_painting::vec_2d::Vec2d;

fn coordinate_sum(x: usize, y: usize) -> usize {
    10 * y + x
}

#[test]
fn fill_gives_every_cell_the_value() {
    let grid = Vec2d::fill(3, 2, 7u8);
    assert_eq!(grid.width, 3);
    assert_eq!(grid.height, 2);
    assert_eq!(grid.data, vec![vec![7, 7, 7], vec![7, 7, 7]]);
    for y in 0..2 {
        for x in 0..3 {
            assert_eq!(grid.get((x, y)), Some(&7));
        }
    }
}

#[test]
fn generate_builds_each_cell_from_its_coordinate() {
    let grid = Vec2d::generate(3, 2, coordinate_sum);
    assert_eq!(grid.data, vec![vec![0, 1, 2], vec![10, 11, 12]]);
    assert_eq!(grid.get((2, 1)), Some(&12));
    let by_closure = Vec2d::generate(2, 2, |x: usize, y: usize| (x, y));
    assert_eq!(by_closure.get((1, 0)), Some(&(1, 0)));
    assert_eq!(by_closure.get((0, 1)), Some(&(0, 1)));
}

#[test]
fn get_outside_the_grid_is_absent() {
    let grid = Vec2d::fill(3, 2, 1u32);
    assert_eq!(grid.get((3, 0)), None);
    assert_eq!(grid.get((0, 2)), None);
    assert_eq!(grid.get((usize::MAX, usize::MAX)), None);
}

#[test]
fn set_overwrites_one_cell() {
    let mut grid = Vec2d::fill(3, 2, 0u32);
    grid.set((1, 1), 9);
    assert_eq!(grid.data, vec![vec![0, 0, 0], vec![0, 9, 0]]);
    assert_eq!(grid.width, 3);
    assert_eq!(grid.height, 2);
}

#[test]
fn set_outside_the_grid_changes_nothing() {
    let mut grid = Vec2d::fill(3, 2, 0u32);
    grid.set((3, 1), 9);
    grid.set((0, 2), 9);
    assert_eq!(grid.data, vec![vec![0, 0, 0], vec![0, 0, 0]]);
}

#[test]
fn empty_grids_hold_nothing() {
    let no_rows = Vec2d::fill(4, 0, 1u8);
    assert_eq!(no_rows.get((0, 0)), None);
    let no_columns = Vec2d::fill(0, 4, 1u8);
    assert_eq!(no_columns.data.len(), 4);
    assert_eq!(no_columns.get((0, 0)), None);
    let nothing: Vec2d<u8> = Vec2d::default();
    assert_eq!(nothing.width, 0);
    assert_eq!(nothing.height, 0);
    assert_eq!(nothing.get((0, 0)), None);
}

#[test]
fn clone_and_copied_keep_the_cells() {
    let mut grid = Vec2d::fill(2, 2, 1u32);
    grid.set((1, 0), 5);
    let clone = grid.clone();
    let copy = grid.copied();
    grid.set((0, 0), 9);
    assert_eq!(clone.data, vec![vec![1, 5], vec![1, 1]]);
    assert_eq!(copy.data, vec![vec![1, 5], vec![1, 1]]);
    assert_eq!((clone.width, clone.height), (2, 2));
    assert_eq!((copy.width, copy.height), (2, 2));
    assert_eq!(grid.get((0, 0)), Some(&9));
}
