use std::collections::VecDeque;
use tile_painting::disjoint_set_2d::{DisjoinSetEntry, DisjointSet2d};
use tile_painting::vec_2d::Vec2d;

fn grid(rows: Vec<Vec<u32>>) -> Vec2d<u32> {
    let height = rows.len();
    let width = if height == 0 { 0 } else { rows[0].len() };
    Vec2d { width, height, data: rows }
}

/// The cells reached from `start` over neighbours of equal value.
fn flood(data: &Vec2d<u32>, start: (usize, usize)) -> Vec<(usize, usize)> {
    let mut seen = vec![start];
    let mut queue = VecDeque::new();
    queue.push_back(start);
    while let Some((x, y)) = queue.pop_front() {
        let mut next = vec![(x + 1, y), (x, y + 1)];
        if x > 0 {
            next.push((x - 1, y));
        }
        if y > 0 {
            next.push((x, y - 1));
        }
        for n in next {
            if data.get(n).is_some() && data.get(n) == data.get((x, y)) && !seen.contains(&n) {
                seen.push(n);
                queue.push_back(n);
            }
        }
    }
    seen.sort();
    seen
}

fn assert_regions_are_flood_fills(data: &Vec2d<u32>) {
    let set = DisjointSet2d::from_vec_2d(data);
    let mut roots = Vec::new();
    for y in 0..data.height {
        for x in 0..data.width {
            let root = set.get_parent((x, y)).unwrap();
            assert_eq!(set.get_parent(root), Some(root));
            let mut members = set.get_linked(root).unwrap().to_vec();
            members.sort();
            assert_eq!(members, flood(data, (x, y)));
            assert!(set.get_linked(root).unwrap().contains((x, y)));
            if !roots.contains(&root) {
                roots.push(root);
            }
            for b in flood(data, (x, y)) {
                assert_eq!(set.get_parent(b), Some(root));
            }
        }
    }
    assert_eq!(set.group_count(), roots.len());
}

#[test]
fn every_cell_of_one_colour_shares_a_root() {
    let data = grid(vec![vec![7, 7, 7], vec![7, 7, 7]]);
    let set = DisjointSet2d::from_vec_2d(&data);
    let root = set.get_parent((0, 0)).unwrap();
    for y in 0..2 {
        for x in 0..3 {
            assert_eq!(set.get_parent((x, y)), Some(root));
        }
    }
    assert_eq!(set.group_count(), 1);
    let members = set.get_linked(root).unwrap();
    assert_eq!(members.len(), 6);
    assert!(members.contains((2, 1)));
}

#[test]
fn regions_follow_corners() {
    // 1 2 1
    // 1 2 1
    // 1 1 1
    let data = grid(vec![vec![1, 2, 1], vec![1, 2, 1], vec![1, 1, 1]]);
    let set = DisjointSet2d::from_vec_2d(&data);
    assert_eq!(set.group_count(), 2);
    assert_eq!(set.get_parent((0, 0)), set.get_parent((2, 0)));
    assert_eq!(set.get_parent((1, 0)), set.get_parent((1, 1)));
    assert_ne!(set.get_parent((0, 0)), set.get_parent((1, 0)));
    let ones = set.get_linked(set.get_parent((2, 0)).unwrap()).unwrap();
    assert_eq!(ones.len(), 7);
    assert!(!ones.contains((1, 1)));
}

#[test]
fn equal_colours_that_do_not_touch_are_apart() {
    let data = grid(vec![vec![1, 2, 1]]);
    let set = DisjointSet2d::from_vec_2d(&data);
    assert_eq!(set.group_count(), 3);
    assert_ne!(set.get_parent((0, 0)), set.get_parent((2, 0)));
}

#[test]
fn diagonal_neighbours_are_apart() {
    let data = grid(vec![vec![1, 2], vec![2, 1]]);
    let set = DisjointSet2d::from_vec_2d(&data);
    assert_eq!(set.group_count(), 4);
    assert_ne!(set.get_parent((0, 0)), set.get_parent((1, 1)));
}

#[test]
fn regions_match_a_breadth_first_search() {
    assert_regions_are_flood_fills(&grid(vec![
        vec![1, 1, 2, 2, 1],
        vec![3, 1, 2, 1, 1],
        vec![3, 1, 1, 1, 4],
        vec![3, 3, 5, 4, 4],
    ]));
    assert_regions_are_flood_fills(&grid(vec![
        vec![0, 1, 0, 1],
        vec![1, 0, 1, 0],
        vec![0, 1, 0, 1],
    ]));
    assert_regions_are_flood_fills(&grid(vec![
        vec![1, 1, 1, 1, 1],
        vec![1, 2, 2, 2, 1],
        vec![1, 2, 1, 2, 1],
        vec![1, 2, 2, 2, 1],
        vec![1, 1, 1, 1, 1],
    ]));
    assert_regions_are_flood_fills(&grid(vec![vec![9]]));
    assert_regions_are_flood_fills(&grid(vec![]));
}

#[test]
fn out_of_range_lookups_are_absent() {
    let data = grid(vec![vec![1, 2]]);
    let set = DisjointSet2d::from_vec_2d(&data);
    assert_eq!(set.get_parent((2, 0)), None);
    assert_eq!(set.get_parent((0, 1)), None);
    assert!(set.get_linked((5, 5)).is_none());
}

#[test]
fn members_are_asked_for_by_the_root_only() {
    let data = grid(vec![vec![4, 4, 4]]);
    let set = DisjointSet2d::from_vec_2d(&data);
    let root = set.get_parent((0, 0)).unwrap();
    for x in 0..3 {
        let is_root = (x, 0) == root;
        assert_eq!(set.get_linked((x, 0)).is_some(), is_root);
    }
}

#[test]
fn link_unites_two_regions_and_keeps_the_first_root() {
    let data = grid(vec![vec![1, 2, 3]]);
    let mut set = DisjointSet2d::from_vec_2d(&data);
    assert_eq!(set.group_count(), 3);
    set.link((0, 0), (2, 0));
    assert_eq!(set.group_count(), 2);
    assert_eq!(set.get_parent((2, 0)), Some((0, 0)));
    assert_eq!(set.get_parent((0, 0)), Some((0, 0)));
    assert_eq!(set.get_parent((1, 0)), Some((1, 0)));
    let mut members = set.get_linked((0, 0)).unwrap().to_vec();
    members.sort();
    assert_eq!(members, vec![(0, 0), (2, 0)]);
    assert!(set.get_linked((2, 0)).is_none());
}

#[test]
fn link_of_one_region_with_itself_changes_nothing() {
    let data = grid(vec![vec![1, 1, 3]]);
    let mut set = DisjointSet2d::from_vec_2d(&data);
    let root = set.get_parent((0, 0));
    set.link((0, 0), (1, 0));
    set.link((1, 0), (0, 0));
    assert_eq!(set.group_count(), 2);
    assert_eq!(set.get_parent((0, 0)), root);
    assert_eq!(set.get_parent((1, 0)), root);
}

#[test]
fn link_with_a_cell_off_the_grid_changes_nothing() {
    let data = grid(vec![vec![1, 2]]);
    let mut set = DisjointSet2d::from_vec_2d(&data);
    set.link((0, 0), (2, 0));
    set.link((0, 7), (1, 0));
    assert_eq!(set.group_count(), 2);
    assert_eq!(set.get_parent((0, 0)), Some((0, 0)));
    assert_eq!(set.get_parent((1, 0)), Some((1, 0)));
}

#[test]
fn links_chain_through_children() {
    let data = grid(vec![vec![1, 2, 3, 4]]);
    let mut set = DisjointSet2d::from_vec_2d(&data);
    set.link((2, 0), (3, 0));
    set.link((1, 0), (3, 0));
    set.link((0, 0), (3, 0));
    assert_eq!(set.group_count(), 1);
    for x in 0..4 {
        assert_eq!(set.get_parent((x, 0)), Some((0, 0)));
    }
    assert_eq!(set.get_linked((0, 0)).unwrap().len(), 4);
}

#[test]
fn singleton_root_owns_its_cell() {
    match DisjoinSetEntry::singleton_root(2, 5) {
        DisjoinSetEntry::Parent(members) => assert_eq!(members.to_vec(), vec![(2, 5)]),
        DisjoinSetEntry::Child(_) => panic!("a fresh cell is a root"),
    }
}

#[test]
fn regions_of_other_cell_types() {
    let data = Vec2d { width: 2, height: 2, data: vec![vec![true, true], vec![false, true]] };
    let set = DisjointSet2d::from_vec_2d(&data);
    assert_eq!(set.group_count(), 2);
    assert_eq!(set.get_parent((0, 0)), set.get_parent((1, 1)));
}

#[test]
fn a_cloned_forest_has_the_same_regions() {
    let data = grid(vec![vec![1, 1, 2], vec![3, 1, 2]]);
    let mut set = DisjointSet2d::from_vec_2d(&data);
    let copy = set.clone();
    set.link((0, 0), (2, 0));
    assert_eq!(copy.group_count(), 3);
    assert_eq!(set.group_count(), 2);
    let fresh = DisjointSet2d::from_vec_2d(&data);
    for y in 0..2 {
        for x in 0..3 {
            assert_eq!(copy.get_parent((x, y)), fresh.get_parent((x, y)));
        }
    }
    let root = copy.get_parent((1, 1)).unwrap();
    assert_eq!(copy.get_linked(root).unwrap().len(), 3);
}

#[test]
fn the_scanned_cell_keeps_its_representative() {
    // 1 2
    // 2 2
    let set = DisjointSet2d::from_vec_2d(&grid(vec![vec![1, 2], vec![2, 2]]));
    assert_eq!(set.get_parent((0, 0)), Some((0, 0)));
    // (1, 0) takes (1, 1) in; then (0, 1) takes the region of (1, 1) in.
    assert_eq!(set.get_parent((1, 0)), Some((0, 1)));
    assert_eq!(set.get_parent((1, 1)), Some((0, 1)));
    assert_eq!(set.get_parent((0, 1)), Some((0, 1)));
    let row = DisjointSet2d::from_vec_2d(&grid(vec![vec![5, 5, 5]]));
    for x in 0..3 {
        assert_eq!(row.get_parent((x, 0)), Some((0, 0)));
    }
}

#[test]
fn like_grids_get_the_same_representatives() {
    let numbers = grid(vec![vec![1, 1, 2, 2, 1], vec![3, 1, 2, 1, 1], vec![3, 1, 1, 1, 4]]);
    let renamed = grid(vec![vec![7, 7, 0, 0, 7], vec![9, 7, 0, 7, 7], vec![9, 7, 7, 7, 2]]);
    let first = DisjointSet2d::from_vec_2d(&numbers);
    let second = DisjointSet2d::from_vec_2d(&renamed);
    assert_eq!(first.group_count(), second.group_count());
    for y in 0..3 {
        for x in 0..5 {
            let root = first.get_parent((x, y)).unwrap();
            assert_eq!(second.get_parent((x, y)), Some(root));
            let mut members = first.get_linked(root).unwrap().to_vec();
            let mut others = second.get_linked(root).unwrap().to_vec();
            members.sort();
            others.sort();
            assert_eq!(members, others);
        }
    }
}
