use tile_painting::cell_set::CellSet;

#[test]
fn singleton_holds_its_cell_only() {
    let set = CellSet::singleton((3, 4));
    assert!(set.contains((3, 4)));
    assert!(!set.contains((4, 3)));
    assert_eq!(set.len(), 1);
    assert_eq!(set.to_vec(), vec![(3, 4)]);
}

#[test]
fn union_holds_the_cells_of_both() {
    let a = CellSet::singleton((0, 0));
    let b = CellSet::singleton((1, 0));
    let both = a.union(&b);
    assert_eq!(both.len(), 2);
    assert!(both.contains((0, 0)));
    assert!(both.contains((1, 0)));
    assert!(!both.contains((1, 1)));
    let mut cells = both.to_vec();
    cells.sort();
    assert_eq!(cells, vec![(0, 0), (1, 0)]);
    assert_eq!(a.len(), 1);
    assert_eq!(b.len(), 1);
}

#[test]
fn union_with_itself_adds_nothing() {
    let a = CellSet::singleton((2, 2));
    let again = a.union(&a);
    assert_eq!(again.len(), 1);
    assert_eq!(again, a);
}

#[test]
fn clone_holds_the_same_cells() {
    let a = CellSet::singleton((0, 0)).union(&CellSet::singleton((5, 5)));
    let copy = a.clone();
    assert_eq!(copy, a);
    assert_eq!(copy.len(), 2);
    assert!(copy.contains((5, 5)));
}
