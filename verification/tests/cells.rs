use talos::cells::CellSet;

#[test]
fn cell_set_insert_remove_contains() {
    let mut set = CellSet::new();
    assert_eq!(set.len(), 0);
    assert!(set.insert((3, 4)));
    assert!(!set.insert((3, 4)));
    assert!(set.insert((4, 3)));
    assert!(set.insert((-1, i32::MIN)));
    assert_eq!(set.len(), 3);
    assert!(set.contains((3, 4)));
    assert!(set.contains((4, 3)));
    assert!(set.contains((-1, i32::MIN)));
    assert!(!set.contains((0, 0)));
    assert!(set.remove((3, 4)));
    assert!(!set.remove((3, 4)));
    assert!(!set.contains((3, 4)));
    assert_eq!(set.len(), 2);
}

#[test]
fn cell_set_lists_each_cell_once() {
    let mut set = CellSet::new();
    let cells = [(0, 0), (1, 0), (0, 1), (i32::MAX, i32::MIN), (-5, 7)];
    for c in cells {
        set.insert(c);
    }
    let mut listed = set.to_vec();
    listed.sort();
    let mut expected = cells.to_vec();
    expected.sort();
    assert_eq!(listed, expected);
}

#[test]
fn cell_set_clone_is_a_set_of_its_own() {
    let mut set = CellSet::new();
    set.insert((1, 2));
    set.insert((-3, 4));
    let mut copy = set.clone();
    assert_eq!(copy.len(), 2);
    assert!(copy.contains((1, 2)));
    assert!(copy.contains((-3, 4)));
    copy.remove((1, 2));
    copy.insert((9, 9));
    assert!(set.contains((1, 2)));
    assert!(!set.contains((9, 9)));
    assert_eq!(set.len(), 2);
}
