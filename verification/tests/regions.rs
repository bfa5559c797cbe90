use std::collections::HashSet;
use talos::regions::find_connected_region_sizes;

#[test]
fn test_one_empty_u_sharped_space() {
    let free_cells = HashSet::from([
        (0, 0),         (2, 0),
        (0, 1),         (2, 1),
        (0, 2), (1, 2), (2, 2),
    ]);
    let mut spaces = find_connected_region_sizes(3, 3, &free_cells);
    spaces.sort_unstable();
    assert_eq!(spaces, vec![7]);
}

#[test]
fn test_three_empty_spaces() {
    let free_cells = HashSet::from([
        (0, 0),         (2, 0),
                (1, 1), (2, 1),
        (0, 2),         (2, 2),
    ]);
    let mut spaces = find_connected_region_sizes(3, 3, &free_cells);
    spaces.sort_unstable();
    assert_eq!(spaces, vec![1, 1, 4]);
}

#[test]
fn test_single_cell() {
    let free_cells = HashSet::from([(0, 0)]);
    let spaces = find_connected_region_sizes(1, 1, &free_cells);
    assert_eq!(spaces, vec![1]);
}

#[test]
fn test_no_free_cells() {
    let free_cells = HashSet::new();
    let spaces = find_connected_region_sizes(3, 3, &free_cells);
    assert_eq!(spaces, Vec::new());
}

#[test]
fn test_all_cells_are_free() {
    let free_cells = HashSet::from([
        (0, 0), (0, 1),
        (1, 0), (1, 1),
    ]);
    let spaces = find_connected_region_sizes(2, 2, &free_cells);
    assert_eq!(spaces, vec![4]);
}

#[test]
fn sizes_add_up_to_the_number_of_free_cells() {
    let free_cells = HashSet::from([
        (0, 0), (1, 0),         (3, 0),
                        (2, 1),
        (0, 2),         (2, 2), (3, 2),
    ]);
    let spaces = find_connected_region_sizes(4, 3, &free_cells);
    assert_eq!(spaces.iter().sum::<usize>(), free_cells.len());
    let mut sorted = spaces.clone();
    sorted.sort_unstable();
    assert_eq!(sorted, vec![1, 1, 2, 3]);
}

#[test]
fn diagonal_neighbours_are_not_connected() {
    let free_cells = HashSet::from([(0, 0), (1, 1), (2, 2)]);
    let mut spaces = find_connected_region_sizes(3, 3, &free_cells);
    spaces.sort_unstable();
    assert_eq!(spaces, vec![1, 1, 1]);
}

#[test]
fn fully_free_grid_is_one_region() {
    let mut free_cells = HashSet::new();
    for y in 0..5 {
        for x in 0..7 {
            free_cells.insert((x, y));
        }
    }
    let spaces = find_connected_region_sizes(7, 5, &free_cells);
    assert_eq!(spaces, vec![35]);
}

#[test]
fn cells_beyond_the_grid_are_not_walked_into() {
    let free_cells = HashSet::from([(0, 0), (1, 0), (3, 0)]);
    let mut spaces = find_connected_region_sizes(2, 1, &free_cells);
    spaces.sort_unstable();
    assert_eq!(spaces, vec![1, 2]);
}

#[test]
fn cells_at_the_limits_of_the_coordinate_range() {
    let free_cells = HashSet::from([(i32::MAX, i32::MAX), (i32::MIN, i32::MIN), (0, 0)]);
    let mut spaces = find_connected_region_sizes(i32::MAX, i32::MAX, &free_cells);
    spaces.sort_unstable();
    assert_eq!(spaces, vec![1, 1, 1]);
}
