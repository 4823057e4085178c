use snowglobe::occupancy::OccupancyGrid;

#[test]
fn a_new_grid_is_empty() {
    let grid = OccupancyGrid::new();
    assert!(grid.is_empty());
    assert_eq!(grid.len(), 0);
    assert!(!grid.contains(&(0, 0)));
}

#[test]
fn insert_marks_a_cell_once() {
    let mut grid = OccupancyGrid::new();
    assert!(grid.insert((3, 4)));
    assert!(!grid.insert((3, 4)));
    assert!(grid.contains(&(3, 4)));
    assert!(!grid.contains(&(4, 3)));
    assert_eq!(grid.len(), 1);
    assert!(!grid.is_empty());
}

#[test]
fn remove_frees_a_cell() {
    let mut grid = OccupancyGrid::new();
    grid.insert((3, 4));
    grid.insert((5, 6));
    assert!(grid.remove(&(3, 4)));
    assert!(!grid.remove(&(3, 4)));
    assert!(!grid.contains(&(3, 4)));
    assert!(grid.contains(&(5, 6)));
    assert_eq!(grid.len(), 1);
}

#[test]
fn cells_differ_where_one_coordinate_differs() {
    let mut grid = OccupancyGrid::new();
    let cells = [
        (0, 0),
        (0, 1),
        (1, 0),
        (-1, 0),
        (0, -1),
        (-1, -1),
        (i32::MIN, i32::MIN),
        (i32::MIN, i32::MAX),
        (i32::MAX, i32::MIN),
        (i32::MAX, i32::MAX),
        (i32::MAX - 1, i32::MIN),
        (i32::MIN + 1, i32::MAX),
        (0, i32::MIN),
        (1, i32::MIN),
        (0, i32::MAX),
        (-1, i32::MAX),
    ];
    for (n, cell) in cells.iter().enumerate() {
        for later in &cells[n..] {
            assert!(!grid.contains(later));
        }
        assert!(grid.insert(*cell));
        assert_eq!(grid.len(), n + 1);
        for earlier in &cells[..=n] {
            assert!(grid.contains(earlier));
        }
    }
    for (n, cell) in cells.iter().enumerate() {
        assert!(grid.remove(cell));
        assert_eq!(grid.len(), cells.len() - n - 1);
        assert!(!grid.contains(cell));
    }
    assert!(grid.is_empty());
}

#[test]
fn merge_adds_the_cells_of_another_grid() {
    let mut grid = OccupancyGrid::new();
    grid.insert((1, 1));
    grid.insert((2, 2));
    let mut other = OccupancyGrid::new();
    other.insert((2, 2));
    other.insert((-3, 3));
    other.insert((i32::MAX, i32::MIN));
    grid.merge(&other);
    assert_eq!(grid.len(), 4);
    for cell in [(1, 1), (2, 2), (-3, 3), (i32::MAX, i32::MIN)] {
        assert!(grid.contains(&cell));
    }
    assert_eq!(other.len(), 3);
    grid.merge(&OccupancyGrid::new());
    assert_eq!(grid.len(), 4);
}
