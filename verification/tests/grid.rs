use los_checker::grid::Grid;

#[test]
fn from_fn_places_cells_by_coordinates() {
    let grid = Grid::from_fn(3, 2, |x, y| (x * 10 + y) as i32);
    assert_eq!(grid.x_len(), 3);
    assert_eq!(grid.y_len(), 2);
    assert_eq!(grid.len(), 6);
    for x in 0..3 {
        for y in 0..2 {
            assert_eq!(grid.get(x, y), (x * 10 + y) as i32);
        }
    }
}

#[test]
fn from_vec_stores_rows_from_the_top() {
    // the first row of the store is the one with the largest y
    let grid = Grid::from_vec(2, 2, vec![1, 2, 3, 4]);
    assert_eq!(grid.get(0, 1), 1);
    assert_eq!(grid.get(1, 1), 2);
    assert_eq!(grid.get(0, 0), 3);
    assert_eq!(grid.get(1, 0), 4);
}

#[test]
fn set_then_get() {
    let mut grid: Grid<f32> = Grid::new(4, 3);
    assert_eq!(grid.get(2, 1), 0.0);
    grid.set(2, 1, 7.5);
    assert_eq!(grid.get(2, 1), 7.5);
    assert_eq!(grid.get(1, 2), 0.0);
    assert_eq!(grid.get(2, 0), 0.0);
}

#[test]
fn regenerate_keeps_dimensions() {
    let mut grid = Grid::from_vec(2, 1, vec![5u8, 6]);
    grid.regenerate_from_fn(|x, _| x as u8);
    assert_eq!(grid.x_len(), 2);
    assert_eq!(grid.y_len(), 1);
    assert_eq!(grid.get(0, 0), 0);
    assert_eq!(grid.get(1, 0), 1);
}
