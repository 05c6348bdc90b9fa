use query_accel::vecn::VecN;
use query_accel::{AccelError, CellGrid, Occupancy};

fn cell_of(p: [f32; 2], radius: f32) -> VecN<2, i32> {
    VecN([(p[0] / radius).floor() as i32, (p[1] / radius).floor() as i32])
}

fn exact(
    grid: &CellGrid<2>,
    points: &[[f32; 2]],
    query_idx: usize,
    q: [f32; 2],
    radius: f32,
) -> Vec<usize> {
    let mut out = Vec::new();
    for j in grid.neighbors_of(&cell_of(q, radius), query_idx) {
        let dx = points[j][0] - q[0];
        let dy = points[j][1] - q[1];
        if dx * dx + dy * dy <= radius * radius {
            out.push(j);
        }
    }
    out
}

#[test]
fn three_points_scenario_with_real_coordinates() {
    let radius = 1.0f32;
    let mut points = vec![[0.0f32, 0.0], [0.5, 0.0], [2.0, 2.0]];
    let cells: Vec<VecN<2, i32>> = points.iter().map(|p| cell_of(*p, radius)).collect();
    assert_eq!(cells, vec![VecN([0, 0]), VecN([0, 0]), VecN([2, 2])]);
    let mut grid = CellGrid::new(&cells);
    assert_eq!(exact(&grid, &points, 0, [0.0, 0.0], radius), vec![1]);
    assert_eq!(grid.neighbors_of(&cell_of([0.0, 0.0], radius), 0), vec![1]);
    let moved = [0.4f32, 0.0];
    assert_eq!(grid.relocate(2, &cell_of(points[2], radius), &cell_of(moved, radius)), Ok(()));
    points[2] = moved;
    assert_eq!(exact(&grid, &points, 0, [0.0, 0.0], radius), vec![1, 2]);
}

#[test]
fn buckets_hold_the_indices_in_order() {
    let cells: Vec<VecN<1, i32>> = vec![VecN([3]), VecN([1]), VecN([3]), VecN([1]), VecN([3])];
    let grid = CellGrid::new(&cells);
    assert_eq!(grid.neighbors_of(&VecN([3]), usize::MAX), vec![0, 2, 4]);
    assert_eq!(grid.neighbors_of(&VecN([1]), usize::MAX), vec![1, 3]);
    assert_eq!(grid.neighbors_of(&VecN([2]), usize::MAX), vec![1, 3, 0, 2, 4]);
    assert_eq!(grid.neighbors_of(&VecN([2]), 2), vec![1, 3, 0, 4]);
    assert_eq!(grid.neighbors_of(&VecN([5]), usize::MAX), Vec::<usize>::new());
}

#[test]
fn relocate_moves_one_index_only() {
    let cells: Vec<VecN<1, i32>> = vec![VecN([3]), VecN([1]), VecN([3]), VecN([1]), VecN([3])];
    let mut grid = CellGrid::new(&cells);
    assert_eq!(grid.relocate(2, &VecN([3]), &VecN([1])), Ok(()));
    assert_eq!(grid.neighbors_of(&VecN([3]), usize::MAX), vec![0, 4]);
    assert_eq!(grid.neighbors_of(&VecN([1]), usize::MAX), vec![1, 3, 2]);
    assert_eq!(grid.relocate(2, &VecN([3]), &VecN([1])), Err(AccelError::NotInCell));
    assert_eq!(grid.relocate(0, &VecN([3]), &VecN([9])), Ok(()));
    assert_eq!(grid.neighbors_of(&VecN([9]), usize::MAX), vec![0]);
    assert_eq!(grid.occupancy(), Occupancy { points: 5, cells: 3, largest: 3 });
}

#[test]
fn relocate_of_an_unknown_index_changes_nothing() {
    let cells: Vec<VecN<2, i32>> = vec![VecN([0, 0]), VecN([0, 1])];
    let mut grid = CellGrid::new(&cells);
    assert_eq!(grid.relocate(2, &VecN([0, 0]), &VecN([0, 1])), Err(AccelError::NotInCell));
    assert_eq!(grid.relocate(0, &VecN([7, 7]), &VecN([0, 1])), Err(AccelError::NotInCell));
    assert_eq!(grid.neighbors_of(&VecN([0, 0]), usize::MAX), vec![0, 1]);
    assert_eq!(grid.occupancy(), Occupancy { points: 2, cells: 2, largest: 1 });
}

#[test]
fn an_emptied_bucket_stays_in_the_grid() {
    let cells: Vec<VecN<1, i32>> = vec![VecN([0]), VecN([5])];
    let mut grid = CellGrid::new(&cells);
    assert_eq!(grid.relocate(1, &VecN([5]), &VecN([0])), Ok(()));
    assert_eq!(grid.occupancy(), Occupancy { points: 2, cells: 2, largest: 2 });
    assert_eq!(grid.neighbors_of(&VecN([5]), usize::MAX), Vec::<usize>::new());
    assert_eq!(grid.relocate(1, &VecN([5]), &VecN([0])), Err(AccelError::NotInCell));
}

#[test]
fn neighbor_cells_beyond_the_key_range_are_skipped() {
    let cells: Vec<VecN<2, i32>> =
        vec![VecN([i32::MAX, i32::MIN]), VecN([i32::MAX - 1, i32::MIN + 1])];
    let grid = CellGrid::new(&cells);
    assert_eq!(grid.neighbors_of(&VecN([i32::MAX, i32::MIN]), usize::MAX), vec![0, 1]);
    assert_eq!(grid.neighbors_of(&VecN([i32::MAX, i32::MIN]), 0), vec![1]);
}
