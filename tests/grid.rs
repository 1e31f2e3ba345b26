use game_of_life::{CellState, Coord, Grid};
use std::collections::BTreeSet;

fn alive(grid: &Grid) -> BTreeSet<(isize, isize)> {
    grid.cells()
        .into_iter()
        .filter(|(_, s)| *s == CellState::Alive)
        .map(|(c, _)| (c.x, c.y))
        .collect()
}

fn entries(grid: &Grid) -> BTreeSet<(isize, isize, bool)> {
    grid.cells()
        .into_iter()
        .map(|(c, s)| (c.x, c.y, s == CellState::Alive))
        .collect()
}

fn seed(cells: &[(isize, isize)]) -> Grid {
    let mut grid = Grid::new();
    for &(x, y) in cells {
        grid.set_alive(Coord::new(x, y));
    }
    grid
}

fn set(cells: &[(isize, isize)]) -> BTreeSet<(isize, isize)> {
    cells.iter().copied().collect()
}

#[test]
fn new_grid_is_empty() {
    let grid = Grid::new();
    assert!(grid.cells().is_empty());
    assert_eq!(grid.get(Coord::new(0, 0)), None);
    assert!(Grid::default().cells().is_empty());
}

#[test]
fn coord_new_and_default() {
    let c = Coord::new(-3, 7);
    assert_eq!((c.x, c.y), (-3, 7));
    assert_eq!(Coord::default(), Coord::new(0, 0));
}

#[test]
fn neighbors_are_the_eight_touching_cells() {
    let got: BTreeSet<(isize, isize)> =
        Coord::new(5, -2).neighbors().into_iter().map(|c| (c.x, c.y)).collect();
    let want = set(&[(4, -3), (5, -3), (6, -3), (4, -2), (6, -2), (4, -1), (5, -1), (6, -1)]);
    assert_eq!(got, want);
    assert_eq!(Coord::new(5, -2).neighbors().len(), 8);
}

#[test]
fn neighbors_stop_at_the_edge_of_the_plane() {
    let corner = Coord::new(isize::MAX, isize::MIN);
    let got: BTreeSet<(isize, isize)> = corner.neighbors().into_iter().map(|c| (c.x, c.y)).collect();
    let want = set(&[
        (isize::MAX - 1, isize::MIN),
        (isize::MAX - 1, isize::MIN + 1),
        (isize::MAX, isize::MIN + 1),
    ]);
    assert_eq!(got, want);
}

#[test]
fn set_alive_marks_cell_and_tracks_neighbors() {
    let mut grid = Grid::new();
    let c = Coord::new(3, 4);
    grid.set_alive(c);
    assert_eq!(grid.get(c), Some(CellState::Alive));
    for n in c.neighbors() {
        assert_eq!(grid.get(n), Some(CellState::Dead));
    }
    assert_eq!(grid.cells().len(), 9);
    assert_eq!(grid.get(Coord::new(5, 4)), None);
}

#[test]
fn set_alive_keeps_existing_entries() {
    let mut grid = Grid::new();
    grid.set_alive(Coord::new(0, 0));
    grid.set_alive(Coord::new(1, 0));
    assert_eq!(grid.get(Coord::new(0, 0)), Some(CellState::Alive));
    assert_eq!(grid.get(Coord::new(1, 0)), Some(CellState::Alive));
    assert_eq!(grid.get(Coord::new(2, 0)), Some(CellState::Dead));
    assert_eq!(grid.cells().len(), 12);
}

#[test]
fn set_alive_twice_is_set_alive_once() {
    let mut once = seed(&[(0, 0), (4, 4)]);
    once.set_alive(Coord::new(1, 1));
    let mut twice = seed(&[(0, 0), (4, 4)]);
    twice.set_alive(Coord::new(1, 1));
    twice.set_alive(Coord::new(1, 1));
    assert_eq!(entries(&once), entries(&twice));
}

#[test]
fn set_dead_twice_is_set_dead_once() {
    let mut once = seed(&[(0, 0), (1, 0)]);
    once.set_dead(Coord::new(1, 0));
    let mut twice = seed(&[(0, 0), (1, 0)]);
    twice.set_dead(Coord::new(1, 0));
    twice.set_dead(Coord::new(1, 0));
    assert_eq!(entries(&once), entries(&twice));
}

#[test]
fn set_dead_removes_the_entry() {
    let mut grid = seed(&[(0, 0)]);
    grid.set_dead(Coord::new(0, 0));
    assert_eq!(grid.get(Coord::new(0, 0)), None);
    assert_eq!(grid.state(Coord::new(0, 0)), CellState::Dead);
    assert_eq!(grid.get(Coord::new(1, 1)), Some(CellState::Dead));
    assert_eq!(grid.cells().len(), 8);
}

#[test]
fn state_treats_untracked_as_dead() {
    let grid = seed(&[(2, 2)]);
    assert_eq!(grid.state(Coord::new(2, 2)), CellState::Alive);
    assert_eq!(grid.state(Coord::new(2, 3)), CellState::Dead);
    assert_eq!(grid.state(Coord::new(100, 100)), CellState::Dead);
}

#[test]
fn living_neighbor_counts() {
    let grid = seed(&[(0, 0), (1, 0), (2, 0), (1, 1)]);
    assert_eq!(grid.living_neighbor_count(Coord::new(1, 0)), 3);
    assert_eq!(grid.living_neighbor_count(Coord::new(1, -1)), 3);
    assert_eq!(grid.living_neighbor_count(Coord::new(0, 0)), 2);
    assert_eq!(grid.living_neighbor_count(Coord::new(1, 2)), 1);
    assert_eq!(grid.living_neighbor_count(Coord::new(10, 10)), 0);
    let listed: BTreeSet<(isize, isize)> = grid
        .living_neighbors(Coord::new(1, 0))
        .into_iter()
        .map(|(c, s)| {
            assert_eq!(s, CellState::Alive);
            (c.x, c.y)
        })
        .collect();
    assert_eq!(listed, set(&[(0, 0), (2, 0), (1, 1)]));
}

#[test]
fn full_neighbourhood_counts_eight() {
    let mut grid = Grid::new();
    for x in -1..=1 {
        for y in -1..=1 {
            grid.set_alive(Coord::new(x, y));
        }
    }
    assert_eq!(grid.living_neighbor_count(Coord::new(0, 0)), 8);
}

#[test]
fn block_is_still_life() {
    let block = [(0, 0), (1, 0), (0, 1), (1, 1)];
    let grid = seed(&block);
    let next = grid.step();
    assert_eq!(alive(&next), set(&block));
    assert_eq!(entries(&next), entries(&grid));
}

#[test]
fn blinker_oscillates() {
    let mut grid = seed(&[(0, 0), (1, 0), (2, 0)]);
    grid.update();
    assert_eq!(alive(&grid), set(&[(1, -1), (1, 0), (1, 1)]));
    grid.update();
    assert_eq!(alive(&grid), set(&[(0, 0), (1, 0), (2, 0)]));
}

#[test]
fn lone_cell_dies() {
    let mut grid = seed(&[(7, -7)]);
    grid.update();
    assert_eq!(alive(&grid).len(), 0);
    assert!(grid.cells().is_empty());
}

#[test]
fn birth_needs_exactly_three() {
    let grid = seed(&[(0, 0), (2, 0), (0, 2)]);
    let next = grid.step();
    assert_eq!(alive(&next), set(&[(1, 1)]));
    let next = seed(&[(0, 0), (2, 0)]).step();
    assert!(alive(&next).is_empty());
}

#[test]
fn overcrowded_cell_dies() {
    let grid = seed(&[(1, 1), (0, 0), (2, 0), (0, 2), (2, 2)]);
    let next = grid.step();
    assert!(!alive(&next).contains(&(1, 1)));
    assert_eq!(alive(&next), set(&[(1, 0), (0, 1), (2, 1), (1, 2)]));
}

#[test]
fn glider_drifts() {
    let glider = [(1, 0), (2, 1), (0, 2), (1, 2), (2, 2)];
    let mut grid = seed(&glider);
    for _ in 0..4 {
        grid.update();
    }
    let moved: BTreeSet<(isize, isize)> = glider.iter().map(|&(x, y)| (x + 1, y + 1)).collect();
    assert_eq!(alive(&grid), moved);
    for _ in 0..400 {
        grid.update();
    }
    let far: BTreeSet<(isize, isize)> = glider.iter().map(|&(x, y)| (x + 101, y + 101)).collect();
    assert_eq!(alive(&grid), far);
}

#[test]
fn step_matches_update() {
    let grid = seed(&[(0, 0), (1, 0), (2, 0), (2, 1), (5, 5)]);
    let stepped = grid.step();
    let mut updated = seed(&[(0, 0), (1, 0), (2, 0), (2, 1), (5, 5)]);
    updated.update();
    assert_eq!(entries(&stepped), entries(&updated));
}

#[test]
fn untracked_dead_cell_is_not_born() {
    let mut grid = seed(&[(0, 0), (2, 0), (1, 2)]);
    grid.set_dead(Coord::new(1, 1));
    let next = grid.step();
    assert!(!alive(&next).contains(&(1, 1)));
}

#[test]
fn life_at_the_edge_of_the_plane() {
    let m = isize::MAX;
    let mut grid = seed(&[(m, 0), (m, 1), (m, 2)]);
    assert_eq!(grid.cells().len(), 10);
    grid.update();
    assert_eq!(alive(&grid), set(&[(m - 1, 1), (m, 1)]));
}
