use sand_sim::{Cell, Simulation};

fn painted_cells(sim: &Simulation, kind: Cell) -> Vec<(usize, usize)> {
    let mut out = Vec::new();
    for y in 0..sim.height {
        for x in 0..sim.width {
            if sim.grid[x + y * sim.width] == kind {
                out.push((x, y));
            }
        }
    }
    out
}

#[test]
fn box_covers_the_half_open_square() {
    let mut sim = Simulation::new(8, 8);
    sim.set_box(4, 3, 2, Cell::Stone);
    let mut expected = Vec::new();
    for y in 1..5 {
        for x in 2..6 {
            expected.push((x, y));
        }
    }
    assert_eq!(painted_cells(&sim, Cell::Stone), expected);
    assert_eq!(painted_cells(&sim, Cell::Empty).len(), 64 - 16);
}

#[test]
fn box_of_extend_one_is_two_by_two() {
    let mut sim = Simulation::new(4, 4);
    sim.set_box(2, 2, 1, Cell::Sand);
    assert_eq!(painted_cells(&sim, Cell::Sand), vec![(1, 1), (2, 1), (1, 2), (2, 2)]);
}

#[test]
fn box_is_clipped_at_the_top_left() {
    let mut sim = Simulation::new(5, 4);
    sim.set_box(0, 0, 2, Cell::Sand);
    assert_eq!(painted_cells(&sim, Cell::Sand), vec![(0, 0), (1, 0), (0, 1), (1, 1)]);
    assert_eq!(sim.width, 5);
    assert_eq!(sim.height, 4);
    assert_eq!(sim.grid.len(), 20);
}

#[test]
fn box_is_clipped_at_the_bottom_right() {
    let mut sim = Simulation::new(5, 4);
    sim.set_box(5, 4, 2, Cell::Stone);
    assert_eq!(painted_cells(&sim, Cell::Stone), vec![(3, 2), (4, 2), (3, 3), (4, 3)]);
    assert_eq!(sim.grid.len(), 20);
}

#[test]
fn box_does_not_wrap_round_the_edge() {
    let mut sim = Simulation::new(4, 3);
    sim.set_box(4, 1, 1, Cell::Sand);
    // Columns 3 and 4 of rows 0 and 1: column 4 is off the grid.
    assert_eq!(painted_cells(&sim, Cell::Sand), vec![(3, 0), (3, 1)]);
}

#[test]
fn box_off_the_grid_changes_nothing() {
    let mut sim = Simulation::new(4, 4);
    sim.grid[5] = Cell::Sand;
    let before = sim.grid.clone();
    sim.set_box(-10, -10, 3, Cell::Stone);
    sim.set_box(100, 2, 5, Cell::Stone);
    sim.set_box(2, 100, 5, Cell::Stone);
    sim.set_box(i32::MIN, i32::MIN, i32::MAX, Cell::Stone);
    assert_eq!(sim.grid, before);
    assert_eq!(sim.width, 4);
    assert_eq!(sim.height, 4);
}

#[test]
fn box_with_extreme_arguments_does_not_overflow() {
    let mut sim = Simulation::new(3, 3);
    // The square from 0 up to twice the largest coordinate.
    sim.set_box(i32::MAX, i32::MAX, i32::MAX, Cell::Stone);
    assert_eq!(sim.grid, vec![Cell::Stone; 9]);
    // The columns of this square end left of column 0.
    sim.set_box(i32::MIN, 0, i32::MAX, Cell::Sand);
    assert_eq!(sim.grid, vec![Cell::Stone; 9]);
    sim.set_box(0, i32::MIN, i32::MAX, Cell::Sand);
    assert_eq!(sim.grid, vec![Cell::Stone; 9]);
    sim.set_box(i32::MAX, 1, 1, Cell::Sand);
    assert_eq!(sim.grid, vec![Cell::Stone; 9]);
    sim.set_box(-1, -1, i32::MAX, Cell::Sand);
    assert_eq!(sim.grid, vec![Cell::Sand; 9]);
    assert_eq!(sim.width, 3);
    assert_eq!(sim.height, 3);
}

#[test]
fn box_without_extend_holds_no_cell() {
    let mut sim = Simulation::new(4, 4);
    sim.set_box(2, 2, 0, Cell::Sand);
    sim.set_box(2, 2, -3, Cell::Sand);
    sim.set_box(2, 2, i32::MIN, Cell::Sand);
    assert_eq!(sim.grid, vec![Cell::Empty; 16]);
}

#[test]
fn box_larger_than_the_grid_fills_it() {
    let mut sim = Simulation::new(6, 3);
    sim.set_box(3, 1, 50, Cell::Sand);
    assert_eq!(sim.grid, vec![Cell::Sand; 18]);
    assert_eq!(sim.grid.len(), 18);
}

#[test]
fn box_overwrites_whatever_was_there() {
    let mut sim = Simulation::new(4, 4);
    sim.set_box(2, 2, 2, Cell::Stone);
    sim.set_box(1, 1, 1, Cell::Sand);
    sim.set_box(3, 3, 1, Cell::Empty);
    assert_eq!(painted_cells(&sim, Cell::Sand), vec![(0, 0), (1, 0), (0, 1), (1, 1)]);
    assert_eq!(painted_cells(&sim, Cell::Empty), vec![(2, 2), (3, 2), (2, 3), (3, 3)]);
    assert_eq!(painted_cells(&sim, Cell::Stone).len(), 8);
}
