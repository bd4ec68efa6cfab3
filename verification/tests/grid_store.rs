use sand_sim::{Cell, Simulation};

#[test]
fn new_grid_is_all_empty() {
    let sim = Simulation::new(4, 3);
    assert_eq!(sim.width, 4);
    assert_eq!(sim.height, 3);
    assert_eq!(sim.width(), 4);
    assert_eq!(sim.height(), 3);
    assert_eq!(sim.grid.len(), 12);
    assert!(sim.grid.iter().all(|c| *c == Cell::Empty));
}

#[test]
fn try_new_rejects_zero_dimensions() {
    assert!(Simulation::try_new(0, 5).is_none());
    assert!(Simulation::try_new(5, 0).is_none());
    assert!(Simulation::try_new(0, 0).is_none());
}

#[test]
fn try_new_rejects_a_cell_count_that_does_not_fit() {
    assert!(Simulation::try_new(usize::MAX, 2).is_none());
}

#[test]
fn try_new_accepts_positive_dimensions() {
    let sim = Simulation::try_new(2, 3).unwrap();
    assert_eq!(sim.width, 2);
    assert_eq!(sim.height, 3);
    assert_eq!(sim.grid, vec![Cell::Empty; 6]);
}

#[test]
fn set_then_get_reads_back() {
    let mut sim = Simulation::new(3, 2);
    assert!(sim.set(2, 1, Cell::Stone));
    assert!(sim.set(0, 0, Cell::Sand));
    assert_eq!(sim.get(2, 1), Cell::Stone);
    assert_eq!(sim.get(0, 0), Cell::Sand);
    assert_eq!(sim.get(1, 1), Cell::Empty);
    assert_eq!(sim.grid[5], Cell::Stone);
    assert_eq!(sim.grid[0], Cell::Sand);
}

#[test]
fn get_off_the_grid_is_empty() {
    let mut sim = Simulation::new(2, 2);
    for i in 0..4 {
        sim.grid[i] = Cell::Stone;
    }
    assert_eq!(sim.get(2, 0), Cell::Empty);
    assert_eq!(sim.get(0, 2), Cell::Empty);
    assert_eq!(sim.get(usize::MAX, usize::MAX), Cell::Empty);
    assert_eq!(sim.get(1, 1), Cell::Stone);
}

#[test]
fn set_off_the_grid_is_rejected() {
    let mut sim = Simulation::new(2, 2);
    assert!(!sim.set(2, 0, Cell::Sand));
    assert!(!sim.set(0, 2, Cell::Sand));
    assert!(!sim.set(usize::MAX, 1, Cell::Sand));
    assert_eq!(sim.grid, vec![Cell::Empty; 4]);
    assert_eq!(sim.width, 2);
    assert_eq!(sim.height, 2);
}

#[test]
fn set_does_not_wrap_into_the_next_row() {
    let mut sim = Simulation::new(3, 3);
    assert!(!sim.set(3, 0, Cell::Sand));
    assert_eq!(sim.get(0, 1), Cell::Empty);
}

#[test]
fn is_empty_by_index() {
    let mut sim = Simulation::new(2, 2);
    sim.grid[1] = Cell::Sand;
    sim.grid[2] = Cell::Stone;
    assert!(sim.is_empty(0));
    assert!(!sim.is_empty(1));
    assert!(!sim.is_empty(2));
    assert!(sim.is_empty(3));
}

#[test]
fn is_empty_past_the_last_cell() {
    let mut sim = Simulation::new(2, 2);
    for i in 0..4 {
        sim.grid[i] = Cell::Sand;
    }
    assert!(sim.is_empty(4));
    assert!(sim.is_empty(usize::MAX));
}
