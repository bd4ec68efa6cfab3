use sand_sim::render::{EMPTY_COLOR, SAND_COLOR, STONE_COLOR};
use sand_sim::{Cell, Simulation};

#[test]
fn colors_are_fixed() {
    assert_eq!(Cell::Empty.color(), 0);
    assert_eq!(Cell::Sand.color(), 0xFFFFFFFF);
    assert_eq!(Cell::Stone.color(), 0x999999FF);
    assert_eq!(EMPTY_COLOR, 0);
    assert_eq!(SAND_COLOR, 0xFFFFFFFF);
    assert_eq!(STONE_COLOR, 0x999999FF);
}

#[test]
fn buffer_follows_the_grid_layout() {
    let mut sim = Simulation::new(3, 2);
    sim.grid[1] = Cell::Sand;
    sim.grid[3] = Cell::Stone;
    sim.grid[5] = Cell::Sand;
    let mut buffer = vec![7u32; 6];
    sim.draw_to_buffer(&mut buffer);
    assert_eq!(buffer, vec![0, 0xFFFFFFFF, 0, 0x999999FF, 0, 0xFFFFFFFF]);
}

#[test]
fn short_buffer_is_grown() {
    let mut sim = Simulation::new(2, 2);
    sim.grid[3] = Cell::Stone;
    let mut buffer: Vec<u32> = Vec::new();
    sim.draw_to_buffer(&mut buffer);
    assert_eq!(buffer, vec![0, 0, 0, 0x999999FF]);
}

#[test]
fn long_buffer_is_cut() {
    let mut sim = Simulation::new(2, 1);
    sim.grid[0] = Cell::Sand;
    let mut buffer = vec![5u32; 10];
    sim.draw_to_buffer(&mut buffer);
    assert_eq!(buffer, vec![0xFFFFFFFF, 0]);
}

#[test]
fn drawing_leaves_the_grid_alone() {
    let mut sim = Simulation::new(3, 3);
    sim.grid[4] = Cell::Sand;
    let before = sim.grid.clone();
    let mut buffer = Vec::new();
    sim.draw_to_buffer(&mut buffer);
    assert_eq!(sim.grid, before);
    assert_eq!(buffer.len(), 9);
}
