use sand_sim::simulation::{PixelState, Simulation};

fn scene(width: usize, height: usize, rows: &[&str]) -> Simulation {
    let mut sim = Simulation::new(width, height);
    sim.grid = pixels(rows);
    sim
}

fn pixels(rows: &[&str]) -> Vec<PixelState> {
    let mut out = Vec::new();
    for row in rows {
        for ch in row.chars() {
            out.push(if ch == 'S' { PixelState::Sand } else { PixelState::Empty });
        }
    }
    out
}

#[test]
fn plain_new_grid_is_all_empty() {
    let sim = Simulation::new(3, 2);
    assert_eq!(sim.width, 3);
    assert_eq!(sim.height, 2);
    assert_eq!(sim.grid, vec![PixelState::Empty; 6]);
}

#[test]
fn plain_new_grid_may_be_empty_of_cells() {
    let mut sim = Simulation::new(0, 4);
    assert_eq!(sim.grid.len(), 0);
    sim.update();
    assert_eq!(sim.grid.len(), 0);
    let mut flat = Simulation::new(4, 0);
    flat.update();
    assert_eq!(flat.grid.len(), 0);
}

#[test]
fn plain_grain_falls_straight_down() {
    let mut sim = scene(3, 3, &[".S.", "...", "..."]);
    sim.update();
    assert_eq!(sim.grid, pixels(&["...", ".S.", "..."]));
    sim.update();
    assert_eq!(sim.grid, pixels(&["...", "...", ".S."]));
    sim.update();
    assert_eq!(sim.grid, pixels(&["...", "...", ".S."]));
}

#[test]
fn plain_grain_prefers_the_left_diagonal() {
    let mut sim = scene(3, 2, &[".S.", ".S."]);
    sim.update();
    assert_eq!(sim.grid, pixels(&["...", "SS."]));
}

#[test]
fn plain_grain_takes_the_right_diagonal_when_left_is_taken() {
    let mut sim = scene(3, 2, &[".S.", "SS."]);
    sim.update();
    assert_eq!(sim.grid, pixels(&["...", "SSS"]));
}

#[test]
fn plain_grain_with_no_way_down_stays() {
    let mut sim = scene(3, 2, &[".S.", "SSS"]);
    sim.update();
    assert_eq!(sim.grid, pixels(&[".S.", "SSS"]));
}

#[test]
fn plain_edges_have_no_outer_diagonal() {
    let mut sim = scene(2, 3, &["..", "S.", "S."]);
    sim.update();
    assert_eq!(sim.grid, pixels(&["..", "..", "SS"]));
    let mut other = scene(2, 3, &[".S", ".S", ".."]);
    other.update();
    // The upper grain slides left; the lower one falls.
    assert_eq!(other.grid, pixels(&["..", "S.", ".S"]));
}

#[test]
fn plain_grains_that_meet_become_one() {
    let mut sim = scene(2, 2, &["SS", ".S"]);
    sim.update();
    assert_eq!(sim.grid, pixels(&["..", "SS"]));
}

#[test]
fn plain_draw_to_buffer() {
    let sim = scene(2, 2, &["S.", ".S"]);
    let mut buffer = vec![9u32; 1];
    sim.draw_to_buffer(&mut buffer);
    assert_eq!(buffer, vec![0xFFFFFFFF, 0, 0, 0xFFFFFFFF]);
    let mut long = vec![9u32; 7];
    sim.draw_to_buffer(&mut long);
    assert_eq!(long, vec![0xFFFFFFFF, 0, 0, 0xFFFFFFFF]);
}
