use sand_sim::{Cell, Simulation};

fn cells(rows: &[&str]) -> Vec<Cell> {
    let mut out = Vec::new();
    for row in rows {
        for ch in row.chars() {
            out.push(match ch {
                'S' => Cell::Sand,
                '#' => Cell::Stone,
                _ => Cell::Empty,
            });
        }
    }
    out
}

fn scene(width: usize, height: usize, rows: &[&str]) -> Simulation {
    let mut sim = Simulation::new(width, height);
    sim.grid = cells(rows);
    sim
}

fn count(sim: &Simulation, kind: Cell) -> usize {
    sim.grid.iter().filter(|c| **c == kind).count()
}

fn scattered(width: usize, height: usize, seed: u32) -> Simulation {
    let mut sim = Simulation::new(width, height);
    let mut state = seed;
    for i in 0..sim.grid.len() {
        state = state.wrapping_mul(1664525).wrapping_add(1013904223);
        sim.grid[i] = match (state >> 24) % 5 {
            0 | 1 => Cell::Sand,
            2 => Cell::Stone,
            _ => Cell::Empty,
        };
    }
    sim
}

#[test]
fn sand_is_conserved() {
    let mut sim = scattered(31, 27, 7);
    let sand = count(&sim, Cell::Sand);
    let stone = count(&sim, Cell::Stone);
    assert!(sand > 0);
    for _ in 0..60 {
        sim.update();
        assert_eq!(count(&sim, Cell::Sand), sand);
        assert_eq!(count(&sim, Cell::Stone), stone);
        assert_eq!(sim.grid.len(), 31 * 27);
    }
}

#[test]
fn stone_never_moves() {
    let mut sim = scattered(16, 16, 99);
    let stones: Vec<bool> = sim.grid.iter().map(|c| *c == Cell::Stone).collect();
    for _ in 0..40 {
        sim.update();
        let now: Vec<bool> = sim.grid.iter().map(|c| *c == Cell::Stone).collect();
        assert_eq!(now, stones);
    }
}

#[test]
fn sand_on_the_floor_stays() {
    let mut sim = scene(4, 3, &["....", "....", "S.SS"]);
    let before = sim.grid.clone();
    for _ in 0..5 {
        sim.update();
        assert_eq!(sim.grid, before);
    }
}

#[test]
fn floor_row_keeps_its_grains_while_others_fall() {
    let mut sim = scene(3, 3, &["S..", "...", ".S."]);
    sim.update();
    assert_eq!(sim.grid, cells(&["...", "S..", ".S."]));
    sim.update();
    assert_eq!(sim.grid, cells(&["...", "...", "SS."]));
}

#[test]
fn grid_without_sand_is_unchanged() {
    let mut sim = scene(4, 3, &["#..#", ".##.", "...#"]);
    let before = sim.grid.clone();
    for _ in 0..10 {
        sim.update();
        assert_eq!(sim.grid, before);
    }
}

#[test]
fn empty_grid_is_unchanged() {
    let mut sim = Simulation::new(5, 5);
    sim.update();
    assert_eq!(sim.grid, vec![Cell::Empty; 25]);
}

#[test]
fn single_grain_falls_one_row_per_frame() {
    let n = 9;
    let mut sim = Simulation::new(1, n);
    sim.grid[0] = Cell::Sand;
    for step in 1..n {
        sim.update();
        for y in 0..n {
            let expected = if y == step { Cell::Sand } else { Cell::Empty };
            assert_eq!(sim.grid[y], expected, "row {} after {} frames", y, step);
        }
    }
    assert_eq!(sim.grid[n - 1], Cell::Sand);
    sim.update();
    assert_eq!(sim.grid[n - 1], Cell::Sand);
    assert_eq!(count(&sim, Cell::Sand), 1);
}

#[test]
fn straight_down_beats_the_diagonals() {
    let mut sim = scene(3, 2, &[".S.", "#.#"]);
    sim.update();
    assert_eq!(sim.grid, cells(&["...", "#S#"]));
}

#[test]
fn straight_down_beats_free_diagonals() {
    let mut sim = scene(3, 2, &[".S.", "..."]);
    sim.update();
    assert_eq!(sim.grid, cells(&["...", ".S."]));
}

#[test]
fn grain_slides_off_a_peak() {
    for _ in 0..50 {
        let mut sim = scene(3, 2, &[".S.", ".#."]);
        sim.update();
        let left = cells(&["...", "S#."]);
        let right = cells(&["...", ".#S"]);
        assert!(sim.grid == left || sim.grid == right);
    }
}

#[test]
fn grain_slides_to_the_only_free_side() {
    let mut sim = scene(3, 2, &[".S.", "##."]);
    sim.update();
    assert_eq!(sim.grid, cells(&["...", "##S"]));
    let mut other = scene(3, 2, &[".S.", ".##"]);
    other.update();
    assert_eq!(other.grid, cells(&["...", "S##"]));
}

#[test]
fn loser_of_a_conflict_stays_where_it_was() {
    for _ in 0..50 {
        let mut sim = scene(3, 2, &["S#S", "#.#"]);
        sim.update();
        let left = cells(&[".#S", "#S#"]);
        let right = cells(&["S#.", "#S#"]);
        assert!(sim.grid == left || sim.grid == right);
        // The loser had nowhere else to go: it moves no further.
        let settled = sim.grid.clone();
        sim.update();
        assert_eq!(sim.grid, settled);
    }
}

#[test]
fn column_of_sand_falls_as_one() {
    let mut sim = scene(1, 4, &["S", "S", ".", "."]);
    sim.update();
    // Planned against the grid as it stood: only the lower grain had a free cell below.
    assert_eq!(sim.grid, cells(&["S", ".", "S", "."]));
    sim.update();
    assert_eq!(sim.grid, cells(&[".", "S", ".", "S"]));
    sim.update();
    assert_eq!(sim.grid, cells(&[".", ".", "S", "S"]));
    sim.update();
    assert_eq!(sim.grid, cells(&[".", ".", "S", "S"]));
}

#[test]
fn pile_comes_to_rest() {
    let mut sim = Simulation::new(9, 12);
    for y in 0..6 {
        sim.grid[4 + y * 9] = Cell::Sand;
    }
    for _ in 0..200 {
        sim.update();
    }
    assert_eq!(count(&sim, Cell::Sand), 6);
    let settled = sim.grid.clone();
    sim.update();
    assert_eq!(sim.grid, settled);
    // At rest no grain has a free cell below it or diagonally below it.
    for y in 0..11 {
        for x in 0..9 {
            assert_eq!(sim.update_pixel(x, y), None);
        }
    }
}

#[test]
fn update_keeps_the_size() {
    let mut sim = scattered(7, 5, 3);
    sim.update();
    assert_eq!(sim.width, 7);
    assert_eq!(sim.height, 5);
    assert_eq!(sim.grid.len(), 35);
}
