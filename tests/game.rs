use game_of_life::cell::Cell;
use game_of_life::gameoflife::{random_starting_cells, Game};

fn live_cells(game: &Game, width: usize, height: usize) -> Vec<[usize; 2]> {
    let mut out = Vec::new();
    for y in 0..height {
        for x in 0..width {
            if game.is_alive(x, y) {
                out.push([x, y]);
            }
        }
    }
    out
}

fn grid_of(width: i32, height: i32, live: &[[i32; 2]]) -> Vec<Vec<Cell>> {
    let mut grid = Vec::new();
    for y in 0..height {
        let mut row = Vec::new();
        for x in 0..width {
            row.push(Cell::new(x, y, live.contains(&[x, y])));
        }
        grid.push(row);
    }
    grid
}

#[test]
fn cell_new_sets_position_and_liveness() {
    let c = Cell::new(3, 4, true);
    assert_eq!(c.x, 3);
    assert_eq!(c.y, 4);
    assert!(c.alive);
    assert!(!c.next_generation);
}

#[test]
fn lonely_live_cell_dies() {
    let grid = grid_of(3, 3, &[[1, 1]]);
    let mut c = grid[1][1];
    c.update(&grid);
    assert!(c.alive);
    assert!(!c.next_generation);
    c.finalize_generation();
    assert!(!c.alive);
}

#[test]
fn live_cell_with_two_neighbors_survives() {
    let grid = grid_of(3, 3, &[[0, 0], [1, 1], [2, 2]]);
    let mut c = grid[1][1];
    c.update(&grid);
    assert!(c.next_generation);
}

#[test]
fn live_cell_with_four_neighbors_dies() {
    let grid = grid_of(3, 3, &[[0, 0], [2, 0], [1, 1], [0, 2], [2, 2]]);
    let mut c = grid[1][1];
    c.update(&grid);
    assert!(!c.next_generation);
}

#[test]
fn dead_cell_with_three_neighbors_spawns() {
    let grid = grid_of(3, 3, &[[0, 0], [2, 0], [0, 2]]);
    let mut c = grid[1][1];
    c.update(&grid);
    assert!(c.next_generation);
    c.finalize_generation();
    assert!(c.alive);
}

#[test]
fn dead_cell_with_two_neighbors_stays_dead() {
    let grid = grid_of(3, 3, &[[0, 0], [2, 0]]);
    let mut c = grid[1][1];
    c.update(&grid);
    assert!(!c.next_generation);
}

#[test]
fn corner_cell_does_not_wrap() {
    // Under wrap-around the far corners would be three live neighbours of the origin.
    let grid = grid_of(3, 3, &[[2, 0], [0, 2], [2, 2]]);
    let mut c = grid[0][0];
    c.update(&grid);
    assert!(!c.next_generation);

    let mut game = Game::new(3, 3, vec![[2, 0], [0, 2], [2, 2]]);
    game.update();
    assert!(!game.is_alive(0, 0));
}

#[test]
fn corner_cell_counts_its_three_neighbors() {
    let grid = grid_of(3, 3, &[[1, 0], [0, 1], [1, 1]]);
    let mut c = grid[0][0];
    c.update(&grid);
    assert!(c.next_generation);
}

#[test]
fn symbol_shows_liveness() {
    assert_eq!(Cell::new(0, 0, true).symbol(), 'o');
    assert_eq!(Cell::new(0, 0, false).symbol(), '.');
}

#[test]
fn new_marks_listed_cells_only() {
    let game = Game::new(4, 3, vec![[0, 0], [3, 2], [3, 2], [9, 9], [1, 5]]);
    assert_eq!(live_cells(&game, 4, 3), vec![[0, 0], [3, 2]]);
    assert_eq!(game.generation(), 0);
    assert!(!game.is_alive(9, 9));
}

#[test]
fn empty_grid_stays_dead() {
    let mut game = Game::new(5, 5, vec![]);
    for _ in 0..10 {
        game.update();
        assert!(live_cells(&game, 5, 5).is_empty());
    }
}

#[test]
fn block_is_still_life() {
    let block = vec![[1, 1], [2, 1], [1, 2], [2, 2]];
    let mut game = Game::new(4, 4, block.clone());
    game.update();
    assert_eq!(live_cells(&game, 4, 4), vec![[1, 1], [2, 1], [1, 2], [2, 2]]);
    game.update();
    assert_eq!(live_cells(&game, 4, 4), vec![[1, 1], [2, 1], [1, 2], [2, 2]]);
}

#[test]
fn block_in_corner_is_still_life() {
    let mut game = Game::new(3, 3, vec![[0, 0], [1, 0], [0, 1], [1, 1]]);
    game.update();
    assert_eq!(live_cells(&game, 3, 3), vec![[0, 0], [1, 0], [0, 1], [1, 1]]);
}

#[test]
fn blinker_oscillates() {
    let mut game = Game::new(5, 5, vec![[1, 0], [1, 1], [1, 2]]);
    game.update();
    assert_eq!(live_cells(&game, 5, 5), vec![[0, 1], [1, 1], [2, 1]]);
    game.update();
    assert_eq!(live_cells(&game, 5, 5), vec![[1, 0], [1, 1], [1, 2]]);
}

#[test]
fn reversed_evaluation_order_gives_same_grid() {
    let live = [[1, 0], [2, 1], [0, 2], [1, 2], [2, 2]];
    let snapshot = grid_of(5, 5, &live);
    let mut reversed = snapshot.clone();
    for y in (0..5).rev() {
        for x in (0..5).rev() {
            reversed[y][x].update(&snapshot);
        }
    }
    for row in reversed.iter_mut() {
        for cell in row.iter_mut() {
            cell.finalize_generation();
        }
    }
    let live_u8: Vec<[u8; 2]> = live.iter().map(|p| [p[0] as u8, p[1] as u8]).collect();
    let mut game = Game::new(5, 5, live_u8);
    game.update();
    for y in 0..5 {
        for x in 0..5 {
            assert_eq!(game.is_alive(x, y), reversed[y][x].alive);
        }
    }
    // The glider moves to its next phase.
    assert_eq!(
        live_cells(&game, 5, 5),
        vec![[0, 1], [2, 1], [1, 2], [2, 2], [1, 3]]
    );
}

#[test]
fn generation_counts_updates() {
    let mut game = Game::new(3, 3, vec![[1, 1]]);
    assert_eq!(game.generation(), 0);
    for n in 1..=5u32 {
        game.update();
        assert_eq!(game.generation(), n);
    }
}

#[test]
fn render_shows_highest_row_first() {
    let game = Game::new(3, 2, vec![[0, 0], [2, 1]]);
    assert_eq!(game.render(), ". . o \no . . \n");
}

#[test]
fn render_of_empty_grid_is_empty() {
    let game = Game::new(0, 0, vec![[0, 0]]);
    assert_eq!(game.render(), "");
}

#[test]
fn random_cells_lie_on_grid_in_order() {
    let cells = random_starting_cells(7, 4);
    for c in &cells {
        assert!(c[0] < 7 && c[1] < 4);
    }
    for w in cells.windows(2) {
        assert!((w[0][1], w[0][0]) < (w[1][1], w[1][0]));
    }
}
