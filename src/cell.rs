use vstd::prelude::*;

verus! {

/// A board of liveness values, indexed by row (`y`) and then by column (`x`).
pub type Board = Seq<Seq<bool>>;

/// Whether `(x, y)` lies on the board and the cell there is alive.
/// Positions off the board (negative or past an edge) are absent, never wrapped.
pub open spec fn live_at(b: Board, x: int, y: int) -> bool {
    0 <= y < b.len() && 0 <= x < b[y].len() && b[y][x]
}

/// One when `(x, y)` holds a live cell, zero otherwise.
pub open spec fn live_bit(b: Board, x: int, y: int) -> int {
    if live_at(b, x, y) { 1 } else { 0 }
}

/// The number of live cells among the eight Moore neighbours of `(x, y)`.
pub open spec fn live_neighbors(b: Board, x: int, y: int) -> int {
    live_bit(b, x - 1, y - 1) + live_bit(b, x - 1, y) + live_bit(b, x - 1, y + 1)
        + live_bit(b, x, y - 1) + live_bit(b, x, y + 1)
        + live_bit(b, x + 1, y - 1) + live_bit(b, x + 1, y) + live_bit(b, x + 1, y + 1)
}

/// The rule: a live cell survives with two or three live neighbours,
/// a dead cell comes alive with exactly three.
pub open spec fn next_alive(alive: bool, n: int) -> bool {
    if alive { n == 2 || n == 3 } else { n == 3 }
}

/// The liveness of `(x, y)` in the generation after `b`.
pub open spec fn next_cell(b: Board, x: int, y: int) -> bool {
    next_alive(live_at(b, x, y), live_neighbors(b, x, y))
}

/// The generation after `b`: every cell is derived from `b` alone.
pub open spec fn step(b: Board) -> Board {
    Seq::new(b.len(), |y: int| Seq::new(b[y].len(), |x: int| next_cell(b, x, y)))
}

/// The glyph of a cell: `'o'` when alive, `'.'` when dead.
pub open spec fn glyph(alive: bool) -> char {
    if alive {
        'o'
    } else {
        '.'
    }
}

/// One position of the grid, with its current liveness and the liveness
/// computed for the next generation but not yet committed.
#[derive(Debug, Clone, Copy)]
pub struct Cell {
    pub x: i32,
    pub y: i32,
    pub alive: bool,
    pub next_generation: bool,
}

/// The `k`-th of the eight Moore offsets, as `(dx, dy)`.
pub open spec fn offset(k: int) -> (int, int) {
    if k == 0 { (-1, -1) }
    else if k == 1 { (-1, 0) }
    else if k == 2 { (-1, 1) }
    else if k == 3 { (0, -1) }
    else if k == 4 { (0, 1) }
    else if k == 5 { (1, -1) }
    else if k == 6 { (1, 0) }
    else { (1, 1) }
}

/// Whether a cell stands at `(x, y)` with liveness `alive`.
pub open spec fn cell_with(b: Board, x: int, y: int, alive: bool) -> bool {
    0 <= y < b.len() && 0 <= x < b[y].len() && b[y][x] == alive
}

/// How many of the first `k` neighbours of `(x, y)` exist with liveness `alive`.
pub open spec fn neighbors_with(b: Board, x: int, y: int, alive: bool, k: int) -> int
    decreases k,
{
    if k <= 0 {
        0
    } else {
        neighbors_with(b, x, y, alive, k - 1) + if cell_with(
            b,
            x + offset(k - 1).0,
            y + offset(k - 1).1,
            alive,
        ) {
            1int
        } else {
            0int
        }
    }
}

/// Counting the neighbours that are alive over all eight offsets gives `live_neighbors`.
pub proof fn lemma_neighbors_with_live(b: Board, x: int, y: int)
    ensures
        neighbors_with(b, x, y, true, 8) == live_neighbors(b, x, y),
        0 <= neighbors_with(b, x, y, true, 8) <= 8,
{
    reveal_with_fuel(neighbors_with, 9);
}

/// The liveness values of a grid of cells.
pub open spec fn board_of(cells: Seq<Vec<Cell>>) -> Board {
    Seq::new(cells.len(), |y: int| Seq::new(cells[y]@.len(), |x: int| cells[y]@[x].alive))
}

/// Every cell of the grid sits at the coordinates of its own index,
/// so that each position holds exactly one cell.
pub open spec fn grid_wf(cells: Seq<Vec<Cell>>) -> bool {
    forall|y: int, x: int|
        0 <= y < cells.len() && 0 <= x < cells[y]@.len() ==> (#[trigger] cells[y]@[x]).x == x
            && cells[y]@[x].y == y
}

impl Cell {
    pub fn new(x: i32, y: i32, alive: bool) -> (r: Cell)
        ensures
            r.x == x,
            r.y == y,
            r.alive == alive,
            !r.next_generation,
    {
        Cell { x, y, alive, next_generation: false }
    }

    /// The positions of the eight neighbours, each distinct.
    fn get_adjacent_cells_position(&self) -> (r: Vec<(i64, i64)>)
        ensures
            r@.len() == 8,
            forall|k: int|
                0 <= k < 8 ==> #[trigger] r@[k].0 == self.x + offset(k).0
                && r@[k].1 == self.y + offset(k).1,
            forall|k: int, l: int| 0 <= k < l < 8 ==> #[trigger] r@[k] != #[trigger] r@[l],
    {
        let x = self.x as i64;
        let y = self.y as i64;
        vec![
            (x - 1, y - 1),
            (x - 1, y),
            (x - 1, y + 1),
            (x, y - 1),
            (x, y + 1),
            (x + 1, y - 1),
            (x + 1, y),
            (x + 1, y + 1),
        ]
    }

    /// The cell at `(x, y)` of a well-formed grid, if the grid extends that far.
    fn get_cell_at_position<'a>(&self, cells: &'a Vec<Vec<Cell>>, x: i64, y: i64) -> (r: Option<
        &'a Cell,
    >)
        requires
            grid_wf(cells@),
            x >= 0,
            y >= 0,
        ensures
            r == (if y < cells@.len() && x < cells@[y as int]@.len() {
                Some(&cells@[y as int]@[x as int])
            } else {
                None
            }),
            r matches Some(c) ==> c.x == x && c.y == y,
    {
        if (y as u64) < (cells.len() as u64) {
            let row = &cells[y as usize];
            if (x as u64) < (row.len() as u64) {
                return Some(&row[x as usize]);
            }
        }
        None
    }

    /// The number of neighbours of this cell in `cells` whose liveness is `alive`.
    /// Neighbours at negative coordinates or past the grid's far edges are absent.
    fn get_neighbors_count(&self, cells: &Vec<Vec<Cell>>, alive: bool) -> (r: usize)
        requires
            grid_wf(cells@),
        ensures
            r == neighbors_with(board_of(cells@), self.x as int, self.y as int, alive, 8),
            r <= 8,
    {
        let ghost b = board_of(cells@);
        let positions = self.get_adjacent_cells_position();
        let mut count: usize = 0;
        let mut k: usize = 0;
        while k < positions.len()
            invariant
                positions@.len() == 8,
                forall|j: int|
                    0 <= j < 8 ==> #[trigger] positions@[j].0 == self.x + offset(j).0
                    && positions@[j].1 == self.y + offset(j).1,
                grid_wf(cells@),
                b == board_of(cells@),
                0 <= k <= 8,
                count == neighbors_with(b, self.x as int, self.y as int, alive, k as int),
                count <= k,
            decreases 8 - k,
        {
            let (x, y) = positions[k];
            proof {
                reveal_with_fuel(neighbors_with, 2);
            }
            if x >= 0 && y >= 0 {
                match self.get_cell_at_position(cells, x, y) {
                    Some(cell) => {
                        if cell.alive == alive {
                            count = count + 1;
                        }
                    },
                    None => {},
                }
            }
            k = k + 1;
        }
        count
    }

    /// For a live cell, sets `next_generation` to whether it survives.
    fn should_live(&mut self, cells: &Vec<Vec<Cell>>)
        requires
            grid_wf(cells@),
        ensures
            final(self).x == old(self).x,
            final(self).y == old(self).y,
            final(self).alive == old(self).alive,
            final(self).next_generation == if old(self).alive {
                next_alive(true, live_neighbors(board_of(cells@), old(self).x as int, old(self).y as int))
            } else {
                old(self).next_generation
            },
    {
        if !self.alive {
            return;
        }
        let n = self.get_neighbors_count(cells, true);
        proof {
            lemma_neighbors_with_live(board_of(cells@), self.x as int, self.y as int);
        }
        self.next_generation = n == 2 || n == 3;
    }

    /// For a dead cell, sets `next_generation` to whether it comes alive.
    fn should_spawn(&mut self, cells: &Vec<Vec<Cell>>)
        requires
            grid_wf(cells@),
        ensures
            final(self).x == old(self).x,
            final(self).y == old(self).y,
            final(self).alive == old(self).alive,
            final(self).next_generation == if !old(self).alive {
                next_alive(false, live_neighbors(board_of(cells@), old(self).x as int, old(self).y as int))
            } else {
                old(self).next_generation
            },
    {
        if self.alive {
            return;
        }
        let n = self.get_neighbors_count(cells, true);
        proof {
            lemma_neighbors_with_live(board_of(cells@), self.x as int, self.y as int);
        }
        self.next_generation = n == 3;
    }

    /// Commits the computed next generation: `alive` takes the value of `next_generation`.
    /// Called once every cell of the grid has been updated for the same generation.
    pub fn finalize_generation(&mut self)
        ensures
            *final(self) == (Cell { alive: old(self).next_generation, ..*old(self) }),
    {
        self.alive = self.next_generation;
    }

    /// Computes `next_generation` from this cell's liveness and its live
    /// neighbours in `cells`, which is left as it stands.
    pub fn update(&mut self, cells: &Vec<Vec<Cell>>)
        requires
            grid_wf(cells@),
        ensures
            final(self).x == old(self).x,
            final(self).y == old(self).y,
            final(self).alive == old(self).alive,
            final(self).next_generation == next_alive(
                old(self).alive,
                live_neighbors(board_of(cells@), old(self).x as int, old(self).y as int),
            ),
    {
        if self.alive {
            self.should_live(cells);
        } else {
            self.should_spawn(cells);
        }
    }

    /// The glyph that shows this cell: `'o'` when alive, `'.'` when dead.
    pub fn symbol(&self) -> (r: char)
        ensures
            r == glyph(self.alive),
    {
        if self.alive { 'o' } else { '.' }
    }
}

} // verus!
