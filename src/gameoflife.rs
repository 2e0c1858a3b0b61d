use vstd::prelude::*;

use crate::cell::{board_of, glyph, grid_wf, live_at, next_cell, step, Board, Cell};

verus! {

/// Whether `(x, y)` is among the listed positions.
pub open spec fn listed(cells: Seq<[u8; 2]>, x: int, y: int) -> bool {
    exists|k: int| 0 <= k < cells.len() && cells[k][0] == x && cells[k][1] == y
}

/// The board of generation zero: `height` rows of `width` cells, where a cell
/// is alive exactly when its position is listed. Listed positions off the
/// board have no cell and are ignored.
pub open spec fn initial_board(width: int, height: int, cells: Seq<[u8; 2]>) -> Board {
    Seq::new(height as nat, |y: int| Seq::new(width as nat, |x: int| listed(cells, x, y)))
}

/// Whether `(x, y)` is listed in `cells`.
fn is_listed(cells: &Vec<[u8; 2]>, x: u8, y: u8) -> (r: bool)
    ensures
        r == listed(cells@, x as int, y as int),
{
    let mut k: usize = 0;
    while k < cells.len()
        invariant
            0 <= k <= cells@.len(),
            forall|j: int| 0 <= j < k ==> !(cells@[j][0] == x && #[trigger] cells@[j][1] == y),
        decreases cells@.len() - k,
    {
        let target = cells[k];
        if target[0] == x && target[1] == y {
            return true;
        }
        k = k + 1;
    }
    false
}

/// The grid with every cell's `next_generation` computed from `grid`, which
/// is only read: no cell sees a neighbour that was already advanced.
fn compute_pending(grid: &Vec<Vec<Cell>>) -> (r: Vec<Vec<Cell>>)
    requires
        grid_wf(grid@),
    ensures
        r@.len() == grid@.len(),
        forall|y: int|
            0 <= y < r@.len() ==> (#[trigger] r@[y])@.len() == grid@[y]@.len(),
        forall|y: int, x: int|
            0 <= y < r@.len() && 0 <= x < r@[y]@.len() ==> (#[trigger] r@[y]@[x]).x == x
                && r@[y]@[x].y == y && r@[y]@[x].next_generation == next_cell(
                board_of(grid@),
                x,
                y,
            ),
{
    let ghost b = board_of(grid@);
    let mut pending: Vec<Vec<Cell>> = Vec::new();
    let mut i: usize = 0;
    while i < grid.len()
        invariant
            grid_wf(grid@),
            b == board_of(grid@),
            0 <= i <= grid@.len(),
            pending@.len() == i,
            forall|y: int| 0 <= y < i ==> (#[trigger] pending@[y])@.len() == grid@[y]@.len(),
            forall|y: int, x: int|
                0 <= y < i && 0 <= x < pending@[y]@.len() ==> (#[trigger] pending@[y]@[x]).x == x
                    && pending@[y]@[x].y == y && pending@[y]@[x].next_generation == next_cell(
                    b,
                    x,
                    y,
                ),
        decreases grid@.len() - i,
    {
        let mut row: Vec<Cell> = Vec::new();
        let mut j: usize = 0;
        while j < grid[i].len()
            invariant
                grid_wf(grid@),
                b == board_of(grid@),
                0 <= i < grid@.len(),
                0 <= j <= grid@[i as int]@.len(),
                row@.len() == j,
                forall|x: int|
                    0 <= x < j ==> (#[trigger] row@[x]).x == x && row@[x].y == i
                        && row@[x].next_generation == next_cell(b, x, i as int),
            decreases grid@[i as int]@.len() - j,
        {
            let mut cell: Cell = grid[i][j];
            assert(grid@[i as int]@[j as int].x == j && grid@[i as int]@[j as int].y == i);
            assert(live_at(b, j as int, i as int) == cell.alive);
            cell.update(grid);
            row.push(cell);
            j = j + 1;
        }
        pending.push(row);
        i = i + 1;
    }
    pending
}

/// The grid with every cell's computed `next_generation` committed.
fn commit(pending: &Vec<Vec<Cell>>) -> (r: Vec<Vec<Cell>>)
    ensures
        r@.len() == pending@.len(),
        forall|y: int|
            0 <= y < r@.len() ==> (#[trigger] r@[y])@.len() == pending@[y]@.len(),
        forall|y: int, x: int|
            0 <= y < r@.len() && 0 <= x < r@[y]@.len() ==> (#[trigger] r@[y]@[x]).x
                == pending@[y]@[x].x && r@[y]@[x].y == pending@[y]@[x].y && r@[y]@[x].alive
                == pending@[y]@[x].next_generation,
{
    let mut next: Vec<Vec<Cell>> = Vec::new();
    let mut i: usize = 0;
    while i < pending.len()
        invariant
            0 <= i <= pending@.len(),
            next@.len() == i,
            forall|y: int| 0 <= y < i ==> (#[trigger] next@[y])@.len() == pending@[y]@.len(),
            forall|y: int, x: int|
                0 <= y < i && 0 <= x < next@[y]@.len() ==> (#[trigger] next@[y]@[x]).x
                    == pending@[y]@[x].x && next@[y]@[x].y == pending@[y]@[x].y
                    && next@[y]@[x].alive == pending@[y]@[x].next_generation,
        decreases pending@.len() - i,
    {
        let mut row: Vec<Cell> = Vec::new();
        let mut j: usize = 0;
        while j < pending[i].len()
            invariant
                0 <= i < pending@.len(),
                0 <= j <= pending@[i as int]@.len(),
                row@.len() == j,
                forall|x: int|
                    0 <= x < j ==> (#[trigger] row@[x]).x == pending@[i as int]@[x].x && row@[x].y
                        == pending@[i as int]@[x].y && row@[x].alive
                        == pending@[i as int]@[x].next_generation,
            decreases pending@[i as int]@.len() - j,
        {
            let mut cell: Cell = pending[i][j];
            cell.finalize_generation();
            row.push(cell);
            j = j + 1;
        }
        next.push(row);
        i = i + 1;
    }
    next
}

/// Relies on rand::random for a value drawn from the thread's generator;
/// nothing is promised of the value.
pub assume_specification<T>[ rand::random::<T> ]() -> (r: T)
    where
        rand::distributions::Standard: rand::distributions::Distribution<T>,
;

/// Whether `p` comes before `q` when positions are read row by row.
pub open spec fn row_major_before(p: [u8; 2], q: [u8; 2]) -> bool {
    p[1] < q[1] || (p[1] == q[1] && p[0] < q[0])
}

/// A random set of starting cells: each position of the `width` by `height`
/// grid is drawn alive or dead at random. Whatever is drawn, every returned
/// position lies on the grid, and the positions come row by row without repeats.
pub fn random_starting_cells(width: u8, height: u8) -> (r: Vec<[u8; 2]>)
    ensures
        forall|k: int| 0 <= k < r@.len() ==> #[trigger] r@[k][0] < width && r@[k][1] < height,
        forall|k: int, l: int| 0 <= k < l < r@.len() ==> row_major_before(#[trigger] r@[k], #[trigger] r@[l]),
{
    let mut cells: Vec<[u8; 2]> = Vec::new();
    let mut y: u8 = 0;
    while y < height
        invariant
            y <= height,
            forall|k: int| 0 <= k < cells@.len() ==> #[trigger] cells@[k][0] < width && cells@[k][1] < y,
            forall|k: int, l: int|
                0 <= k < l < cells@.len() ==> row_major_before(#[trigger] cells@[k], #[trigger] cells@[l]),
        decreases height - y,
    {
        let ghost start = cells@.len();
        let mut x: u8 = 0;
        while x < width
            invariant
                x <= width,
                y < height,
                start <= cells@.len(),
                forall|k: int| 0 <= k < start ==> #[trigger] cells@[k][0] < width && cells@[k][1] < y,
                forall|k: int|
                    start <= k < cells@.len() ==> #[trigger] cells@[k][0] < x && cells@[k][1] == y,
                forall|k: int, l: int|
                    0 <= k < l < cells@.len() ==> row_major_before(#[trigger] cells@[k], #[trigger] cells@[l]),
            decreases width - x,
        {
            let alive: bool = rand::random::<bool>();
            if alive {
                let ghost prev = cells@;
                let p: [u8; 2] = [x, y];
                assert(p[0] == x && p[1] == y);
                cells.push(p);
                assert(forall|k: int| 0 <= k < prev.len() ==> #[trigger] cells@[k] == prev[k]);
                assert forall|k: int| 0 <= k < prev.len() implies row_major_before(#[trigger] prev[k], p) by {
                    if k < start {
                        assert(prev[k][0] < width && prev[k][1] < y);
                    } else {
                        assert(prev[k][0] < x && prev[k][1] == y);
                    }
                }
            }
            x = x + 1;
        }
        y = y + 1;
    }
    cells
}

/// The first `k` cells of a row, each as its glyph followed by a space.
pub open spec fn row_text(row: Seq<bool>, k: int) -> Seq<char>
    decreases k,
{
    if k <= 0 {
        seq![]
    } else {
        row_text(row, k - 1) + seq![glyph(row[k - 1]), ' ']
    }
}

/// The top `n` rows of the board, highest `y` first, each ended by a newline,
/// so that the origin shows at the bottom left.
pub open spec fn board_text(b: Board, n: int) -> Seq<char>
    decreases n,
{
    if n <= 0 {
        seq![]
    } else {
        let row = b[b.len() - n];
        board_text(b, n - 1) + row_text(row, row.len() as int) + seq!['\n']
    }
}

/// A game: the grid of cells and the number of generations computed so far.
pub struct Game {
    generation: u32,
    grid: Vec<Vec<Cell>>,
}

impl Game {
    /// Every cell sits at the coordinates of its own index.
    pub closed spec fn wf(&self) -> bool {
        grid_wf(self.grid@)
    }

    /// The liveness of every cell, by row and then column.
    pub closed spec fn cells(&self) -> Board {
        board_of(self.grid@)
    }

    /// The number of completed updates.
    pub closed spec fn generation_spec(&self) -> nat {
        self.generation as nat
    }

    /// A game at generation zero on a `width` by `height` grid, where the cell
    /// at `(x, y)` is alive exactly when `[x, y]` is listed in `alive_starting_cells`.
    pub fn new(width: u8, height: u8, alive_starting_cells: Vec<[u8; 2]>) -> (r: Self)
        ensures
            r.wf(),
            r.generation_spec() == 0,
            r.cells() == initial_board(width as int, height as int, alive_starting_cells@),
    {
        let mut grid: Vec<Vec<Cell>> = Vec::new();
        let mut y: u8 = 0;
        while y < height
            invariant
                y <= height,
                grid@.len() == y,
                forall|j: int| 0 <= j < y ==> (#[trigger] grid@[j])@.len() == width,
                forall|j: int, i: int|
                    0 <= j < y && 0 <= i < width ==> (#[trigger] grid@[j]@[i]).x == i
                        && grid@[j]@[i].y == j && grid@[j]@[i].alive == listed(
                        alive_starting_cells@,
                        i,
                        j,
                    ),
            decreases height - y,
        {
            let mut row: Vec<Cell> = Vec::new();
            let mut x: u8 = 0;
            while x < width
                invariant
                    x <= width,
                    y < height,
                    row@.len() == x,
                    forall|i: int|
                        0 <= i < x ==> (#[trigger] row@[i]).x == i && row@[i].y == y
                            && row@[i].alive == listed(alive_starting_cells@, i, y as int),
                decreases width - x,
            {
                let alive = is_listed(&alive_starting_cells, x, y);
                row.push(Cell::new(x as i32, y as i32, alive));
                x = x + 1;
            }
            grid.push(row);
            y = y + 1;
        }
        assert(board_of(grid@) =~~= initial_board(
            width as int,
            height as int,
            alive_starting_cells@,
        ));
        Game { generation: 0, grid }
    }

    /// Advances the game by one generation: every cell's next state is computed
    /// from the current generation as a whole, then all are committed at once,
    /// and the generation counter goes up by one.
    pub fn update(&mut self)
        requires
            old(self).wf(),
            old(self).generation_spec() < u32::MAX,
        ensures
            final(self).wf(),
            final(self).cells() == step(old(self).cells()),
            final(self).generation_spec() == old(self).generation_spec() + 1,
    {
        let pending = compute_pending(&self.grid);
        let next = commit(&pending);
        assert(grid_wf(next@));
        assert(board_of(next@) =~~= step(board_of(self.grid@)));
        self.grid = next;
        self.generation = self.generation + 1;
    }

    /// The number of completed updates.
    pub fn generation(&self) -> (r: u32)
        ensures
            r == self.generation_spec(),
    {
        self.generation
    }

    /// The grid as text: one line per row, highest row first, one glyph and a
    /// space per cell. The game is left as it stands.
    pub fn render(&self) -> (r: String)
        ensures
            r@ == board_text(self.cells(), self.cells().len() as int),
    {
        let ghost b = board_of(self.grid@);
        let mut out = String::new();
        let mut n: usize = 0;
        while n < self.grid.len()
            invariant
                b == board_of(self.grid@),
                0 <= n <= self.grid@.len(),
                out@ == board_text(b, n as int),
            decreases self.grid@.len() - n,
        {
            let row = &self.grid[self.grid.len() - 1 - n];
            let ghost brow = b[b.len() - (n + 1)];
            assert(brow.len() == row@.len());
            let mut k: usize = 0;
            while k < row.len()
                invariant
                    b == board_of(self.grid@),
                    0 <= n < self.grid@.len(),
                    row@ == self.grid@[self.grid@.len() - 1 - n]@,
                    brow == b[b.len() - (n + 1)],
                    brow.len() == row@.len(),
                    0 <= k <= row@.len(),
                    out@ == board_text(b, n as int) + row_text(brow, k as int),
                decreases row@.len() - k,
            {
                let ghost before = out@;
                if row[k].alive {
                    proof {
                        reveal_strlit("o ");
                    }
                    out.append("o ");
                } else {
                    proof {
                        reveal_strlit(". ");
                    }
                    out.append(". ");
                }
                assert(out@ =~= board_text(b, n as int) + row_text(brow, k + 1));
                k = k + 1;
            }
            proof {
                reveal_strlit("\n");
            }
            out.append("\n");
            assert(out@ =~= board_text(b, n + 1));
            n = n + 1;
        }
        out
    }

    /// Whether the cell at `(x, y)` exists and is alive.
    pub fn is_alive(&self, x: usize, y: usize) -> (r: bool)
        ensures
            r == live_at(self.cells(), x as int, y as int),
    {
        if y < self.grid.len() && x < self.grid[y].len() {
            self.grid[y][x].alive
        } else {
            false
        }
    }
}

} // verus!
