use vstd::prelude::*;

use crate::cell::{live_at, live_bit, live_neighbors, next_cell, step, Board};

verus! {

/// Whether `(x, y)` is a position of the board.
pub open spec fn on_board(b: Board, x: int, y: int) -> bool {
    0 <= y < b.len() && 0 <= x < b[y].len()
}

/// Whether no cell of the board is alive.
pub open spec fn all_dead(b: Board) -> bool {
    forall|y: int, x: int| on_board(b, x, y) ==> !#[trigger] b[y][x]
}

/// The board after `n` generations.
pub open spec fn steps(b: Board, n: nat) -> Board
    decreases n,
{
    if n == 0 {
        b
    } else {
        step(steps(b, (n - 1) as nat))
    }
}

/// A cell never has more than eight live neighbours, nor fewer than none.
pub proof fn lemma_neighbor_count_bounded(b: Board, x: int, y: int)
    ensures
        0 <= live_neighbors(b, x, y) <= 8,
{
}

/// The cell at the origin counts only the three neighbours on the board:
/// positions with a negative coordinate are absent, never wrapped around.
pub proof fn lemma_origin_neighbors(b: Board)
    ensures
        live_neighbors(b, 0, 0) == live_bit(b, 1, 0) + live_bit(b, 0, 1) + live_bit(b, 1, 1),
        forall|x: int, y: int| (x < 0 || y < 0) ==> !#[trigger] live_at(b, x, y),
{
}

/// A board with no live cell has none in the next generation either.
pub proof fn lemma_dead_board_step(b: Board)
    requires
        all_dead(b),
    ensures
        all_dead(step(b)),
        step(b).len() == b.len(),
{
    assert forall|y: int, x: int| on_board(step(b), x, y) implies !#[trigger] step(b)[y][x] by {
        assert(live_neighbors(b, x, y) == 0);
    }
}

/// A board with no live cell stays so after any number of generations.
pub proof fn lemma_dead_board_stays_dead(b: Board, n: nat)
    requires
        all_dead(b),
    ensures
        all_dead(steps(b, n)),
    decreases n,
{
    if n > 0 {
        lemma_dead_board_stays_dead(b, (n - 1) as nat);
        lemma_dead_board_step(steps(b, (n - 1) as nat));
    }
}

/// Whether `(x, y)` is one of the four cells of the 2×2 block whose lowest corner is `(bx, by)`.
pub open spec fn in_block(x: int, y: int, bx: int, by: int) -> bool {
    bx <= x <= bx + 1 && by <= y <= by + 1
}

/// A 2×2 block of live cells, all other cells dead, is unchanged by a generation.
pub proof fn lemma_block_still_life(b: Board, bx: int, by: int)
    requires
        on_board(b, bx, by),
        on_board(b, bx + 1, by),
        on_board(b, bx, by + 1),
        on_board(b, bx + 1, by + 1),
        forall|y: int, x: int| on_board(b, x, y) ==> #[trigger] b[y][x] == in_block(x, y, bx, by),
    ensures
        step(b) == b,
{
    assert forall|x: int, y: int| #[trigger] live_at(b, x, y) == in_block(x, y, bx, by) by {
        if on_board(b, x, y) {
            assert(b[y][x] == in_block(x, y, bx, by));
        }
    }
    assert forall|y: int, x: int| on_board(b, x, y) implies #[trigger] step(b)[y][x] == b[y][x] by {
        assert(live_at(b, x - 1, y - 1) == in_block(x - 1, y - 1, bx, by));
        assert(live_at(b, x - 1, y) == in_block(x - 1, y, bx, by));
        assert(live_at(b, x - 1, y + 1) == in_block(x - 1, y + 1, bx, by));
        assert(live_at(b, x, y - 1) == in_block(x, y - 1, bx, by));
        assert(live_at(b, x, y + 1) == in_block(x, y + 1, bx, by));
        assert(live_at(b, x + 1, y - 1) == in_block(x + 1, y - 1, bx, by));
        assert(live_at(b, x + 1, y) == in_block(x + 1, y, bx, by));
        assert(live_at(b, x + 1, y + 1) == in_block(x + 1, y + 1, bx, by));
        assert(live_at(b, x, y) == in_block(x, y, bx, by));
    }
    assert(step(b) =~~= b);
}

/// Evaluates the positions of `order` one after another, each against the
/// frozen board `b`, writing its next liveness into `pending`.
pub open spec fn evaluate(b: Board, pending: Board, order: Seq<(int, int)>) -> Board
    decreases order.len(),
{
    if order.len() == 0 {
        pending
    } else {
        let (x, y) = order.last();
        let p = evaluate(b, pending, order.drop_last());
        p.update(y, p[y].update(x, next_cell(b, x, y)))
    }
}

/// Whether `order` holds every position of the board and no other position.
pub open spec fn covers(b: Board, order: Seq<(int, int)>) -> bool {
    &&& forall|k: int| 0 <= k < order.len() ==> on_board(b, #[trigger] order[k].0, order[k].1)
    &&& forall|y: int, x: int| on_board(b, x, y) ==> #[trigger] order.contains((x, y))
}

proof fn lemma_evaluate_cells(b: Board, order: Seq<(int, int)>)
    requires
        forall|k: int| 0 <= k < order.len() ==> on_board(b, #[trigger] order[k].0, order[k].1),
    ensures
        evaluate(b, b, order).len() == b.len(),
        forall|y: int| 0 <= y < b.len() ==> (#[trigger] evaluate(b, b, order)[y]).len() == b[y].len(),
        forall|y: int, x: int|
            on_board(b, x, y) ==> #[trigger] evaluate(b, b, order)[y][x] == if order.contains(
                (x, y),
            ) {
                next_cell(b, x, y)
            } else {
                b[y][x]
            },
    decreases order.len(),
{
    if order.len() > 0 {
        let rest = order.drop_last();
        assert forall|k: int| 0 <= k < rest.len() implies on_board(b, #[trigger] rest[k].0, rest[k].1) by {
            assert(rest[k] == order[k]);
        }
        lemma_evaluate_cells(b, rest);
        let last = order.last();
        assert(order[order.len() - 1] == last);
        assert forall|y: int, x: int| on_board(b, x, y) implies #[trigger] evaluate(b, b, order)[y][x]
            == if order.contains((x, y)) { next_cell(b, x, y) } else { b[y][x] } by {
            if order.contains((x, y)) && (x, y) != last {
                let k = choose|k: int| 0 <= k < order.len() && order[k] == (x, y);
                assert(rest[k] == (x, y));
            }
            if rest.contains((x, y)) {
                let k = choose|k: int| 0 <= k < rest.len() && rest[k] == (x, y);
                assert(order[k] == (x, y));
            }
        }
    }
}

/// The next generation does not depend on the order in which cells are
/// evaluated: evaluating every position once, against the unmodified current
/// board, gives `step(b)`, and evaluating the same positions in reverse order
/// gives the same board.
pub proof fn lemma_order_independent(b: Board, order: Seq<(int, int)>)
    requires
        covers(b, order),
    ensures
        evaluate(b, b, order) == step(b),
        evaluate(b, b, order.reverse()) == evaluate(b, b, order),
{
    let rev = order.reverse();
    assert forall|k: int| 0 <= k < rev.len() implies on_board(b, #[trigger] rev[k].0, rev[k].1) by {
        assert(rev[k] == order[order.len() - 1 - k]);
    }
    assert forall|y: int, x: int| on_board(b, x, y) implies #[trigger] rev.contains((x, y)) by {
        assert(order.contains((x, y)));
        let k = choose|k: int| 0 <= k < order.len() && order[k] == (x, y);
        assert(rev[order.len() - 1 - k] == (x, y));
    }
    lemma_evaluate_cells(b, order);
    lemma_evaluate_cells(b, rev);
    assert(evaluate(b, b, order) =~~= step(b));
    assert(evaluate(b, b, rev) =~~= step(b));
}

} // verus!
