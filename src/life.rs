//! Conway's Game of Life as a rule for the board: a cell is dead or alive,
//! and its next state follows from how many of its eight neighbours live.

use crate::board::{lemma_cell_shift, lemma_cell_wrapped, wrap, Board};
use vstd::arithmetic::div_mod::lemma_fundamental_div_mod;
use vstd::prelude::*;

verus! {

/// Relies on rand::random::<bool>: a fair coin drawn from the thread-local
/// generator. Nothing is promised of which side comes up.
#[verifier::external_body]
fn coin_toss() -> bool {
    rand::random::<bool>()
}

#[derive(Clone, Copy, Debug, PartialEq, Eq, Structural)]
pub enum GameOfLifeCell {
    Dead,
    Alive,
}

/// One for a live cell, zero for a dead one.
pub open spec fn live(c: GameOfLifeCell) -> int {
    if c == GameOfLifeCell::Alive {
        1
    } else {
        0
    }
}

/// The eight offsets of the Moore neighbourhood, the cell itself left out.
pub open spec fn moore_neighbourhood() -> Seq<(int, int)> {
    seq![(-1, -1), (-1, 0), (-1, 1), (0, -1), (0, 1), (1, -1), (1, 0), (1, 1)]
}

/// How many of the cells at `offsets` from `(row, col)` are alive.
pub open spec fn live_in(
    b: Board<GameOfLifeCell>,
    row: int,
    col: int,
    offsets: Seq<(int, int)>,
) -> int
    decreases offsets.len(),
{
    if offsets.len() == 0 {
        0
    } else {
        live_in(b, row, col, offsets.drop_last()) + live(
            b.cell(row + offsets.last().0, col + offsets.last().1),
        )
    }
}

/// How many of the eight neighbours of `(row, col)` are alive, wrapping
/// around the board's edges.
pub open spec fn live_neighbours(b: Board<GameOfLifeCell>, row: int, col: int) -> int {
    live_in(b, row, col, moore_neighbourhood())
}

/// The next state of a cell with `n` live neighbours: a dead cell with three
/// comes alive, a live cell with two or three stays alive, all others die or
/// stay dead.
pub open spec fn next_state(c: GameOfLifeCell, n: int) -> GameOfLifeCell {
    match c {
        GameOfLifeCell::Dead => if n == 3 {
            GameOfLifeCell::Alive
        } else {
            GameOfLifeCell::Dead
        },
        GameOfLifeCell::Alive => if n == 2 || n == 3 {
            GameOfLifeCell::Alive
        } else {
            GameOfLifeCell::Dead
        },
    }
}

impl GameOfLifeCell {
    /// The cell that one coin toss seeds: `true` gives a dead cell, `false` a
    /// live one.
    pub fn from_coin(heads: bool) -> (c: GameOfLifeCell)
        ensures
            c == (if heads {
                GameOfLifeCell::Dead
            } else {
                GameOfLifeCell::Alive
            }),
    {
        if heads {
            GameOfLifeCell::Dead
        } else {
            GameOfLifeCell::Alive
        }
    }
}

impl Default for GameOfLifeCell {
    /// A cell seeded at random, dead or alive.
    fn default() -> Self {
        GameOfLifeCell::from_coin(coin_toss())
    }
}

/// Counting live cells at fixed offsets reads the same after shifting the
/// centre by whole turns around the torus.
proof fn lemma_live_in_shift(
    b: Board<GameOfLifeCell>,
    row: int,
    col: int,
    q: int,
    p: int,
    offsets: Seq<(int, int)>,
)
    requires
        b.wf(),
    ensures
        live_in(b, row + q * b.spec_height(), col + p * b.spec_width(), offsets) == live_in(
            b,
            row,
            col,
            offsets,
        ),
    decreases offsets.len(),
{
    if offsets.len() > 0 {
        let d = offsets.last();
        lemma_live_in_shift(b, row, col, q, p, offsets.drop_last());
        lemma_cell_shift(b, row + d.0, col + d.1, q, p);
        assert(row + q * b.spec_height() + d.0 == row + d.0 + q * b.spec_height());
        assert(col + p * b.spec_width() + d.1 == col + d.1 + p * b.spec_width());
    }
}

/// The Game of Life rule for the cell at `pos`: its next state from its own
/// state and the number of its live neighbours.
pub fn step(board: &Board<GameOfLifeCell>, pos: &(i32, i32)) -> (next: GameOfLifeCell)
    requires
        board.wf(),
    ensures
        next == next_state(
            board.cell(pos.0 as int, pos.1 as int),
            live_neighbours(*board, pos.0 as int, pos.1 as int),
        ),
{
    let moore: [(i32, i32); 8] = [(-1, -1), (-1, 0), (-1, 1), (0, -1), (0, 1), (1, -1), (1, 0), (1, 1)];
    let height = board.height();
    let width = board.width();
    let row = pos.0.checked_rem_euclid(height).unwrap();
    let col = pos.1.checked_rem_euclid(width).unwrap();
    let ghost offsets = moore_neighbourhood();
    assert(forall|i: int| 0 <= i < 8 ==> moore@[i].0 as int == offsets[i].0 && moore@[i].1 as int == offsets[i].1);
    let mut alive: u8 = 0;
    let center_cell = board.index(*pos);
    let mut k: usize = 0;
    while k < 8
        invariant
            0 <= row < height == board.spec_height(),
            0 <= col < width == board.spec_width(),
            board.wf(),
            offsets == moore_neighbourhood(),
            forall|i: int|
                0 <= i < 8 ==> moore@[i].0 as int == offsets[i].0 && moore@[i].1 as int == offsets[i].1,
            k <= 8,
            alive <= k,
            alive == live_in(*board, row as int, col as int, offsets.take(k as int)),
        decreases 8 - k,
    {
        let (delta_row, delta_col) = moore[k];
        assert(offsets.take(k as int + 1).drop_last() =~= offsets.take(k as int));
        let cell = board.index((row + delta_row, col + delta_col));
        if *cell == GameOfLifeCell::Alive {
            alive = alive + 1;
        }
        k = k + 1;
    }
    proof {
        let h = board.spec_height();
        let w = board.spec_width();
        assert(offsets.take(8) =~= offsets);
        lemma_fundamental_div_mod(pos.0 as int, h);
        lemma_fundamental_div_mod(pos.1 as int, w);
        lemma_live_in_shift(*board, row as int, col as int, pos.0 as int / h, pos.1 as int / w, offsets);
        assert(row as int + (pos.0 as int / h) * h == pos.0 as int);
        assert(col as int + (pos.1 as int / w) * w == pos.1 as int);
    }
    match center_cell {
        GameOfLifeCell::Dead if alive == 3 => GameOfLifeCell::Alive,
        GameOfLifeCell::Dead => GameOfLifeCell::Dead,
        GameOfLifeCell::Alive if alive == 2 || alive == 3 => GameOfLifeCell::Alive,
        GameOfLifeCell::Alive => GameOfLifeCell::Dead,
    }
}

/// Live cells at offsets are never a negative count.
proof fn lemma_live_in_nonneg(b: Board<GameOfLifeCell>, row: int, col: int, offsets: Seq<(int, int)>)
    ensures
        live_in(b, row, col, offsets) >= 0,
    decreases offsets.len(),
{
    if offsets.len() > 0 {
        lemma_live_in_nonneg(b, row, col, offsets.drop_last());
    }
}

/// The top and bottom rows touch: a live cell in the bottom row counts as a
/// live neighbour of the cell above it across the edge, in the top row and
/// the same column, and a live cell in the top row counts for the cell below
/// it in the bottom row.
pub proof fn lemma_top_bottom_adjacent(b: Board<GameOfLifeCell>, col: int)
    requires
        b.wf(),
    ensures
        b.cell(0 - 1, col) == b.cell(b.spec_height() - 1, col),
        b.cell(b.spec_height() - 1 + 1, col) == b.cell(0, col),
        b.cell(b.spec_height() - 1, col) == GameOfLifeCell::Alive ==> live_neighbours(b, 0, col) >= 1,
        b.cell(0, col) == GameOfLifeCell::Alive ==> live_neighbours(b, b.spec_height() - 1, col) >= 1,
{
    let h = b.spec_height();
    let w = b.spec_width();
    lemma_cell_shift(b, -1, col, 1, 0);
    lemma_cell_shift(b, 0, col, 1, 0);
    assert(-1 + 1 * h == h - 1 && 0 + 1 * h == h - 1 + 1 && col + 0 * w == col) by (nonlinear_arith);
    assert(b.cell(-1, col) == b.cell(h - 1, col));
    assert(b.cell(h - 1 + 1, col) == b.cell(0, col));
    let m = moore_neighbourhood();
    lemma_live_in_nonneg(b, 0, col, m.take(1));
    lemma_live_in_nonneg(b, h - 1, col, m.take(6));
    assert(m.take(7).drop_last() =~= m.take(6));
    assert(m.take(2).drop_last() =~= m.take(1));
    assert(m.take(2).last() == (-1int, 0int));
    assert(m.take(7).last() == (1int, 0int));
    lemma_live_in_grows(b, 0, col, m, 2, 8);
    lemma_live_in_grows(b, h - 1, col, m, 7, 8);
    assert(m.take(8) =~= m);
}

/// Counting over a longer prefix of the offsets never counts fewer.
proof fn lemma_live_in_grows(
    b: Board<GameOfLifeCell>,
    row: int,
    col: int,
    offsets: Seq<(int, int)>,
    i: int,
    j: int,
)
    requires
        0 <= i <= j <= offsets.len(),
    ensures
        live_in(b, row, col, offsets.take(i)) <= live_in(b, row, col, offsets.take(j)),
    decreases j - i,
{
    if i < j {
        lemma_live_in_grows(b, row, col, offsets, i, j - 1);
        assert(offsets.take(j).drop_last() =~= offsets.take(j - 1));
    }
}

/// Counting live cells depends on the readable generation alone.
proof fn lemma_live_in_same_generation(
    b: Board<GameOfLifeCell>,
    g: Board<GameOfLifeCell>,
    row: int,
    col: int,
    offsets: Seq<(int, int)>,
)
    requires
        b.same_generation(g),
    ensures
        live_in(g, row, col, offsets) == live_in(b, row, col, offsets),
    decreases offsets.len(),
{
    if offsets.len() > 0 {
        lemma_live_in_same_generation(b, g, row, col, offsets.drop_last());
    }
}

/// One step of the board with the Game of Life rule is one generation of the
/// Game of Life: every cell of `next` is the next state of the same cell of
/// `prev`, given its live neighbours in `prev`.
pub proof fn lemma_life_generation(prev: Board<GameOfLifeCell>, next: Board<GameOfLifeCell>)
    requires
        prev.wf(),
        next.is_next_generation(prev, step),
    ensures
        forall|row: int, col: int|
            #[trigger] next.cell(row, col) == next_state(prev.cell(row, col), live_neighbours(prev, row, col)),
{
    assert forall|row: int, col: int|
        #[trigger] next.cell(row, col) == next_state(prev.cell(row, col), live_neighbours(prev, row, col)) by {
        let h = prev.spec_height();
        let w = prev.spec_width();
        let r = wrap(row, h);
        let c = wrap(col, w);
        lemma_cell_wrapped(prev, row, col);
        lemma_cell_wrapped(next, row, col);
        assert(h <= w * h && w <= w * h) by (nonlinear_arith)
            requires
                0 < w,
                0 < h,
        ;
        assert((r as i32) as int == r && (c as i32) as int == c);
        let v = next.cell(r, c);
        assert(Board::<GameOfLifeCell>::rule_yields(step, prev, r, c, v));
        let g = choose|g: Board<GameOfLifeCell>|
            prev.same_generation(g) && #[trigger] call_ensures(step, (&g, &(r as i32, c as i32)), v);
        lemma_live_in_same_generation(prev, g, r, c, moore_neighbourhood());
        assert(v == next_state(prev.cell(r, c), live_neighbours(prev, r, c)));
        lemma_fundamental_div_mod(row, h);
        lemma_fundamental_div_mod(col, w);
        lemma_live_in_shift(prev, r, c, row / h, col / w, moore_neighbourhood());
        assert(r + (row / h) * h == row);
        assert(c + (col / w) * w == col);
    }
}

} // verus!
