//! The grid engine: two stores of `width * height` cells, one readable and one
//! written by the next step, with coordinates that wrap around both edges.

use vstd::arithmetic::div_mod::{lemma_mod_multiples_vanish, lemma_small_mod};
use vstd::prelude::*;

verus! {

/// A coordinate folded onto `[0, n)`; for `n > 0` this is the mathematical
/// (never negative) remainder.
pub open spec fn wrap(x: int, n: int) -> int {
    x % n
}

/// A `width` by `height` torus of cells. One store holds the readable
/// generation; the other is the target of the next `step`.
pub struct Board<T> {
    board: Vec<T>,
    board2: Vec<T>,
    board1_active: bool,
    width: i32,
    height: i32,
}

impl<T> View for Board<T> {
    type V = Seq<T>;

    /// The readable generation, in row-major order.
    closed spec fn view(&self) -> Seq<T> {
        if self.board1_active {
            self.board@
        } else {
            self.board2@
        }
    }
}

impl<T> Board<T> {
    pub closed spec fn spec_width(&self) -> int {
        self.width as int
    }

    pub closed spec fn spec_height(&self) -> int {
        self.height as int
    }

    /// The store that the next step writes, in row-major order.
    pub closed spec fn pending(&self) -> Seq<T> {
        if self.board1_active {
            self.board2@
        } else {
            self.board@
        }
    }

    /// Both stores hold one value per cell, and the cell count fits an `i32`.
    pub open spec fn wf(&self) -> bool {
        &&& 0 < self.spec_width()
        &&& 0 < self.spec_height()
        &&& self.spec_width() * self.spec_height() <= i32::MAX
        &&& self@.len() == self.spec_width() * self.spec_height()
        &&& self.pending().len() == self@.len()
    }

    /// The readable value at `(row, col)`, after wrapping both coordinates.
    pub open spec fn cell(&self, row: int, col: int) -> T {
        self@[wrap(row, self.spec_height()) * self.spec_width() + wrap(col, self.spec_width())]
    }

    /// Row-major position of an in-range cell.
    pub open spec fn flat(&self, row: int, col: int) -> int {
        row * self.spec_width() + col
    }

    /// `other` is a well-formed board of the same shape that reads exactly as
    /// this one does; only its write target may differ.
    pub open spec fn same_generation(&self, other: Board<T>) -> bool {
        &&& other.wf()
        &&& other.spec_width() == self.spec_width()
        &&& other.spec_height() == self.spec_height()
        &&& other@ == self@
    }

    pub fn width(&self) -> (r: i32)
        ensures
            r == self.spec_width(),
    {
        self.width
    }

    pub fn height(&self) -> (r: i32)
        ensures
            r == self.spec_height(),
    {
        self.height
    }

    /// Position in either store of the cell that `i` wraps onto.
    fn position(&self, i: (i32, i32)) -> (k: usize)
        requires
            self.wf(),
        ensures
            k == self.flat(wrap(i.0 as int, self.spec_height()), wrap(i.1 as int, self.spec_width())),
            0 <= wrap(i.0 as int, self.spec_height()) < self.spec_height(),
            0 <= wrap(i.1 as int, self.spec_width()) < self.spec_width(),
            k < self@.len(),
    {
        let row = i.0.checked_rem_euclid(self.height).unwrap();
        let col = i.1.checked_rem_euclid(self.width).unwrap();
        let w = self.width;
        let h = self.height;
        assert(0 <= row * w && row * w + col < w * h) by (nonlinear_arith)
            requires
                0 <= row < h,
                0 <= col < w,
        ;
        (row * self.width + col) as usize
    }

    /// The readable value at `i`, defined for every coordinate by wrapping.
    pub fn index(&self, i: (i32, i32)) -> (r: &T)
        requires
            self.wf(),
        ensures
            *r == self.cell(i.0 as int, i.1 as int),
    {
        let k = self.position(i);
        if self.board1_active {
            &self.board[k]
        } else {
            &self.board2[k]
        }
    }
}

impl<T> Board<T> {
    /// `rule` can give `v` for `(row, col)` on some board that reads as `prev`
    /// does: the value depends on the previous generation and nothing else of
    /// the board.
    pub open spec fn rule_yields<F: Fn(&Board<T>, &(i32, i32)) -> T>(
        rule: F,
        prev: Board<T>,
        row: int,
        col: int,
        v: T,
    ) -> bool {
        exists|b: Board<T>|
            prev.same_generation(b) && #[trigger] call_ensures(rule, (&b, &(row as i32, col as i32)), v)
    }

    /// `self` is what one step of `rule` makes of `prev`: same shape, and every
    /// cell holds a value the rule gives for it from `prev`'s generation.
    pub open spec fn is_next_generation<F: Fn(&Board<T>, &(i32, i32)) -> T>(
        &self,
        prev: Board<T>,
        rule: F,
    ) -> bool {
        &&& self.wf()
        &&& self.spec_width() == prev.spec_width()
        &&& self.spec_height() == prev.spec_height()
        &&& forall|row: int, col: int|
            0 <= row < prev.spec_height() && 0 <= col < prev.spec_width() ==> Self::rule_yields(
                rule,
                prev,
                row,
                col,
                #[trigger] self.cell(row, col),
            )
    }

    /// Stores `v` in the write target at the cell that `i` wraps onto; the
    /// readable generation is untouched.
    pub fn write_at(&mut self, i: (i32, i32), v: T)
        requires
            old(self).wf(),
        ensures
            final(self).wf(),
            final(self).spec_width() == old(self).spec_width(),
            final(self).spec_height() == old(self).spec_height(),
            final(self)@ == old(self)@,
            final(self).pending() == old(self).pending().update(
                old(self).flat(
                    wrap(i.0 as int, old(self).spec_height()),
                    wrap(i.1 as int, old(self).spec_width()),
                ),
                v,
            ),
    {
        let k = self.position(i);
        if self.board1_active {
            self.board2.set(k, v);
        } else {
            self.board.set(k, v);
        }
    }

    /// Computes every cell of the next generation with `step_fn`, reading the
    /// current one only, then makes the new generation readable.
    pub fn step<F: Fn(&Board<T>, &(i32, i32)) -> T>(&mut self, step_fn: F)
        requires
            old(self).wf(),
            forall|b: Board<T>, row: i32, col: i32|
                old(self).same_generation(b) && 0 <= row < old(self).spec_height() && 0 <= col
                    < old(self).spec_width() ==> #[trigger] call_requires(step_fn, (&b, &(row, col))),
        ensures
            final(self).is_next_generation(*old(self), step_fn),
            final(self)@.len() == old(self).spec_width() * old(self).spec_height(),
    {
        let ghost prev = *self;
        let ghost w = self.spec_width();
        let ghost h = self.spec_height();
        let mut row: i32 = 0;
        while row < self.height
            invariant
                0 <= row <= h,
                prev == *old(self),
                w == prev.spec_width(),
                h == prev.spec_height(),
                prev.same_generation(*self),
                forall|b: Board<T>, r: i32, c: i32|
                    prev.same_generation(b) && 0 <= r < h && 0 <= c < w ==> #[trigger] call_requires(
                        step_fn,
                        (&b, &(r, c)),
                    ),
                forall|j: int|
                    0 <= j < row * w ==> Self::rule_yields(step_fn, prev, j / w, j % w, #[trigger] self.pending()[j]),
            decreases h - row,
        {
            let mut col: i32 = 0;
            while col < self.width
                invariant
                    0 <= row < h,
                    0 <= col <= w,
                    prev == *old(self),
                    w == prev.spec_width(),
                    h == prev.spec_height(),
                    prev.same_generation(*self),
                    forall|b: Board<T>, r: i32, c: i32|
                        prev.same_generation(b) && 0 <= r < h && 0 <= c < w ==> #[trigger] call_requires(
                            step_fn,
                            (&b, &(r, c)),
                        ),
                    forall|j: int|
                        0 <= j < row * w + col ==> Self::rule_yields(
                            step_fn,
                            prev,
                            j / w,
                            j % w,
                            #[trigger] self.pending()[j],
                        ),
                decreases w - col,
            {
                assert(call_requires(step_fn, (&*self, &(row, col))));
                let v = step_fn(&*self, &(row, col));
                assert(call_ensures(step_fn, (&*self, &((row as int) as i32, (col as int) as i32)), v));
                assert(Self::rule_yields(step_fn, prev, row as int, col as int, v));
                proof {
                    lemma_small_mod(row as nat, h as nat);
                    lemma_small_mod(col as nat, w as nat);
                    lemma_index_of_cell(w, h, row as int, col as int);
                }
                self.write_at((row, col), v);
                col = col + 1;
            }
            assert((row + 1) * w == row * w + w) by (nonlinear_arith);
            row = row + 1;
        }
        let ghost written = self.pending();
        self.board1_active = !self.board1_active;
        assert(self@ == written);
        proof {
            assert forall|r: int, c: int| 0 <= r < h && 0 <= c < w implies Self::rule_yields(
                step_fn,
                prev,
                r,
                c,
                #[trigger] self.cell(r, c),
            ) by {
                lemma_small_mod(r as nat, h as nat);
                lemma_small_mod(c as nat, w as nat);
                lemma_index_of_cell(w, h, r, c);
                assert(Self::rule_yields(step_fn, prev, (r * w + c) / w, (r * w + c) % w, written[r * w + c]));
            }
        }
    }
}

/// For an in-range cell, its row-major position lies below `w * h` and gives
/// the row and column back by division.
proof fn lemma_index_of_cell(w: int, h: int, row: int, col: int)
    requires
        0 < w,
        0 <= row < h,
        0 <= col < w,
    ensures
        0 <= row * w + col < w * h,
        row * w + col < h * w,
        (row * w + col) / w == row,
        (row * w + col) % w == col,
{
    assert(0 <= row * w && row * w + col < w * h && row * w + col < h * w) by (nonlinear_arith)
        requires
            0 <= row < h,
            0 <= col < w,
    ;
    vstd::arithmetic::div_mod::lemma_fundamental_div_mod_converse(row * w + col, w, row, col);
}

impl<T: Clone + Default> Board<T> {
    /// A `width` by `height` board whose every cell, in both stores, comes from
    /// its own call of `T::default()`.
    pub fn new(width: i32, height: i32) -> (b: Board<T>)
        requires
            0 < width,
            0 < height,
            width * height <= i32::MAX,
        ensures
            b.wf(),
            b.spec_width() == width,
            b.spec_height() == height,
    {
        let n = (width * height) as usize;
        let mut board: Vec<T> = Vec::new();
        let mut k: usize = 0;
        while k < n
            invariant
                k <= n,
                board@.len() == k,
            decreases n - k,
        {
            board.push(T::default());
            k = k + 1;
        }
        let board2 = vec![T::default(); n];
        Board { board, board2, board1_active: true, width, height }
    }
}

/// Shifting a coordinate by whole turns around the torus reads the same cell.
pub proof fn lemma_cell_shift<T>(b: Board<T>, row: int, col: int, q: int, p: int)
    requires
        b.wf(),
    ensures
        b.cell(row + q * b.spec_height(), col + p * b.spec_width()) == b.cell(row, col),
{
    let w = b.spec_width();
    let h = b.spec_height();
    assert(row + q * h == h * q + row) by (nonlinear_arith);
    assert(col + p * w == w * p + col) by (nonlinear_arith);
    lemma_mod_multiples_vanish(q, row, h);
    lemma_mod_multiples_vanish(p, col, w);
}

/// Reading is periodic with the board's shape: `(row, col)` and
/// `(row + height, col + width)` name the same cell, for every coordinate.
pub proof fn lemma_toroidal_period<T>(b: Board<T>, row: int, col: int)
    requires
        b.wf(),
    ensures
        b.cell(row, col) == b.cell(row + b.spec_height(), col + b.spec_width()),
{
    lemma_cell_shift(b, row, col, 1, 1);
}

/// Every coordinate reads as its wrapped, in-range twin.
pub proof fn lemma_cell_wrapped<T>(b: Board<T>, row: int, col: int)
    requires
        b.wf(),
    ensures
        0 <= wrap(row, b.spec_height()) < b.spec_height(),
        0 <= wrap(col, b.spec_width()) < b.spec_width(),
        b.cell(wrap(row, b.spec_height()), wrap(col, b.spec_width())) == b.cell(row, col),
{
    let w = b.spec_width();
    let h = b.spec_height();
    lemma_small_mod((row % h) as nat, h as nat);
    lemma_small_mod((col % w) as nat, w as nat);
}

/// A rule that gives back the cell it is asked about leaves the readable
/// generation as it was: a step with it changes no cell, so any number of
/// such steps change none.
pub proof fn lemma_identity_rule_keeps_generation<T, F: Fn(&Board<T>, &(i32, i32)) -> T>(
    prev: Board<T>,
    next: Board<T>,
    rule: F,
)
    requires
        prev.wf(),
        next.is_next_generation(prev, rule),
        forall|b: Board<T>, i: (i32, i32), v: T|
            b.wf() && #[trigger] call_ensures(rule, (&b, &i), v) ==> v == b.cell(i.0 as int, i.1 as int),
    ensures
        forall|row: int, col: int| #[trigger] next.cell(row, col) == prev.cell(row, col),
{
    assert forall|row: int, col: int| #[trigger] next.cell(row, col) == prev.cell(row, col) by {
        let h = prev.spec_height();
        let w = prev.spec_width();
        let r = wrap(row, h);
        let c = wrap(col, w);
        lemma_cell_wrapped(prev, row, col);
        lemma_cell_wrapped(next, row, col);
        let v = next.cell(r, c);
        assert(Board::<T>::rule_yields(rule, prev, r, c, v));
        let b = choose|b: Board<T>|
            prev.same_generation(b) && #[trigger] call_ensures(rule, (&b, &(r as i32, c as i32)), v);
        assert(v == b.cell(r, c));
    }
}

} // verus!
