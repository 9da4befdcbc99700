//! The grid itself: a flat buffer of cells on a torus, seeded at random
//! and advanced one generation at a time.

use crate::board::{
    draws_within, lemma_nonempty, lemma_position, lemma_row_col, lemma_seeded_none,
    lemma_seeded_push, lemma_wrap, render_cells, wrap_next, wrap_prev, Board,
};
use crate::random::draw_index;
use crate::rules::Rulestring;
use crate::text::push_char;
use rayon::iter::{IndexedParallelIterator, IntoParallelRefIterator, ParallelIterator};
use vstd::prelude::*;

verus! {

/// The state of the automaton: `m` rows of `n` cells each, the rule, and
/// the cells row by row, each 0 (dead) or 1 (alive).
pub struct Matrix {
    m: usize,
    n: usize,
    rules: Rulestring,
    cells: Vec<usize>,
}

impl View for Matrix {
    type V = Board;

    closed spec fn view(&self) -> Board {
        Board { rows: self.m as int, cols: self.n as int, rules: self.rules@, cells: self.cells@ }
    }
}

impl Matrix {
    /// A grid of `m` by `n` dead cells under `rules`.
    pub fn new(m: usize, n: usize, rules: Rulestring) -> (matrix: Matrix)
        requires
            m > 0,
            n > 0,
            m * n <= usize::MAX,
        ensures
            matrix@ == (Board {
                rows: m as int,
                cols: n as int,
                rules: rules@,
                cells: Seq::new((m * n) as nat, |i: int| 0usize),
            }),
            matrix@.wf(),
    {
        let len = m * n;
        let cells = vec![0usize; len];
        assert(cells@ =~= Seq::new((m * n) as nat, |i: int| 0usize));
        Matrix { m, n, rules, cells }
    }

    /// Makes cell `i` alive.
    fn set_alive(&mut self, i: usize)
        requires
            i < old(self)@.cells.len(),
        ensures
            final(self)@ == old(self)@.with_alive(i as int),
    {
        self.cells[i] = 1;
    }

    /// The number of draws that `seed` makes for `cells`: the number
    /// given, or half the number of cells, rounded down.
    pub open spec fn draw_count(board: Board, cells: Option<usize>) -> int {
        match cells {
            Some(count) => count as int,
            None => board.cells.len() as int / 2,
        }
    }

    /// Seeds the grid at random: `draw_count` times, draws a position of
    /// the buffer and makes that cell alive. The draws are independent, so
    /// a position may come more than once.
    pub fn seed(&mut self, cells: Option<usize>)
        requires
            old(self)@.wf(),
        ensures
            exists|draws: Seq<usize>|
                {
                    &&& draws.len() == Self::draw_count(old(self)@, cells)
                    &&& draws_within(draws, old(self)@.cells.len())
                    &&& final(self)@ == #[trigger] old(self)@.seeded(draws)
                },
            Self::draw_count(old(self)@, cells) == 0 ==> final(self)@ == old(self)@,
            final(self)@.live_count() <= old(self)@.live_count() + Self::draw_count(
                old(self)@,
                cells,
            ),
            final(self)@.wf(),
    {
        proof {
            lemma_seeded_none(self@);
            lemma_nonempty(self@);
        }
        let len = self.cells.len();
        let iterations: usize = match cells {
            Some(count) => count,
            None => len / 2,
        };
        let mut rng = rand::thread_rng();
        let ghost mut draws = Seq::<usize>::empty();
        let mut done: usize = 0;
        while done < iterations
            invariant
                done <= iterations,
                len == old(self)@.cells.len(),
                len > 0,
                draws.len() == done,
                draws_within(draws, len as nat),
                self@ == old(self)@.seeded(draws),
                self@.live_count() <= old(self)@.live_count() + done,
                self@.wf(),
            decreases iterations - done,
        {
            let i = draw_index(&mut rng, len);
            self.set_alive(i);
            proof {
                lemma_seeded_push(old(self)@, draws, i);
                draws = draws.push(i);
            }
            done += 1;
        }
        assert(iterations == 0 ==> draws =~= Seq::<usize>::empty());
    }

    /// Seeds the grid at the positions `draws`, taken in order: each of
    /// them is made alive.
    pub fn seed_with(&mut self, draws: &Vec<usize>)
        requires
            old(self)@.wf(),
            draws_within(draws@, old(self)@.cells.len()),
        ensures
            final(self)@ == old(self)@.seeded(draws@),
            final(self)@.wf(),
    {
        proof {
            lemma_seeded_none(self@);
        }
        let mut k: usize = 0;
        assert(draws@.take(0) =~= Seq::<usize>::empty());
        while k < draws.len()
            invariant
                k <= draws.len(),
                draws_within(draws@, old(self)@.cells.len()),
                self@ == old(self)@.seeded(draws@.take(k as int)),
                self@.wf(),
            decreases draws.len() - k,
        {
            let i = draws[k];
            self.set_alive(i);
            proof {
                lemma_seeded_push(old(self)@, draws@.take(k as int), i);
                assert(draws@.take(k as int).push(i) =~= draws@.take(k as int + 1));
            }
            k += 1;
        }
        assert(draws@.take(k as int) =~= draws@);
    }

    /// The cell in row `row` and column `col`.
    fn at(&self, row: usize, col: usize) -> (cell: usize)
        requires
            self@.wf(),
            row < self@.rows,
            col < self@.cols,
        ensures
            cell == self@.at(row as int, col as int),
            cell <= 1,
    {
        proof {
            vstd::std_specs::vec::axiom_spec_len(&self.cells);
            lemma_position(self.m as int, self.n as int, row as int, col as int);
        }
        self.cells[row * self.n + col]
    }

    /// The grid as text: two glyphs for each cell, and a line feed after
    /// each row.
    pub fn to_string(&self) -> (text: String)
        requires
            self@.wf(),
        ensures
            text@ == self@.render(),
    {
        let mut text = String::new();
        let mut row: usize = 0;
        while row < self.m
            invariant
                self@.wf(),
                row <= self.m,
                text@ == self@.render_rows(row as int),
            decreases self.m - row,
        {
            let ghost above = text@;
            let ghost start = row * self.n;
            let mut col: usize = 0;
            proof {
                lemma_position(self.m as int, self.n as int, row as int, 0);
                assert(self@.cells.subrange(start, start) =~= Seq::<usize>::empty());
            }
            while col < self.n
                invariant
                    self@.wf(),
                    row < self.m,
                    col <= self.n,
                    start == row * self.n,
                    text@ == above + render_cells(self@.cells.subrange(start, start + col)),
                decreases self.n - col,
            {
                let cell = self.at(row, col);
                let shade = if cell == 0 {
                    '\u{2591}'
                } else {
                    '\u{2593}'
                };
                proof {
                    lemma_position(self.m as int, self.n as int, row as int, col as int);
                    let wider = self@.cells.subrange(start, start + col + 1);
                    assert(wider.drop_last() =~= self@.cells.subrange(start, start + col));
                    assert(wider.last() == cell);
                }
                push_char(&mut text, shade);
                push_char(&mut text, shade);
                col += 1;
            }
            push_char(&mut text, '\n');
            assert((row + 1) * self.n == start + self.n) by (nonlinear_arith)
                requires
                    start == row * self.n,
            ;
            row += 1;
        }
        text
    }

    /// The number of rows.
    pub fn m(&self) -> (m: usize)
        ensures
            m == self@.rows,
    {
        self.m
    }

    /// The number of columns.
    pub fn n(&self) -> (n: usize)
        ensures
            n == self@.cols,
    {
        self.n
    }

    /// The rule that governs the grid.
    pub fn rules(&self) -> (rules: &Rulestring)
        ensures
            rules@ == self@.rules,
    {
        &self.rules
    }

    /// The cells, row by row.
    pub fn cells(&self) -> (cells: &Vec<usize>)
        ensures
            cells@ == self@.cells,
    {
        &self.cells
    }

    /// The sum over the eight neighbours of the cell in row `row` and
    /// column `col`.
    fn sum_around(&self, row: usize, col: usize) -> (sum: usize)
        requires
            self@.wf(),
            row < self@.rows,
            col < self@.cols,
        ensures
            sum == self@.sum_around(row as int, col as int),
            sum <= 8,
    {
        let col_prev = index_before(col, self.n);
        let col_next = index_after(col, self.n);
        let row_prev = index_before(row, self.m);
        let row_next = index_after(row, self.m);
        self.at(row, col_prev) + self.at(row, col_next) + self.at(row_prev, col) + self.at(
            row_next,
            col,
        ) + self.at(row_prev, col_prev) + self.at(row_prev, col_next) + self.at(row_next, col_prev)
            + self.at(row_next, col_next)
    }

    /// Cell `i` of the next generation.
    fn next_cell(&self, i: usize) -> (cell: usize)
        requires
            self@.wf(),
            i < self@.cells.len(),
        ensures
            cell == self@.next_cell(i as int),
    {
        proof {
            lemma_row_col(self.m as int, self.n as int, i as int);
        }
        let sum = self.sum_around(i / self.n, i % self.n);
        if self.rules.b[sum] {
            1
        } else if self.rules.s[sum] {
            self.cells[i]
        } else {
            0
        }
    }

    /// The cells of the next generation, computed on rayon's thread pool
    /// by `par_iter` over the buffer, `enumerate`, `map` and `collect`.
    /// Believed of rayon: `enumerate` gives each cell its position, `map`
    /// calls `next_cell` once for each, and `collect` keeps the buffer's
    /// length and order. So the result holds at each position what
    /// `next_cell` is proved to return for it.
    #[verifier::external_body]
    fn next_cells(&self) -> (next: Vec<usize>)
        requires
            self@.wf(),
        ensures
            next@.len() == self@.cells.len(),
            forall|i: int| 0 <= i < next@.len() ==> next@[i] == self@.next_cell(i),
    {
        self.cells.par_iter().enumerate().map(|(i, _)| self.next_cell(i)).collect()
    }

    /// Replaces the grid by its next generation. Every cell is computed
    /// from the generation before the call.
    pub fn pulse(&mut self)
        requires
            old(self)@.wf(),
        ensures
            final(self)@ == old(self)@.step(),
            final(self)@.wf(),
    {
        let next = self.next_cells();
        assert(next@ =~= self@.step().cells);
        self.cells = next;
    }
}

/// The position before `k` on a circle of `n` positions.
fn index_before(k: usize, n: usize) -> (p: usize)
    requires
        k < n,
    ensures
        p == wrap_prev(k as int, n as int),
        p < n,
{
    proof {
        lemma_wrap(k as int, n as int);
    }
    if k == 0 {
        n - 1
    } else {
        k - 1
    }
}

/// The position after `k` on a circle of `n` positions.
fn index_after(k: usize, n: usize) -> (p: usize)
    requires
        k < n,
    ensures
        p == wrap_next(k as int, n as int),
        p < n,
{
    proof {
        lemma_wrap(k as int, n as int);
    }
    if k + 1 == n {
        0
    } else {
        k + 1
    }
}

} // verus!
