//! The mathematical model of a grid: a torus of cells, the sum over a
//! cell's eight neighbours, and the generation that follows from a rule.

use crate::rules::RuleView;
use vstd::prelude::*;

verus! {

/// A grid of `rows` by `cols` cells with the rule that governs it. The
/// cell in row `r` and column `c` is `cells[r * cols + c]`.
pub struct Board {
    pub rows: int,
    pub cols: int,
    pub rules: RuleView,
    pub cells: Seq<usize>,
}

/// `k - 1` on a circle of `n` positions.
pub open spec fn wrap_prev(k: int, n: int) -> int {
    (k + n - 1) % n
}

/// `k + 1` on a circle of `n` positions.
pub open spec fn wrap_next(k: int, n: int) -> int {
    (k + 1) % n
}

impl Board {
    /// There is at least one cell, the buffer has one entry for each, and
    /// every entry is 0 (dead) or 1 (alive).
    pub open spec fn wf(self) -> bool {
        &&& self.rows > 0
        &&& self.cols > 0
        &&& self.cells.len() == self.rows * self.cols
        &&& forall|i: int| 0 <= i < self.cells.len() ==> self.cells[i] <= 1
    }

    /// The cell in row `row` and column `col`.
    pub open spec fn at(self, row: int, col: int) -> int {
        self.cells[row * self.cols + col] as int
    }

    /// The sum over the eight neighbours of the cell in row `row` and
    /// column `col`, rows and columns wrapping around.
    pub open spec fn sum_around(self, row: int, col: int) -> int {
        let col_prev = wrap_prev(col, self.cols);
        let col_next = wrap_next(col, self.cols);
        let row_prev = wrap_prev(row, self.rows);
        let row_next = wrap_next(row, self.rows);
        self.at(row, col_prev) + self.at(row, col_next) + self.at(row_prev, col) + self.at(
            row_next,
            col,
        ) + self.at(row_prev, col_prev) + self.at(row_prev, col_next) + self.at(
            row_next,
            col_prev,
        ) + self.at(row_next, col_next)
    }

    /// The sum over the eight neighbours of cell `i`, which lies in row
    /// `i / cols` and column `i % cols`.
    pub open spec fn neighbour_sum(self, i: int) -> int {
        self.sum_around(i / self.cols, i % self.cols)
    }

    /// Cell `i` in the next generation: born where the rule's birth set
    /// holds the neighbour sum, unchanged where its survive set does, dead
    /// otherwise.
    pub open spec fn next_cell(self, i: int) -> usize {
        let sum = self.neighbour_sum(i);
        if self.rules.birth.contains(sum) {
            1
        } else if self.rules.survive.contains(sum) {
            self.cells[i]
        } else {
            0
        }
    }

    /// The next generation, every cell computed from this one.
    pub open spec fn step(self) -> Board {
        Board { cells: Seq::new(self.cells.len(), |i: int| self.next_cell(i)), ..self }
    }

    /// The grid with cell `i` alive and nothing else changed.
    pub open spec fn with_alive(self, i: int) -> Board {
        Board { cells: self.cells.update(i, 1), ..self }
    }

    /// The grid after seeding at the positions `draws`: a cell is alive
    /// where it was drawn, whether once or more often, and is as before
    /// where it was not.
    pub open spec fn seeded(self, draws: Seq<usize>) -> Board {
        Board {
            cells: Seq::new(
                self.cells.len(),
                |i: int|
                    if drawn(draws, i) {
                        1usize
                    } else {
                        self.cells[i]
                    },
            ),
            ..self
        }
    }

    /// The text of the rows below `upto`: each row's cells, then a line
    /// feed.
    pub open spec fn render_rows(self, upto: int) -> Seq<char>
        decreases upto,
    {
        if upto <= 0 {
            Seq::empty()
        } else {
            self.render_rows(upto - 1) + render_cells(
                self.cells.subrange((upto - 1) * self.cols, upto * self.cols),
            ).push('\n')
        }
    }

    /// The grid as text, one line for each row.
    pub open spec fn render(self) -> Seq<char> {
        self.render_rows(self.rows)
    }

    /// The positions of the live cells.
    pub open spec fn live(self) -> Set<int> {
        Set::new(|i: int| 0 <= i < self.cells.len() && self.cells[i] == 1)
    }

    /// How many cells are alive.
    pub open spec fn live_count(self) -> nat {
        self.live().len()
    }
}

/// The character that shows a cell: a light shade for a dead cell, a dark
/// shade for any other.
pub open spec fn glyph(cell: usize) -> char {
    if cell == 0 {
        '\u{2591}'
    } else {
        '\u{2593}'
    }
}

/// The text of a run of cells: the glyph of each, twice.
pub open spec fn render_cells(cells: Seq<usize>) -> Seq<char>
    decreases cells.len(),
{
    if cells.len() == 0 {
        Seq::empty()
    } else {
        render_cells(cells.drop_last()).push(glyph(cells.last())).push(glyph(cells.last()))
    }
}

/// Whether position `i` is among `draws`.
pub open spec fn drawn(draws: Seq<usize>, i: int) -> bool {
    exists|k: int| 0 <= k < draws.len() && #[trigger] draws[k] == i
}

/// Whether every position of `draws` lies in a buffer of `len` cells.
pub open spec fn draws_within(draws: Seq<usize>, len: nat) -> bool {
    forall|k: int| 0 <= k < draws.len() ==> #[trigger] draws[k] < len
}

/// On a circle of `n` positions, the neighbours of `k` are `k - 1` and
/// `k + 1`, but for the two ends, which meet.
pub proof fn lemma_wrap(k: int, n: int)
    requires
        0 <= k < n,
    ensures
        wrap_prev(k, n) == (if k == 0 {
            n - 1
        } else {
            k - 1
        }),
        wrap_next(k, n) == (if k + 1 == n {
            0
        } else {
            k + 1
        }),
{
    if k == 0 {
        vstd::arithmetic::div_mod::lemma_small_mod((n - 1) as nat, n as nat);
    } else {
        vstd::arithmetic::div_mod::lemma_fundamental_div_mod_converse(k + n - 1, n, 1, k - 1);
    }
    if k + 1 == n {
        vstd::arithmetic::div_mod::lemma_mod_self_0(n);
    } else {
        vstd::arithmetic::div_mod::lemma_small_mod((k + 1) as nat, n as nat);
    }
}

/// On a circle of `n` positions the neighbours of a position are
/// positions too.
pub proof fn lemma_wrap_within(k: int, n: int)
    requires
        0 <= k < n,
    ensures
        0 <= wrap_prev(k, n) < n,
        0 <= wrap_next(k, n) < n,
{
    lemma_wrap(k, n);
}

/// The cell in a row and a column of a well-formed grid is 0 or 1.
pub proof fn lemma_at_binary(board: Board, row: int, col: int)
    requires
        board.wf(),
        0 <= row < board.rows,
        0 <= col < board.cols,
    ensures
        0 <= board.at(row, col) <= 1,
{
    lemma_position(board.rows, board.cols, row, col);
}

/// The sum over a cell's neighbours lies between 0 and 8.
pub proof fn lemma_sum_bounded(board: Board, i: int)
    requires
        board.wf(),
        0 <= i < board.cells.len(),
    ensures
        0 <= board.neighbour_sum(i) <= 8,
{
    let row = i / board.cols;
    let col = i % board.cols;
    lemma_row_col(board.rows, board.cols, i);
    lemma_wrap_within(row, board.rows);
    lemma_wrap_within(col, board.cols);
    let col_prev = wrap_prev(col, board.cols);
    let col_next = wrap_next(col, board.cols);
    let row_prev = wrap_prev(row, board.rows);
    let row_next = wrap_next(row, board.rows);
    lemma_at_binary(board, row, col_prev);
    lemma_at_binary(board, row, col_next);
    lemma_at_binary(board, row_prev, col);
    lemma_at_binary(board, row_next, col);
    lemma_at_binary(board, row_prev, col_prev);
    lemma_at_binary(board, row_prev, col_next);
    lemma_at_binary(board, row_next, col_prev);
    lemma_at_binary(board, row_next, col_next);
}

/// The next generation of a well-formed grid is well-formed: a cell is
/// born as 1, survives as what it was, or dies as 0.
pub proof fn lemma_step_wf(board: Board)
    requires
        board.wf(),
    ensures
        board.step().wf(),
        board.step().rows == board.rows,
        board.step().cols == board.cols,
        board.step().rules == board.rules,
{
}

/// Determinism: the next generation is a function of the grid. Two grids
/// with the same sizes, rule and cells have the same next generation.
pub proof fn lemma_step_deterministic(a: Board, b: Board)
    requires
        a.rows == b.rows,
        a.cols == b.cols,
        a.rules == b.rules,
        a.cells == b.cells,
    ensures
        a.step() == b.step(),
{
}

/// A grid of one cell: each of the eight neighbours is the cell itself,
/// so the sum is eight times the cell. An alive cell is then judged by
/// the count 8, a dead one by the count 0.
pub proof fn lemma_single_cell(board: Board)
    requires
        board.wf(),
        board.rows == 1,
        board.cols == 1,
    ensures
        board.cells.len() == 1,
        board.neighbour_sum(0) == 8 * board.cells[0],
        board.cells[0] == 1 ==> board.step().cells[0] == (if board.rules.birth.contains(8)
            || board.rules.survive.contains(8) {
            1usize
        } else {
            0usize
        }),
        board.cells[0] == 0 ==> board.step().cells[0] == (if board.rules.birth.contains(0) {
            1usize
        } else {
            0usize
        }),
{
    assert(board.rows * board.cols == 1) by (nonlinear_arith)
        requires
            board.rows == 1,
            board.cols == 1,
    ;
    assert(wrap_prev(0, 1) == 0 && wrap_next(0, 1) == 0);
    assert(0int / 1 == 0 && 0int % 1 == 0);
    assert(board.at(0, 0) == board.cells[0]);
}

/// Where every cell is alive, every cell has the neighbour sum 8,
/// whatever the size of the grid.
pub proof fn lemma_all_alive(board: Board, i: int)
    requires
        board.wf(),
        forall|j: int| 0 <= j < board.cells.len() ==> board.cells[j] == 1,
        0 <= i < board.cells.len(),
    ensures
        board.neighbour_sum(i) == 8,
{
    let row = i / board.cols;
    let col = i % board.cols;
    lemma_row_col(board.rows, board.cols, i);
    lemma_wrap_within(row, board.rows);
    lemma_wrap_within(col, board.cols);
    let col_prev = wrap_prev(col, board.cols);
    let col_next = wrap_next(col, board.cols);
    let row_prev = wrap_prev(row, board.rows);
    let row_next = wrap_next(row, board.rows);
    lemma_position(board.rows, board.cols, row, col_prev);
    lemma_position(board.rows, board.cols, row, col_next);
    lemma_position(board.rows, board.cols, row_prev, col);
    lemma_position(board.rows, board.cols, row_next, col);
    lemma_position(board.rows, board.cols, row_prev, col_prev);
    lemma_position(board.rows, board.cols, row_prev, col_next);
    lemma_position(board.rows, board.cols, row_next, col_prev);
    lemma_position(board.rows, board.cols, row_next, col_next);
}

/// In a grid of two rows and two columns or more, a cell is none of its
/// own neighbours: where every other cell is dead, its neighbour sum is
/// 0, so that it lives on only by the count 0.
pub proof fn lemma_lone_cell(board: Board, i: int)
    requires
        board.wf(),
        board.rows >= 2,
        board.cols >= 2,
        0 <= i < board.cells.len(),
        forall|j: int| 0 <= j < board.cells.len() && j != i ==> board.cells[j] == 0,
    ensures
        board.neighbour_sum(i) == 0,
{
    let row = i / board.cols;
    let col = i % board.cols;
    lemma_row_col(board.rows, board.cols, i);
    lemma_wrap(row, board.rows);
    lemma_wrap(col, board.cols);
    let col_prev = wrap_prev(col, board.cols);
    let col_next = wrap_next(col, board.cols);
    let row_prev = wrap_prev(row, board.rows);
    let row_next = wrap_next(row, board.rows);
    lemma_position(board.rows, board.cols, row, col_prev);
    lemma_position(board.rows, board.cols, row, col_next);
    lemma_position(board.rows, board.cols, row_prev, col);
    lemma_position(board.rows, board.cols, row_next, col);
    lemma_position(board.rows, board.cols, row_prev, col_prev);
    lemma_position(board.rows, board.cols, row_prev, col_next);
    lemma_position(board.rows, board.cols, row_next, col_prev);
    lemma_position(board.rows, board.cols, row_next, col_next);
}

/// A grid has finitely many live cells, and no more than it has cells.
pub proof fn lemma_live_bounded(board: Board)
    ensures
        board.live().finite(),
        board.live_count() <= board.cells.len(),
{
    let all = vstd::set_lib::set_int_range(0, board.cells.len() as int);
    vstd::set_lib::lemma_int_range(0, board.cells.len() as int);
    vstd::set_lib::lemma_len_subset(board.live(), all);
}

/// Seeding with no draw at all changes nothing.
pub proof fn lemma_seeded_none(board: Board)
    ensures
        board.seeded(Seq::<usize>::empty()) == board,
{
    assert(board.seeded(Seq::<usize>::empty()).cells =~= board.cells);
}

/// One more draw makes one cell alive: seeding at `draws` and then at
/// `i` is seeding at `draws` with `i` appended, and adds at most one live
/// cell.
pub proof fn lemma_seeded_push(board: Board, draws: Seq<usize>, i: usize)
    requires
        i < board.cells.len(),
    ensures
        board.seeded(draws.push(i)) == board.seeded(draws).with_alive(i as int),
        board.seeded(draws.push(i)).live_count() <= board.seeded(draws).live_count() + 1,
{
    let more = draws.push(i);
    let before = board.seeded(draws);
    let after = board.seeded(more);
    assert forall|j: int| 0 <= j < board.cells.len() implies #[trigger] after.cells[j]
        == before.with_alive(i as int).cells[j] by {
        if drawn(draws, j) {
            let k = choose|k: int| 0 <= k < draws.len() && #[trigger] draws[k] == j;
            assert(more[k] == j);
        }
        if j == i {
            assert(more[draws.len() as int] == j);
        }
        if drawn(more, j) && j != i {
            let k = choose|k: int| 0 <= k < more.len() && #[trigger] more[k] == j;
            assert(draws[k] == j);
        }
    }
    assert(after.cells =~= before.with_alive(i as int).cells);
    lemma_live_bounded(before);
    assert(after.live() =~= before.live().insert(i as int));
}

/// Seeding makes no more cells alive than there are draws.
pub proof fn lemma_seeded_live_count(board: Board, draws: Seq<usize>)
    requires
        draws_within(draws, board.cells.len()),
    ensures
        board.seeded(draws).live_count() <= board.live_count() + draws.len(),
        board.seeded(draws).live_count() <= board.cells.len(),
    decreases draws.len(),
{
    lemma_live_bounded(board.seeded(draws));
    if draws.len() == 0 {
        lemma_seeded_none(board);
        assert(draws =~= Seq::<usize>::empty());
    } else {
        let init = draws.drop_last();
        assert(draws =~= init.push(draws.last()));
        lemma_seeded_live_count(board, init);
        lemma_seeded_push(board, init, draws.last());
    }
}

/// Row `r` and column `c` of a grid lie inside its buffer, and the
/// position splits back into that row and that column.
pub proof fn lemma_position(rows: int, cols: int, r: int, c: int)
    requires
        0 <= r < rows,
        0 <= c < cols,
    ensures
        0 <= r * cols + c < rows * cols,
        (r * cols + c) / cols == r,
        (r * cols + c) % cols == c,
{
    assert(0 <= r * cols + c < rows * cols) by (nonlinear_arith)
        requires
            0 <= r < rows,
            0 <= c < cols,
    ;
    vstd::arithmetic::div_mod::lemma_fundamental_div_mod_converse(r * cols + c, cols, r, c);
}

/// A well-formed grid has a cell.
pub proof fn lemma_nonempty(board: Board)
    requires
        board.wf(),
    ensures
        board.cells.len() > 0,
{
    assert(board.rows * board.cols > 0) by (nonlinear_arith)
        requires
            board.rows > 0,
            board.cols > 0,
    ;
}

/// A position of the buffer splits into a row and a column of the grid.
pub proof fn lemma_row_col(rows: int, cols: int, i: int)
    requires
        rows > 0,
        cols > 0,
        0 <= i < rows * cols,
    ensures
        0 <= i / cols < rows,
        0 <= i % cols < cols,
        (i / cols) * cols + i % cols == i,
{
    vstd::arithmetic::div_mod::lemma_fundamental_div_mod(i, cols);
    assert(0 <= i / cols < rows && (i / cols) * cols == cols * (i / cols)) by (nonlinear_arith)
        requires
            rows > 0,
            cols > 0,
            0 <= i < rows * cols,
            i == cols * (i / cols) + i % cols,
            0 <= i % cols < cols,
    ;
}

} // verus!
