use vstd::prelude::*;

use super::counting::lemma_same_block;

verus! {

/// The largest number of values that a cell can take.
pub const MAX_COUNT: usize = 35;

/// A Sudoku board. It is made of blocks; `rows` and `cols` say how many
/// blocks lie below and beside each other, and a block has `cols` rows and
/// `rows` columns of cells, so that the board is square with `rows * cols`
/// cells a side and as many values. The board keeps for each cell which
/// values are still possible in it.
pub struct Board {
    pub(crate) count: usize,
    pub(crate) cols: usize,
    pub(crate) rows: usize,
    pub(crate) data: Vec<bool>,
}

/// A decimal or other small product stays small.
pub proof fn lemma_offset_bound(row: int, col: int, val: int, count: int)
    requires
        0 <= row < count,
        0 <= col < count,
        0 <= val < count,
        count <= 35,
    ensures
        0 <= row * count * count + col * count + val < count * count * count,
        count * count * count <= 42875,
        0 <= row * count + col < count * count,
        (row * count + col) * count + val == row * count * count + col * count + val,
{
    assert(row * count * count <= (count - 1) * count * count) by (nonlinear_arith)
        requires
            0 <= row <= count - 1,
            count >= 0,
    ;
    assert(col * count <= (count - 1) * count) by (nonlinear_arith)
        requires
            0 <= col <= count - 1,
            count >= 0,
    ;
    assert(row * count * count >= 0 && col * count >= 0) by (nonlinear_arith)
        requires
            0 <= row,
            0 <= col,
            count >= 0,
    ;
    assert((count - 1) * count * count + (count - 1) * count + count == count * count * count) by (nonlinear_arith);
    assert(count * count * count <= 42875) by (nonlinear_arith)
        requires
            0 <= count <= 35,
    ;
    assert(row * count <= (count - 1) * count && row * count >= 0) by (nonlinear_arith)
        requires
            0 <= row <= count - 1,
            count >= 0,
    ;
    assert((count - 1) * count + count == count * count) by (nonlinear_arith);
    assert((row * count + col) * count + val == row * count * count + col * count + val) by (nonlinear_arith);
}

impl Board {
    /// The number of cells a side, which is also the number of values.
    pub open(crate) spec fn size(&self) -> int {
        self.count as int
    }

    /// Whether the value `val`, counted from 0, is still possible in the cell.
    pub open(crate) spec fn possible(&self, row: int, col: int, val: int) -> bool {
        self.data@[row * self.count * self.count + col * self.count + val]
    }

    /// The board's measures fit together.
    pub open(crate) spec fn wf(&self) -> bool {
        &&& self.count == self.rows * self.cols
        &&& 1 <= self.count <= MAX_COUNT
        &&& self.data@.len() == self.count * self.count * self.count
        &&& self.data@.len() <= 42875
    }

    /// Exactly the value `val`, counted from 1, is possible in the cell.
    pub open(crate) spec fn holds(&self, row: int, col: int, val: int) -> bool {
        forall|v: int| 0 <= v < self.count ==> #[trigger] self.possible(row, col, v) == (v == val - 1)
    }

    /// Where the possibilities of the cell begin among the board's data.
    pub(crate) fn offset(&self, row: usize, col: usize, val: usize) -> (at: usize)
        requires
            self.wf(),
            row < self.count,
            col < self.count,
            val < self.count,
        ensures
            at == row * self.count * self.count + col * self.count + val,
            at < self.data@.len(),
    {
        proof {
            lemma_offset_bound(row as int, col as int, val as int, self.count as int);
            assert(row * self.count <= 35 * 35) by (nonlinear_arith)
                requires
                    row < self.count <= 35,
            ;
            assert(row * self.count * self.count <= 35 * 35 * 35) by (nonlinear_arith)
                requires
                    row < self.count <= 35,
            ;
            assert(col * self.count <= 35 * 35) by (nonlinear_arith)
                requires
                    col < self.count <= 35,
            ;
        }
        row * self.count * self.count + col * self.count + val
    }

    /// The number of cells a side.
    pub fn count(&self) -> (count: usize)
        ensures
            count == self.size(),
    {
        self.count
    }

    /// Whether the value `val`, counted from 0, is still possible in the cell.
    pub fn is_possible(&self, row: usize, col: usize, val: usize) -> (possible: bool)
        requires
            self.wf(),
            row < self.size(),
            col < self.size(),
            val < self.size(),
        ensures
            possible == self.possible(row as int, col as int, val as int),
    {
        let at = self.offset(row, col, val);
        self.data[at]
    }

    /// An empty board: every value is possible in every cell.
    pub fn new(rows: usize, cols: usize) -> (board: Board)
        requires
            1 <= rows * cols <= MAX_COUNT,
        ensures
            board.wf(),
            board.size() == rows * cols,
            forall|row: int, col: int, val: int|
                0 <= row < board.size() && 0 <= col < board.size() && 0 <= val < board.size()
                    ==> #[trigger] board.possible(row, col, val),
    {
        proof {
            assert(rows <= 35 && cols <= 35) by (nonlinear_arith)
                requires
                    1 <= rows * cols <= 35,
            ;
        }
        let count = cols * rows;
        proof {
            assert(count == rows * cols) by (nonlinear_arith)
                requires
                    count == cols * rows,
            ;
            assert(count * count <= 35 * 35 && count * count * count <= 35 * 35 * 35) by (nonlinear_arith)
                requires
                    count <= 35,
            ;
        }
        let mut data: Vec<bool> = Vec::new();
        data.resize(count * count * count, true);
        let board = Board { count, cols, rows, data };
        proof {
            assert forall|row: int, col: int, val: int|
                0 <= row < board.size() && 0 <= col < board.size() && 0 <= val < board.size() implies #[trigger] board.possible(
                row,
                col,
                val,
            ) by {
                lemma_offset_bound(row, col, val, count as int);
            }
        }
        board
    }

    /// Writes the value `val`, counted from 1, into the cell.
    pub fn set(&mut self, row: usize, col: usize, val: usize) -> (board: &mut Board)
        requires
            old(self).wf(),
            row < old(self).size(),
            col < old(self).size(),
            0 < val <= old(self).size(),
        ensures
            board.wf(),
            board.size() == old(self).size(),
            board.holds(row as int, col as int, val as int),
            forall|r: int, c: int, v: int|
                0 <= r < board.size() && 0 <= c < board.size() && 0 <= v < board.size() && (r != row
                    || c != col) ==> #[trigger] board.possible(r, c, v) == old(self).possible(
                    r,
                    c,
                    v,
                ),
            *final(self) == *final(board),
    {
        let offset = self.offset(row, col, 0);
        let count = self.count;
        let ghost data0 = self.data@;
        let mut i: usize = 0;
        proof {
            lemma_offset_bound(row as int, col as int, 0, count as int);
            lemma_offset_bound(row as int, col as int, count - 1, count as int);
        }
        while i < count
            invariant
                i <= count,
                count == self.count,
                self.count == old(self).count,
                self.rows == old(self).rows,
                self.cols == old(self).cols,
                self.data@.len() == data0.len(),
                offset + count <= data0.len(),
                data0.len() <= 42875,
                val >= 1,
                forall|j: int|
                    offset <= j < offset + i ==> #[trigger] self.data@[j] == (j - offset == val - 1),
                forall|k: int|
                    0 <= k < data0.len() && !(offset <= k < offset + i) ==> #[trigger] self.data@[k]
                        == data0[k],
            decreases count - i,
        {
            self.data[offset + i] = i == val - 1;
            i += 1;
        }
        proof {
            assert forall|v: int| 0 <= v < self.count implies #[trigger] self.possible(
                row as int,
                col as int,
                v,
            ) == (v == val - 1) by {
                assert(self.data@[offset + v] == (v == val - 1));
            }
            assert forall|r: int, c: int, v: int|
                0 <= r < self.size() && 0 <= c < self.size() && 0 <= v < self.size() && (r != row || c
                    != col) implies #[trigger] self.possible(r, c, v) == old(self).possible(r, c, v) by {
                lemma_offset_bound(r, c, v, count as int);
                lemma_cells_apart(r, c, v, row as int, col as int, count as int);
            }
        }
        self
    }

    /// Whether exactly one value is possible in the cell.
    pub fn is_set(&self, row: usize, col: usize) -> (set: bool)
        requires
            self.wf(),
            row < self.size(),
            col < self.size(),
        ensures
            set == exists|val: int| 1 <= val <= self.size() && #[trigger] self.holds(row as int, col as int, val),
    {
        let offset = self.offset(row, col, 0);
        proof {
            lemma_offset_bound(row as int, col as int, self.count - 1, self.count as int);
        }
        let mut found = false;
        let ghost mut which: int = 0;
        let mut i: usize = 0;
        while i < self.count
            invariant
                i <= self.count,
                self.wf(),
                offset == row * self.count * self.count + col * self.count,
                offset + self.count <= self.data@.len(),
                self.data@.len() <= 42875,
                !found ==> forall|j: int| offset <= j < offset + i ==> !#[trigger] self.data@[j],
                found ==> 0 <= which < i && forall|j: int|
                    offset <= j < offset + i ==> #[trigger] self.data@[j] == (j - offset == which),
            decreases self.count - i,
        {
            if self.data[offset + i] {
                if found {
                    proof {
                        assert forall|val: int| 1 <= val <= self.size() implies !#[trigger] self.holds(
                            row as int,
                            col as int,
                            val,
                        ) by {
                            if self.holds(row as int, col as int, val) {
                                assert(self.possible(row as int, col as int, which) == (which == val
                                    - 1));
                                assert(self.possible(row as int, col as int, i as int) == (i == val
                                    - 1));
                            }
                        }
                    }
                    return false;
                } else {
                    found = true;
                    proof {
                        which = i as int;
                    }
                }
            }
            i += 1;
        }
        proof {
            if found {
                assert(self.holds(row as int, col as int, which + 1)) by {
                    assert forall|v: int| 0 <= v < self.count implies #[trigger] self.possible(
                        row as int,
                        col as int,
                        v,
                    ) == (v == which) by {
                        assert(self.data@[offset + v] == (v == which));
                    }
                }
            } else {
                assert forall|val: int| 1 <= val <= self.size() implies !#[trigger] self.holds(
                    row as int,
                    col as int,
                    val,
                ) by {
                    if self.holds(row as int, col as int, val) {
                        assert(self.possible(row as int, col as int, val - 1) == (val - 1 == val - 1));
                        assert(!self.data@[offset + (val - 1)]);
                    }
                }
            }
        }
        found
    }
}

/// The place of a possibility tells its cell and its value.
pub proof fn lemma_cell_of(name: int, count: int)
    requires
        0 <= name < count * count * count,
        count >= 1,
    ensures
        0 <= name / count < count * count,
        0 <= name % count < count,
{
    vstd::arithmetic::div_mod::lemma_fundamental_div_mod(name, count);
    vstd::arithmetic::div_mod::lemma_mod_pos_bound(name, count);
    vstd::arithmetic::div_mod::lemma_div_pos_is_pos(name, count);
    let q = name / count;
    if q >= count * count {
        assert(count * q >= count * (count * count)) by (nonlinear_arith)
            requires
                q >= count * count,
                count >= 1,
        ;
        assert(count * (count * count) == count * count * count) by (nonlinear_arith);
    }
}

/// The number of possibilities that are left on a board.
pub open spec fn count_true(data: Seq<bool>) -> nat
    decreases data.len(),
{
    if data.len() == 0 {
        0
    } else {
        count_true(data.drop_last()) + if data.last() {
            1nat
        } else {
            0nat
        }
    }
}

/// Striking a possibility leaves one fewer.
pub proof fn lemma_count_true_clear(data: Seq<bool>, at: int)
    requires
        0 <= at < data.len(),
        data[at],
    ensures
        count_true(data.update(at, false)) == count_true(data) - 1,
    decreases data.len(),
{
    let after = data.update(at, false);
    if at == data.len() - 1 {
        assert(after.drop_last() =~= data.drop_last());
    } else {
        assert(after.drop_last() =~= data.drop_last().update(at, false));
        lemma_count_true_clear(data.drop_last(), at);
    }
}

/// The block of a cell begins at most a block's length before the board's
/// end.
pub proof fn lemma_block_start(at: int, length: int, blocks: int)
    requires
        0 <= at < length * blocks,
        length >= 1,
        blocks >= 1,
    ensures
        0 <= at - at % length <= at,
        at - at % length + length <= length * blocks,
{
    vstd::arithmetic::div_mod::lemma_fundamental_div_mod(at, length);
    vstd::arithmetic::div_mod::lemma_mod_pos_bound(at, length);
    let q = at / length;
    assert(at - at % length == length * q);
    if q >= blocks {
        assert(length * q >= length * blocks) by (nonlinear_arith)
            requires
                q >= blocks,
                length >= 1,
        ;
    }
    assert(length * q + length <= length * blocks) by (nonlinear_arith)
        requires
            q + 1 <= blocks,
            length >= 1,
    ;
}

impl Board {
    /// From `before` on, possibilities were only struck.
    pub open(crate) spec fn within(&self, before: &Board) -> bool {
        &&& self.count == before.count
        &&& self.rows == before.rows
        &&& self.cols == before.cols
        &&& self.data@.len() == before.data@.len()
        &&& forall|k: int| 0 <= k < self.data@.len() && #[trigger] self.data@[k] ==> before.data@[k]
    }

    /// Whether the two cells lie in one row, in one column or in one block.
    pub open(crate) spec fn related(&self, row: int, col: int, other_row: int, other_col: int) -> bool {
        ||| row == other_row
        ||| col == other_col
        ||| (row - row % (self.cols as int) == other_row - other_row % (self.cols as int) && col - col
            % (self.rows as int) == other_col - other_col % (self.rows as int))
    }

    /// The value `val`, counted from 0, which alone is left in the cell, is
    /// left in no other cell of its row, its column or its block.
    pub open(crate) spec fn alone(&self, row: int, col: int, val: int) -> bool {
        forall|r: int, c: int|
            0 <= r < self.count && 0 <= c < self.count && (r != row || c != col) && self.related(
                row,
                col,
                r,
                c,
            ) ==> !#[trigger] self.possible(r, c, val)
    }

    /// Nothing is left to deduce: a value that alone is left in a cell is left
    /// in no other cell of that cell's row, column or block.
    pub open(crate) spec fn deduced(&self) -> bool {
        forall|row: int, col: int, val: int|
            0 <= row < self.count && 0 <= col < self.count && 1 <= val <= self.count
                && #[trigger] self.holds(row, col, val) ==> self.alone(row, col, val - 1)
    }

    /// Why the value `v` may have been struck from the cell since `before`:
    /// another cell of its row, its column or its block had the value left
    /// then and has no other value left now.
    pub open(crate) spec fn reason(&self, before: &Board, r: int, c: int, v: int) -> bool {
        exists|r2: int, c2: int|
            0 <= r2 < self.count && 0 <= c2 < self.count && (r2 != r || c2 != c) && #[trigger] self.related(
                r2,
                c2,
                r,
                c,
            ) && before.possible(r2, c2, v) && forall|w: int|
                0 <= w < self.count && w != v ==> !#[trigger] self.possible(r2, c2, w)
    }

    /// Nothing was struck since `before` without a reason: a value is gone
    /// from a cell only where another cell of its row, its column or its
    /// block held that value alone.
    pub open(crate) spec fn reasoned(&self, before: &Board) -> bool {
        forall|r: int, c: int, v: int|
            0 <= r < self.count && 0 <= c < self.count && 0 <= v < self.count && #[trigger] before.possible(
                r,
                c,
                v,
            ) && !self.possible(r, c, v) ==> self.reason(before, r, c, v)
    }

    /// What was struck with reason, step after step, was struck with reason.
    pub(crate) proof fn lemma_reasoned_chain(&self, first: &Board, mid: &Board)
        requires
            first.wf(),
            mid.wf(),
            self.wf(),
            mid.within(first),
            self.within(mid),
            mid.reasoned(first),
            self.reasoned(mid),
        ensures
            self.reasoned(first),
    {
        let count = self.count as int;
        assert forall|r: int, c: int, v: int|
            0 <= r < self.count && 0 <= c < self.count && 0 <= v < self.count && #[trigger] first.possible(
                r,
                c,
                v,
            ) && !self.possible(r, c, v) implies self.reason(first, r, c, v) by {
            lemma_offset_bound(r, c, v, count);
            if !mid.possible(r, c, v) {
                assert(mid.reason(first, r, c, v));
                let (r2, c2) = choose|r2: int, c2: int|
                    0 <= r2 < mid.count && 0 <= c2 < mid.count && (r2 != r || c2 != c) && #[trigger] mid.related(
                        r2,
                        c2,
                        r,
                        c,
                    ) && first.possible(r2, c2, v) && forall|w: int|
                        0 <= w < mid.count && w != v ==> !#[trigger] mid.possible(r2, c2, w);
                assert(self.related(r2, c2, r, c));
                assert forall|w: int| 0 <= w < self.count && w != v implies !#[trigger] self.possible(
                    r2,
                    c2,
                    w,
                ) by {
                    lemma_offset_bound(r2, c2, w, count);
                    assert(!mid.possible(r2, c2, w));
                }
            } else {
                assert(self.reason(mid, r, c, v));
                let (r2, c2) = choose|r2: int, c2: int|
                    0 <= r2 < self.count && 0 <= c2 < self.count && (r2 != r || c2 != c) && #[trigger] self.related(
                        r2,
                        c2,
                        r,
                        c,
                    ) && mid.possible(r2, c2, v) && forall|w: int|
                        0 <= w < self.count && w != v ==> !#[trigger] self.possible(r2, c2, w);
                lemma_offset_bound(r2, c2, v, count);
                assert(first.possible(r2, c2, v));
            }
        }
    }

    /// The value that alone is left in the cell, counted from 0, if one is.
    fn single(&self, row: usize, col: usize) -> (only: Option<usize>)
        requires
            self.wf(),
            row < self.count,
            col < self.count,
        ensures
            match only {
                Some(val) => val < self.count && self.holds(row as int, col as int, val + 1),
                None => forall|val: int| 1 <= val <= self.count ==> !#[trigger] self.holds(row as int, col as int, val),
            },
    {
        let offset = self.offset(row, col, 0);
        proof {
            lemma_offset_bound(row as int, col as int, self.count - 1, self.count as int);
        }
        let mut val: usize = 0;
        let mut c: usize = 0;
        let mut x: usize = 0;
        while x < self.count
            invariant
                x <= self.count,
                self.wf(),
                offset == row * self.count * self.count + col * self.count,
                offset + self.count <= self.data@.len(),
                c <= x,
                c == 0 ==> forall|j: int| offset <= j < offset + x ==> !#[trigger] self.data@[j],
                c == 1 ==> val < x && forall|j: int|
                    offset <= j < offset + x ==> #[trigger] self.data@[j] == (j - offset == val),
                c >= 2 ==> exists|j: int, k: int|
                    offset <= j < k < offset + x && self.data@[j] && self.data@[k],
            decreases self.count - x,
        {
            if self.data[offset + x] {
                proof {
                    if c == 1 {
                        assert(self.data@[offset + val] && self.data@[offset + x]);
                    }
                    if c >= 2 {
                        let (j, k) = choose|j: int, k: int|
                            offset <= j < k < offset + x && self.data@[j] && self.data@[k];
                        assert(offset <= j < k < offset + x + 1 && self.data@[j] && self.data@[k]);
                    }
                }
                val = x;
                c += 1;
            }
            x += 1;
        }
        if c == 1 {
            proof {
                assert forall|v: int| 0 <= v < self.count implies #[trigger] self.possible(
                    row as int,
                    col as int,
                    v,
                ) == (v == val + 1 - 1) by {
                    assert(self.data@[offset + v] == (v == val));
                }
            }
            Some(val)
        } else {
            proof {
                assert forall|v: int| 1 <= v <= self.count implies !#[trigger] self.holds(
                    row as int,
                    col as int,
                    v,
                ) by {
                    if self.holds(row as int, col as int, v) {
                        assert forall|j: int| offset <= j < offset + self.count implies self.data@[j] == (j
                            - offset == v - 1) by {
                            assert(self.possible(row as int, col as int, j - offset) == (j - offset == v
                                - 1));
                        }
                        if c == 0 {
                            assert(!self.data@[offset + (v - 1)]);
                        } else {
                            let (j, k) = choose|j: int, k: int|
                                offset <= j < k < offset + self.count && self.data@[j] && self.data@[k];
                        }
                    }
                }
            }
            None
        }
    }

    /// Strikes the value `val`, counted from 0, from the cell, unless that is
    /// the cell (`row`, `col`). Returns whether the value was left there.
    fn strike(&mut self, row: usize, col: usize, val: usize, at_row: usize, at_col: usize) -> (struck: bool)
        requires
            old(self).wf(),
            row < old(self).count,
            col < old(self).count,
            at_row < old(self).count,
            at_col < old(self).count,
            val < old(self).count,
        ensures
            final(self).wf(),
            final(self).within(old(self)),
            struck ==> count_true(final(self).data@) < count_true(old(self).data@),
            !struck ==> *final(self) == *old(self),
            (at_row != row || at_col != col) ==> !final(self).possible(at_row as int, at_col as int, val as int),
            forall|v: int|
                0 <= v < final(self).count ==> #[trigger] final(self).possible(row as int, col as int, v) == old(
                    self,
                ).possible(row as int, col as int, v),
            old(self).holds(row as int, col as int, val + 1) && old(self).related(
                row as int,
                col as int,
                at_row as int,
                at_col as int,
            ) ==> final(self).keeps(old(self)) && final(self).reasoned(old(self)),
    {
        let pos = self.offset(row, col, val);
        let offset = self.offset(at_row, at_col, val);
        if pos != offset && self.data[offset] {
            proof {
                lemma_count_true_clear(self.data@, offset as int);
            }
            self.data[offset] = false;
            proof {
                let count = self.count as int;
                assert forall|r: int, c: int, v: int|
                    0 <= r < count && 0 <= c < count && 0 <= v < count && (r != at_row || c != at_col || v
                        != val) implies #[trigger] self.possible(r, c, v) == old(self).possible(r, c, v) by {
                    lemma_offset_bound(r, c, v, count);
                    lemma_offset_bound(at_row as int, at_col as int, val as int, count);
                    if r != at_row || c != at_col {
                        lemma_cells_apart(r, c, v, at_row as int, at_col as int, count);
                    }
                }
                if at_row == row && at_col == col {
                    assert(pos == offset);
                }
                if old(self).holds(row as int, col as int, val + 1) && old(self).related(
                    row as int,
                    col as int,
                    at_row as int,
                    at_col as int,
                ) {
                    self.lemma_strike_sound(
                        old(self),
                        row as int,
                        col as int,
                        val as int,
                        at_row as int,
                        at_col as int,
                    );
                    assert forall|r: int, c: int, v: int|
                        0 <= r < self.count && 0 <= c < self.count && 0 <= v < self.count && #[trigger] old(
                            self,
                        ).possible(r, c, v) && !self.possible(r, c, v) implies self.reason(
                        old(self),
                        r,
                        c,
                        v,
                    ) by {
                        assert(r == at_row && c == at_col && v == val);
                        assert(self.related(row as int, col as int, r, c));
                        assert(old(self).possible(row as int, col as int, val as int) == (val == val + 1 - 1));
                        assert forall|w: int| 0 <= w < self.count && w != val implies !#[trigger] self.possible(
                            row as int,
                            col as int,
                            w,
                        ) by {
                            assert(old(self).possible(row as int, col as int, w) == (w == val + 1 - 1));
                        }
                    }
                }
            }
            true
        } else {
            proof {
                if at_row != row || at_col != col {
                    lemma_offset_bound(at_row as int, at_col as int, val as int, self.count as int);
                    lemma_cells_apart(
                        at_row as int,
                        at_col as int,
                        val as int,
                        row as int,
                        col as int,
                        self.count as int,
                    );
                    lemma_offset_bound(row as int, col as int, val as int, self.count as int);
                }
            }
            false
        }
    }

    /// Strikes the value `val`, which alone is left in the cell, from the
    /// other cells of the cell's row, column and block. Returns whether it
    /// was left in one of them.
    fn strike_around(&mut self, row: usize, col: usize, val: usize) -> (found: bool)
        requires
            old(self).wf(),
            row < old(self).count,
            col < old(self).count,
            val < old(self).count,
            old(self).holds(row as int, col as int, val + 1),
        ensures
            final(self).wf(),
            final(self).within(old(self)),
            final(self).keeps(old(self)),
            final(self).reasoned(old(self)),
            found ==> count_true(final(self).data@) < count_true(old(self).data@),
            !found ==> *final(self) == *old(self) && final(self).alone(row as int, col as int, val as int),
    {
        let count = self.count;
        let mut found = false;
        let mut c2: usize = 0;
        while c2 < count
            invariant
                c2 <= count,
                count == self.count,
                self.wf(),
                self.within(old(self)),
                self.keeps(old(self)),
                self.reasoned(old(self)),
                old(self).wf(),
                self.holds(row as int, col as int, val + 1),
                row < count,
                col < count,
                val < count,
                found ==> count_true(self.data@) < count_true(old(self).data@),
                !found ==> *self == *old(self),
                forall|c: int| 0 <= c < c2 && c != col ==> !#[trigger] self.possible(row as int, c, val as int),
            decreases count - c2,
        {
            let ghost before = *self;
            if self.strike(row, col, val, row, c2) {
                found = true;
            }
            proof {
                self.lemma_reasoned_chain(old(self), &before);
                assert forall|c: int| 0 <= c < c2 + 1 && c != col implies !#[trigger] self.possible(
                    row as int,
                    c,
                    val as int,
                ) by {
                    if c < c2 {
                        assert(!before.possible(row as int, c, val as int));
                        lemma_offset_bound(row as int, c, val as int, count as int);
                    }
                }
            }
            c2 += 1;
        }
        let mut r2: usize = 0;
        while r2 < count
            invariant
                r2 <= count,
                count == self.count,
                self.wf(),
                self.within(old(self)),
                self.keeps(old(self)),
                self.reasoned(old(self)),
                old(self).wf(),
                self.holds(row as int, col as int, val + 1),
                row < count,
                col < count,
                val < count,
                found ==> count_true(self.data@) < count_true(old(self).data@),
                !found ==> *self == *old(self),
                forall|c: int| 0 <= c < count && c != col ==> !#[trigger] self.possible(row as int, c, val as int),
                forall|r: int| 0 <= r < r2 && r != row ==> !#[trigger] self.possible(r, col as int, val as int),
            decreases count - r2,
        {
            let ghost before = *self;
            if self.strike(row, col, val, r2, col) {
                found = true;
            }
            proof {
                self.lemma_reasoned_chain(old(self), &before);
                assert forall|c: int| 0 <= c < count && c != col implies !#[trigger] self.possible(
                    row as int,
                    c,
                    val as int,
                ) by {
                    assert(!before.possible(row as int, c, val as int));
                    lemma_offset_bound(row as int, c, val as int, count as int);
                }
                assert forall|r: int| 0 <= r < r2 + 1 && r != row implies !#[trigger] self.possible(
                    r,
                    col as int,
                    val as int,
                ) by {
                    if r < r2 {
                        assert(!before.possible(r, col as int, val as int));
                        lemma_offset_bound(r, col as int, val as int, count as int);
                    }
                }
            }
            r2 += 1;
        }
        proof {
            assert(self.rows >= 1 && self.cols >= 1) by (nonlinear_arith)
                requires
                    1 <= self.rows * self.cols,
            ;
            assert(self.cols * self.rows == self.rows * self.cols) by (nonlinear_arith);
            lemma_block_start(row as int, self.cols as int, self.rows as int);
            lemma_block_start(col as int, self.rows as int, self.cols as int);
        }
        let x = row - row % self.cols;
        let y = col - col % self.rows;
        let mut a: usize = 0;
        while a < self.rows
            invariant
                a <= self.rows,
                count == self.count,
                self.wf(),
                self.within(old(self)),
                self.keeps(old(self)),
                self.reasoned(old(self)),
                old(self).wf(),
                self.holds(row as int, col as int, val + 1),
                row < count,
                col < count,
                val < count,
                x + self.cols <= count,
                y + self.rows <= count,
                x == row - row % self.cols,
                y == col - col % self.rows,
                self.rows >= 1,
                self.cols >= 1,
                found ==> count_true(self.data@) < count_true(old(self).data@),
                !found ==> *self == *old(self),
                forall|c: int| 0 <= c < count && c != col ==> !#[trigger] self.possible(row as int, c, val as int),
                forall|r: int| 0 <= r < count && r != row ==> !#[trigger] self.possible(r, col as int, val as int),
                forall|r: int, c: int|
                    x <= r < x + self.cols && y <= c < y + a && (r != row || c != col)
                        ==> !#[trigger] self.possible(r, c, val as int),
            decreases self.rows - a,
        {
            let mut b: usize = 0;
            while b < self.cols
                invariant
                    b <= self.cols,
                    a < self.rows,
                    count == self.count,
                    self.wf(),
                    self.within(old(self)),
                    self.keeps(old(self)),
                    self.reasoned(old(self)),
                    old(self).wf(),
                    self.holds(row as int, col as int, val + 1),
                    row < count,
                    col < count,
                    val < count,
                    x + self.cols <= count,
                    y + self.rows <= count,
                    x == row - row % self.cols,
                    y == col - col % self.rows,
                    self.rows >= 1,
                    self.cols >= 1,
                    found ==> count_true(self.data@) < count_true(old(self).data@),
                    !found ==> *self == *old(self),
                    forall|c: int|
                        0 <= c < count && c != col ==> !#[trigger] self.possible(row as int, c, val as int),
                    forall|r: int|
                        0 <= r < count && r != row ==> !#[trigger] self.possible(r, col as int, val as int),
                    forall|r: int, c: int|
                        x <= r < x + self.cols && y <= c < y + a && (r != row || c != col)
                            ==> !#[trigger] self.possible(r, c, val as int),
                    forall|r: int|
                        x <= r < x + b && (r != row || y + a != col) ==> !#[trigger] self.possible(
                            r,
                            y + a,
                            val as int,
                        ),
                decreases self.cols - b,
            {
                let ghost before = *self;
                proof {
                    assert(self.cols * self.rows == self.rows * self.cols) by (nonlinear_arith);
                    lemma_same_block(row as int, self.cols as int, self.rows as int, b as int);
                    lemma_same_block(col as int, self.rows as int, self.cols as int, a as int);
                    assert(self.related(row as int, col as int, x + b, y + a));
                }
                if self.strike(row, col, val, x + b, y + a) {
                    found = true;
                }
                proof {
                    self.lemma_reasoned_chain(old(self), &before);
                    self.lemma_struck_kept(&before, val as int);
                }
                b += 1;
            }
            a += 1;
        }
        proof {
            if !found {
                assert forall|r: int, c: int|
                    0 <= r < self.count && 0 <= c < self.count && (r != row || c != col)
                        && self.related(row as int, col as int, r, c) implies !#[trigger] self.possible(
                    r,
                    c,
                    val as int,
                ) by {
                    if r == row {
                    } else if c == col {
                    } else {
                        lemma_block_start(r, self.cols as int, self.rows as int);
                        lemma_block_start(c, self.rows as int, self.cols as int);
                        vstd::arithmetic::div_mod::lemma_mod_pos_bound(r, self.cols as int);
                        vstd::arithmetic::div_mod::lemma_mod_pos_bound(c, self.rows as int);
                        assert(x <= r < x + self.cols);
                        assert(y <= c < y + self.rows);
                    }
                }
            }
        }
        found
    }

    /// What was struck stays struck.
    proof fn lemma_struck_kept(&self, before: &Board, val: int)
        requires
            self.within(before),
            before.wf(),
        ensures
            forall|r: int, c: int|
                0 <= r < self.count && 0 <= c < self.count && 0 <= val < self.count && !before.possible(
                    r,
                    c,
                    val,
                ) ==> !#[trigger] self.possible(r, c, val),
    {
        assert forall|r: int, c: int|
            0 <= r < self.count && 0 <= c < self.count && 0 <= val < self.count && !before.possible(
                r,
                c,
                val,
            ) implies !#[trigger] self.possible(r, c, val) by {
            lemma_offset_bound(r, c, val, self.count as int);
        }
    }

    /// Deduces what the rules of the game give at once: where a single value
    /// is left in a cell, it is struck from the other cells of the cell's
    /// row, column and block, and so on until nothing changes any more.
    ///
    /// Values are only struck, and only for that reason: a value is gone
    /// from a cell only where another cell of its row, its column or its
    /// block held it alone. So no completion is lost. Two cells of one row
    /// that hold the same value alone strike each other: a single value
    /// stays only where no such cell stands against it.
    pub fn deduce(&mut self)
        requires
            old(self).wf(),
        ensures
            final(self).wf(),
            final(self).within(old(self)),
            final(self).keeps(old(self)),
            final(self).reasoned(old(self)),
            final(self).deduced(),
    {
        loop
            invariant
                self.wf(),
                old(self).wf(),
                self.within(old(self)),
                self.keeps(old(self)),
                self.reasoned(old(self)),
            ensures
                self.deduced(),
            decreases count_true(self.data@),
        {
            let ghost start = *self;
            let mut found = false;
            let mut row: usize = 0;
            while row < self.count
                invariant
                    row <= self.count,
                    self.wf(),
                    self.within(old(self)),
                    self.keeps(old(self)),
                    self.reasoned(old(self)),
                    old(self).wf(),
                    self.within(&start),
                    found ==> count_true(self.data@) < count_true(start.data@),
                    !found ==> *self == start,
                    !found ==> forall|r: int, c: int, v: int|
                        0 <= r < row && 0 <= c < self.count && 1 <= v <= self.count
                            && #[trigger] self.holds(r, c, v) ==> self.alone(r, c, v - 1),
                decreases self.count - row,
            {
                let mut col: usize = 0;
                while col < self.count
                    invariant
                        col <= self.count,
                        row < self.count,
                        self.wf(),
                        self.within(old(self)),
                        self.keeps(old(self)),
                        self.reasoned(old(self)),
                        old(self).wf(),
                        self.within(&start),
                        found ==> count_true(self.data@) < count_true(start.data@),
                        !found ==> *self == start,
                        !found ==> forall|r: int, c: int, v: int|
                            0 <= r < row && 0 <= c < self.count && 1 <= v <= self.count
                                && #[trigger] self.holds(r, c, v) ==> self.alone(r, c, v - 1),
                        !found ==> forall|c: int, v: int|
                            0 <= c < col && 1 <= v <= self.count && #[trigger] self.holds(row as int, c, v)
                                ==> self.alone(row as int, c, v - 1),
                    decreases self.count - col,
                {
                    let ghost before = *self;
                    match self.single(row, col) {
                        Some(val) => {
                            if self.strike_around(row, col, val) {
                                found = true;
                            }
                            proof {
                                if !found {
                                    assert forall|v: int|
                                        1 <= v <= self.count && #[trigger] self.holds(
                                            row as int,
                                            col as int,
                                            v,
                                        ) implies self.alone(row as int, col as int, v - 1) by {
                                        assert(self.possible(row as int, col as int, val as int) == (val
                                            == v - 1));
                                        assert(self.possible(row as int, col as int, val as int) == (val
                                            == val + 1 - 1));
                                    }
                                }
                            }
                        },
                        None => {},
                    }
                    proof {
                        if self.reasoned(&before) && self.within(&before) {
                            self.lemma_reasoned_chain(old(self), &before);
                        }
                        assert(self.within(old(self))) by {
                            assert forall|k: int|
                                0 <= k < self.data@.len() && #[trigger] self.data@[k] implies old(self).data@[k] by {
                                assert(before.data@[k]);
                            }
                        }
                        assert(self.within(&start)) by {
                            assert forall|k: int|
                                0 <= k < self.data@.len() && #[trigger] self.data@[k] implies start.data@[k] by {
                                assert(before.data@[k]);
                            }
                        }
                    }
                    col += 1;
                }
                row += 1;
            }
            if !found {
                break ;
            }
        }
    }
}

/// The possibilities of different cells lie apart.
pub proof fn lemma_cells_apart(r: int, c: int, v: int, row: int, col: int, count: int)
    requires
        0 <= r < count,
        0 <= c < count,
        0 <= v < count,
        0 <= row < count,
        0 <= col < count,
        r != row || c != col,
    ensures
        !(row * count * count + col * count <= r * count * count + c * count + v < row * count * count
            + col * count + count),
{
    let a = r * count + c;
    let b = row * count + col;
    assert(a != b) by (nonlinear_arith)
        requires
            a == r * count + c,
            b == row * count + col,
            0 <= c < count,
            0 <= col < count,
            r != row || c != col,
    ;
    assert(r * count * count + c * count + v == a * count + v) by (nonlinear_arith)
        requires
            a == r * count + c,
    ;
    assert(row * count * count + col * count == b * count) by (nonlinear_arith)
        requires
            b == row * count + col,
    ;
    if a < b {
        assert(a * count + v < b * count) by (nonlinear_arith)
            requires
                a + 1 <= b,
                0 <= v < count,
        ;
    } else {
        assert(a * count + v >= b * count + count) by (nonlinear_arith)
            requires
                b + 1 <= a,
                0 <= v,
                count >= 0,
        ;
    }
}

} // verus!
