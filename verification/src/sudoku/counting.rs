use vstd::prelude::*;
use vstd::relations::injective_on;
use vstd::set_lib::{lemma_int_range, lemma_map_size, lemma_subset_equality, set_int_range};

use super::board::{count_true, Board};

verus! {

/// The number `v` is the value of `f` at some number below `n`.
pub open spec fn hit(f: spec_fn(int) -> int, n: int, v: int) -> bool {
    exists|c: int| 0 <= c < n && #[trigger] f(c) == v
}

/// Every number below `n` is the value of `f` at some number below `n`.
pub open spec fn onto(f: spec_fn(int) -> int, n: int) -> bool {
    forall|v: int| 0 <= v < n ==> #[trigger] hit(f, n, v)
}

/// A place below `n` where `f` has the value `v`.
pub open spec fn place_of(f: spec_fn(int) -> int, n: int, v: int) -> int {
    choose|c: int| 0 <= c < n && #[trigger] f(c) == v
}

/// Where as many places as there are values hold every value, no value
/// stands at two places.
pub proof fn lemma_onto_is_one_to_one(f: spec_fn(int) -> int, n: int, a: int, b: int)
    requires
        onto(f, n),
        0 <= a < n,
        0 <= b < n,
        f(a) == f(b),
    ensures
        a == b,
{
    let g = |v: int| place_of(f, n, v);
    let range = set_int_range(0, n);
    lemma_int_range(0, n);
    let image = range.map(g);
    assert forall|v: int| 0 <= v < n implies 0 <= #[trigger] g(v) < n && f(g(v)) == v by {
        assert(hit(f, n, v));
        let c = choose|c: int| 0 <= c < n && #[trigger] f(c) == v;
        assert(0 <= c < n && f(c) == v);
    }
    assert(injective_on(g, range)) by {
        assert forall|v1: int, v2: int|
            range.contains(v1) && range.contains(v2) && #[trigger] g(v1) == #[trigger] g(v2) implies v1
            == v2 by {
            assert(f(g(v1)) == v1);
            assert(f(g(v2)) == v2);
        }
    }
    lemma_map_size(range, image, g);
    assert(image.subset_of(range)) by {
        assert forall|c: int| image.contains(c) implies range.contains(c) by {
            let v = choose|v: int| range.contains(v) && g(v) == c;
            assert(0 <= g(v) < n);
        }
    }
    lemma_subset_equality(image, range);
    assert(image.contains(a));
    assert(image.contains(b));
    let va = choose|v: int| range.contains(v) && g(v) == a;
    let vb = choose|v: int| range.contains(v) && g(v) == b;
    assert(f(g(va)) == va);
    assert(f(g(vb)) == vb);
}

impl Board {
    /// Among values that complete the board, no value stands twice in a row.
    pub proof fn lemma_row_once(&self, values: Seq<usize>, row: int, a: int, b: int)
        requires
            self.wf(),
            self.completes(values),
            0 <= row < self.size(),
            0 <= a < self.size(),
            0 <= b < self.size(),
            self.entry(values, row, a) == self.entry(values, row, b),
        ensures
            a == b,
    {
        let f = |c: int| self.entry(values, row, c) - 1;
        assert(onto(f, self.size())) by {
            assert forall|v: int| 0 <= v < self.size() implies #[trigger] hit(f, self.size(), v) by {
                assert(self.row_has(values, row, v));
                let c = choose|c: int| 0 <= c < self.count && #[trigger] self.entry(values, row, c) == v + 1;
                assert(f(c) == v);
            }
        }
        assert(f(a) == f(b));
        lemma_onto_is_one_to_one(f, self.size(), a, b);
    }

    /// Among values that complete the board, no value stands twice in a
    /// column.
    pub proof fn lemma_column_once(&self, values: Seq<usize>, col: int, a: int, b: int)
        requires
            self.wf(),
            self.completes(values),
            0 <= col < self.size(),
            0 <= a < self.size(),
            0 <= b < self.size(),
            self.entry(values, a, col) == self.entry(values, b, col),
        ensures
            a == b,
    {
        let f = |r: int| self.entry(values, r, col) - 1;
        assert(onto(f, self.size())) by {
            assert forall|v: int| 0 <= v < self.size() implies #[trigger] hit(f, self.size(), v) by {
                assert(self.column_has(values, col, v));
                let r = choose|r: int| 0 <= r < self.count && #[trigger] self.entry(values, r, col) == v + 1;
                assert(f(r) == v);
            }
        }
        assert(f(a) == f(b));
        lemma_onto_is_one_to_one(f, self.size(), a, b);
    }

    /// The cell of the block at (`x`, `y`) that the number `i` stands for:
    /// the cells of a block are numbered column after column.
    pub open(crate) spec fn block_entry(&self, values: Seq<usize>, x: int, y: int, i: int) -> int {
        self.entry(values, x * self.cols + i % (self.cols as int), y * self.rows + i / (self.cols as int))
    }

    /// Among values that complete the board, no value stands twice in a
    /// block.
    pub(crate) proof fn lemma_block_once(&self, values: Seq<usize>, x: int, y: int, a: int, b: int, c: int, d: int)
        requires
            self.wf(),
            self.completes(values),
            0 <= x < self.rows,
            0 <= y < self.cols,
            0 <= a < self.rows,
            0 <= b < self.cols,
            0 <= c < self.rows,
            0 <= d < self.cols,
            self.entry(values, x * self.cols + b, y * self.rows + a) == self.entry(
                values,
                x * self.cols + d,
                y * self.rows + c,
            ),
        ensures
            a == c,
            b == d,
    {
        let rows = self.rows as int;
        let cols = self.cols as int;
        let f = |i: int| self.block_entry(values, x, y, i) - 1;
        assert(self.size() == rows * cols);
        assert(onto(f, self.size())) by {
            assert forall|v: int| 0 <= v < self.size() implies #[trigger] hit(f, self.size(), v) by {
                assert(self.block_has(values, x, y, v));
                let (p, q) = choose|p: int, q: int|
                    0 <= p < self.rows && 0 <= q < self.cols && #[trigger] self.entry(
                        values,
                        x * self.cols + q,
                        y * self.rows + p,
                    ) == v + 1;
                let i = lemma_numbered_cell(p, q, rows, cols);
                assert(f(i) == v);
            }
        }
        let i = lemma_numbered_cell(a, b, rows, cols);
        let j = lemma_numbered_cell(c, d, rows, cols);
        assert(f(i) == f(j));
        lemma_onto_is_one_to_one(f, self.size(), i, j);
    }
}

impl Board {
    /// Whatever completes the board `before` completes this board too.
    pub open(crate) spec fn keeps(&self, before: &Board) -> bool {
        forall|values: Seq<usize>| #[trigger] before.completes(values) ==> self.completes(values)
    }

    /// Striking the only value of a cell from another cell of its row, its
    /// column or its block loses no completion: the board is as `before`,
    /// but for the value `val` in the cell (`at_row`, `at_col`).
    pub(crate) proof fn lemma_strike_sound(
        &self,
        before: &Board,
        row: int,
        col: int,
        val: int,
        at_row: int,
        at_col: int,
    )
        requires
            before.wf(),
            self.wf(),
            self.count == before.count,
            self.rows == before.rows,
            self.cols == before.cols,
            0 <= row < self.count,
            0 <= col < self.count,
            0 <= at_row < self.count,
            0 <= at_col < self.count,
            0 <= val < self.count,
            at_row != row || at_col != col,
            before.holds(row, col, val + 1),
            before.related(row, col, at_row, at_col),
            forall|r: int, c: int, v: int|
                0 <= r < self.count && 0 <= c < self.count && 0 <= v < self.count && (r != at_row || c != at_col
                    || v != val) ==> #[trigger] self.possible(r, c, v) == before.possible(r, c, v),
        ensures
            self.keeps(before),
    {
        assert forall|values: Seq<usize>| #[trigger] before.completes(values) implies self.completes(values) by {
            assert forall|r: int, c: int| 0 <= r < self.count && 0 <= c < self.count implies 1
                <= #[trigger] self.entry(values, r, c) <= self.count && self.possible(
                r,
                c,
                self.entry(values, r, c) - 1,
            ) by {
                let e = before.entry(values, r, c);
                assert(self.entry(values, r, c) == e);
                assert(before.possible(r, c, e - 1));
                if r == at_row && c == at_col && e - 1 == val {
                    let own = before.entry(values, row, col);
                    assert(before.possible(row, col, own - 1));
                    assert(before.possible(row, col, own - 1) == (own - 1 == val));
                    before.lemma_cells_differ(values, row, col, at_row, at_col);
                }
            }
            assert forall|r: int, v: int| 0 <= r < self.count && 0 <= v < self.count implies #[trigger] self.row_has(
                values,
                r,
                v,
            ) by {
                assert(before.row_has(values, r, v));
                let c = choose|c: int| 0 <= c < before.count && #[trigger] before.entry(values, r, c) == v + 1;
                assert(self.entry(values, r, c) == v + 1);
            }
            assert forall|c: int, v: int| 0 <= c < self.count && 0 <= v < self.count implies #[trigger] self.column_has(
                values,
                c,
                v,
            ) by {
                assert(before.column_has(values, c, v));
                let r = choose|r: int| 0 <= r < before.count && #[trigger] before.entry(values, r, c) == v + 1;
                assert(self.entry(values, r, c) == v + 1);
            }
            assert forall|x: int, y: int, v: int|
                0 <= x < self.rows && 0 <= y < self.cols && 0 <= v < self.count implies #[trigger] self.block_has(
                values,
                x,
                y,
                v,
            ) by {
                assert(before.block_has(values, x, y, v));
                let (a, b) = choose|a: int, b: int|
                    0 <= a < before.rows && 0 <= b < before.cols && #[trigger] before.entry(
                        values,
                        x * before.cols + b,
                        y * before.rows + a,
                    ) == v + 1;
                assert(self.entry(values, x * self.cols + b, y * self.rows + a) == v + 1);
            }
        }
    }

    /// Among values that complete the board, two cells of one row, one
    /// column or one block have different values.
    pub(crate) proof fn lemma_cells_differ(&self, values: Seq<usize>, row: int, col: int, at_row: int, at_col: int)
        requires
            self.wf(),
            self.completes(values),
            0 <= row < self.count,
            0 <= col < self.count,
            0 <= at_row < self.count,
            0 <= at_col < self.count,
            at_row != row || at_col != col,
            self.related(row, col, at_row, at_col),
        ensures
            self.entry(values, row, col) != self.entry(values, at_row, at_col),
    {
        if self.entry(values, row, col) == self.entry(values, at_row, at_col) {
            if row == at_row {
                self.lemma_row_once(values, row, col, at_col);
            } else if col == at_col {
                self.lemma_column_once(values, col, row, at_row);
            } else {
                let rows = self.rows as int;
                let cols = self.cols as int;
                assert(rows >= 1 && cols >= 1) by (nonlinear_arith)
                    requires
                        1 <= rows * cols,
                        rows >= 0,
                        cols >= 0,
                ;
                let (x, b) = lemma_block_of(row, cols, rows);
                let (x2, b2) = lemma_block_of(at_row, cols, rows);
                assert(cols * rows == rows * cols) by (nonlinear_arith);
                let (y, a) = lemma_block_of(col, rows, cols);
                let (y2, a2) = lemma_block_of(at_col, rows, cols);
                assert(x * cols == x2 * cols);
                assert(y * rows == y2 * rows);
                assert(self.entry(values, x * cols + b, y * rows + a) == self.entry(
                    values,
                    x * cols + b2,
                    y * rows + a2,
                ));
                self.lemma_block_once(values, x, y, a, b, a2, b2);
            }
        }
    }
}

/// The block of a place and the place within the block: the place `at` of
/// `blocks` blocks of the length `length` lies `within` places into the
/// block `block`.
pub proof fn lemma_block_of(at: int, length: int, blocks: int) -> (found: (int, int))
    requires
        0 <= at < blocks * length,
        length >= 1,
    ensures
        0 <= found.0 < blocks,
        0 <= found.1 < length,
        at == found.0 * length + found.1,
        found.1 == at % length,
        found.0 * length == at - at % length,
{
    vstd::arithmetic::div_mod::lemma_fundamental_div_mod(at, length);
    vstd::arithmetic::div_mod::lemma_mod_pos_bound(at, length);
    let q = at / length;
    assert(length * q == q * length) by (nonlinear_arith);
    if q >= blocks {
        assert(q * length >= blocks * length) by (nonlinear_arith)
            requires
                q >= blocks,
                length >= 1,
        ;
    }
    if q < 0 {
        assert(q * length <= -length) by (nonlinear_arith)
            requires
                q <= -1,
                length >= 1,
        ;
    }
    (q, at % length)
}

/// A place that lies `within` places behind the beginning of the block of
/// `at` lies in that block.
pub proof fn lemma_same_block(at: int, length: int, blocks: int, within: int)
    requires
        0 <= at < blocks * length,
        length >= 1,
        0 <= within < length,
    ensures
        (at - at % length + within) - (at - at % length + within) % length == at - at % length,
{
    let (q, r) = lemma_block_of(at, length, blocks);
    vstd::arithmetic::div_mod::lemma_fundamental_div_mod_converse(q * length + within, length, q, within);
}

/// Names that are places of possibilities that are left, each once, are no
/// more than the possibilities that are left.
pub proof fn lemma_names_bound(data: Seq<bool>, names: Seq<usize>)
    requires
        forall|i: int| 0 <= i < names.len() ==> (#[trigger] names[i]) < data.len() && data[names[i] as int],
        forall|i: int, j: int|
            0 <= i < names.len() && 0 <= j < names.len() && #[trigger] names[i] == #[trigger] names[j] ==> i == j,
    ensures
        names.len() <= count_true(data),
    decreases data.len(),
{
    if data.len() == 0 {
        if names.len() > 0 {
            assert(names[0] < data.len());
        }
    } else {
        let last = data.len() - 1;
        let rest = data.drop_last();
        if exists|i: int| 0 <= i < names.len() && names[i] == last {
            let i = choose|i: int| 0 <= i < names.len() && names[i] == last;
            let others = names.remove(i);
            assert forall|k: int| 0 <= k < others.len() implies (#[trigger] others[k]) < rest.len()
                && rest[others[k] as int] by {
                let src = if k < i { k } else { k + 1 };
                assert(others[k] == names[src]);
                assert(names[src] != names[i]);
            }
            assert forall|k: int, l: int|
                0 <= k < others.len() && 0 <= l < others.len() && #[trigger] others[k]
                    == #[trigger] others[l] implies k == l by {
                let sk = if k < i { k } else { k + 1 };
                let sl = if l < i { l } else { l + 1 };
                assert(others[k] == names[sk] && others[l] == names[sl]);
            }
            lemma_names_bound(rest, others);
            assert(data[names[i] as int]);
        } else {
            assert forall|k: int| 0 <= k < names.len() implies (#[trigger] names[k]) < rest.len()
                && rest[names[k] as int] by {
            }
            lemma_names_bound(rest, names);
        }
    }
}

/// The number of the cell `p` columns and `q` rows into a block.
pub proof fn lemma_numbered_cell(p: int, q: int, rows: int, cols: int) -> (i: int)
    requires
        0 <= p < rows,
        0 <= q < cols,
    ensures
        i == p * cols + q,
        0 <= i < rows * cols,
        i / cols == p,
        i % cols == q,
{
    let i = p * cols + q;
    vstd::arithmetic::div_mod::lemma_fundamental_div_mod_converse(i, cols, p, q);
    assert(0 <= p * cols + q < rows * cols) by (nonlinear_arith)
        requires
            0 <= p < rows,
            0 <= q < cols,
    ;
    i
}

} // verus!
