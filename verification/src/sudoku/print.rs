use vstd::prelude::*;

use super::board::Board;
use crate::cnf::print::{digits_of, write_usize};

verus! {

pub const POINT: u8 = 46;

pub const LINE_FEED: u8 = 10;

impl Board {
    /// How the first `upto` values of a cell are written: each value that is
    /// left as its number, counted from 1, each other as a point.
    pub open(crate) spec fn cell_text(&self, row: int, col: int, upto: int) -> Seq<u8>
        decreases upto,
    {
        if upto <= 0 {
            Seq::<u8>::empty()
        } else {
            self.cell_text(row, col, upto - 1) + if self.possible(row, col, upto - 1) {
                digits_of(upto as nat)
            } else {
                seq![POINT]
            }
        }
    }

    /// How the first `upto` cells of a row are written, one behind the
    /// other.
    pub open(crate) spec fn row_text(&self, row: int, upto: int) -> Seq<u8>
        decreases upto,
    {
        if upto <= 0 {
            Seq::<u8>::empty()
        } else {
            self.row_text(row, upto - 1) + self.cell_text(row, upto - 1, self.count as int)
        }
    }

    /// How the first `upto` rows are written, each on a line.
    pub open(crate) spec fn rows_text(&self, upto: int) -> Seq<u8>
        decreases upto,
    {
        if upto <= 0 {
            Seq::<u8>::empty()
        } else {
            self.rows_text(upto - 1) + self.row_text(upto - 1, self.count as int).push(LINE_FEED)
        }
    }

    /// The line that tells the measures of the board:
    /// `3x3 board (count = 9)`.
    pub open(crate) spec fn title_text(&self) -> Seq<u8> {
        digits_of(self.rows as nat).push(120u8) + digits_of(self.cols as nat) + seq![
            32u8, 98u8, 111u8, 97u8, 114u8, 100u8, 32u8, 40u8, 99u8, 111u8, 117u8, 110u8, 116u8, 32u8, 61u8, 32u8,
        ] + digits_of(self.count as nat).push(41u8).push(LINE_FEED)
    }

    /// The text that shows the board: its measures, and row after row the
    /// values that are left in each cell.
    pub open(crate) spec fn dump_text(&self) -> Seq<u8> {
        self.title_text() + self.rows_text(self.count as int)
    }

    /// Writes what is left on the board: a line with its measures, and then
    /// for each row a line that holds for each cell and each value the
    /// number of the value, counted from 1, where it is left in the cell,
    /// and a point where it is not.
    pub fn dump(&self) -> (text: Vec<u8>)
        requires
            self.wf(),
        ensures
            text@ == self.dump_text(),
    {
        let count = self.count;
        let mut out: Vec<u8> = Vec::new();
        write_usize(&mut out, self.rows);
        out.push(120u8);
        write_usize(&mut out, self.cols);
        out.push(32u8);
        out.push(98u8);
        out.push(111u8);
        out.push(97u8);
        out.push(114u8);
        out.push(100u8);
        out.push(32u8);
        out.push(40u8);
        out.push(99u8);
        out.push(111u8);
        out.push(117u8);
        out.push(110u8);
        out.push(116u8);
        out.push(32u8);
        out.push(61u8);
        out.push(32u8);
        write_usize(&mut out, count);
        out.push(41u8);
        out.push(LINE_FEED);
        let ghost title = out@;
        proof {
            assert(title =~= self.title_text());
        }
        let mut row: usize = 0;
        while row < count
            invariant
                row <= count,
                count == self.count,
                self.wf(),
                out@ == title + self.rows_text(row as int),
            decreases count - row,
        {
            let ghost above = out@;
            let mut col: usize = 0;
            while col < count
                invariant
                    col <= count,
                    row < count,
                    count == self.count,
                    self.wf(),
                    out@ == above + self.row_text(row as int, col as int),
                decreases count - col,
            {
                let ghost left = out@;
                let mut val: usize = 0;
                while val < count
                    invariant
                        val <= count,
                        row < count,
                        col < count,
                        count == self.count,
                        self.wf(),
                        out@ == left + self.cell_text(row as int, col as int, val as int),
                    decreases count - val,
                {
                    let at = self.offset(row, col, val);
                    if self.data[at] {
                        write_usize(&mut out, val + 1);
                    } else {
                        out.push(POINT);
                    }
                    proof {
                        assert(out@ =~= left + self.cell_text(row as int, col as int, val + 1));
                    }
                    val += 1;
                }
                proof {
                    assert(out@ =~= above + self.row_text(row as int, col + 1));
                }
                col += 1;
            }
            out.push(LINE_FEED);
            proof {
                assert(out@ =~= title + self.rows_text(row + 1));
            }
            row += 1;
        }
        out
    }
}

} // verus!
