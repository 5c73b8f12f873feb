use vstd::prelude::*;

use super::errors::Error;
use crate::sudoku::Board;

verus! {

pub const CARRIAGE_RETURN: u8 = 13;

pub const LINE_FEED: u8 = 10;

/// What a byte of a puzzle stands for: 0 for an empty cell, written as a
/// space, a dot or a zero; the values 1 to 9 for the digits; the values from
/// 10 on for the letters, capital or small. `None` for any other byte.
pub open spec fn cell_value(byte: u8) -> Option<usize> {
    if byte == 32 || byte == 46 || byte == 48 {
        Some(0usize)
    } else if 49 <= byte <= 57 {
        Some((byte - 48) as usize)
    } else if 97 <= byte <= 122 {
        Some((byte - 97 + 10) as usize)
    } else if 65 <= byte <= 90 {
        Some((byte - 65 + 10) as usize)
    } else {
        None
    }
}

/// Works out what a byte of a puzzle stands for.
pub fn read_cell(byte: u8) -> (value: Option<usize>)
    ensures
        value == cell_value(byte),
{
    if byte == 32 || byte == 46 || byte == 48 {
        Some(0)
    } else if 49 <= byte && byte <= 57 {
        Some((byte - 48) as usize)
    } else if 97 <= byte && byte <= 122 {
        Some((byte - 97) as usize + 10)
    } else if 65 <= byte && byte <= 90 {
        Some((byte - 65) as usize + 10)
    } else {
        None
    }
}

/// The byte that stands for a value: a digit for the values below 10, a
/// small letter for the values from 10 on.
pub open spec fn cell_byte(value: usize) -> u8 {
    if value < 10 {
        (48 + value) as u8
    } else {
        (97 + value - 10) as u8
    }
}

/// Works out the byte that stands for a value. Read again, the byte gives
/// the value.
pub fn write_cell(value: usize) -> (byte: u8)
    requires
        value <= 35,
    ensures
        byte == cell_byte(value),
        cell_value(byte) == Some(value),
{
    if value < 10 {
        48u8 + value as u8
    } else {
        97u8 + (value - 10) as u8
    }
}

/// The text that shows the values of the cells of a board with `count`
/// cells a side: for each row a line, which holds for each cell the byte
/// that stands for its value.
pub fn write_cells(values: &Vec<usize>, count: usize) -> (text: Vec<u8>)
    requires
        count <= 35,
        values@.len() == count * count,
        forall|cell: int| 0 <= cell < values@.len() ==> #[trigger] values@[cell] <= 35,
    ensures
        text@.len() == count * (count + 1),
        forall|row: int, col: int|
            0 <= row < count && 0 <= col < count ==> #[trigger] text@[row * (count + 1) + col] == cell_byte(
                values@[row * count + col],
            ),
        forall|row: int| 0 <= row < count ==> #[trigger] text@[row * (count + 1) + count] == LINE_FEED,
{
    let mut out: Vec<u8> = Vec::new();
    let mut row: usize = 0;
    proof {
        assert(count * count <= 1225) by (nonlinear_arith)
            requires
                count <= 35,
        ;
    }
    while row < count
        invariant
            row <= count,
            count <= 35,
            count * count <= 1225,
            values@.len() == count * count,
            forall|cell: int| 0 <= cell < values@.len() ==> #[trigger] values@[cell] <= 35,
            out@.len() == row * (count + 1),
            forall|r: int, c: int|
                0 <= r < row && 0 <= c < count ==> #[trigger] out@[r * (count + 1) + c] == cell_byte(
                    values@[r * count + c],
                ),
            forall|r: int| 0 <= r < row ==> #[trigger] out@[r * (count + 1) + count] == LINE_FEED,
        decreases count - row,
    {
        let ghost above = out@;
        let mut col: usize = 0;
        proof {
            assert(row * count + count <= count * count) by (nonlinear_arith)
                requires
                    row + 1 <= count,
            ;
            assert(row * count >= 0 && row * (count + 1) >= 0) by (nonlinear_arith)
                requires
                    row >= 0,
                    count >= 0,
            ;
        }
        while col < count
            invariant
                col <= count,
                row < count,
                count <= 35,
                values@.len() == count * count,
                count * count <= 1225,
                0 <= row * count,
                row * count + count <= count * count,
                forall|cell: int| 0 <= cell < values@.len() ==> #[trigger] values@[cell] <= 35,
                out@.len() == above.len() + col,
                above.len() == row * (count + 1),
                forall|k: int| 0 <= k < above.len() ==> out@[k] == #[trigger] above[k],
                forall|c: int|
                    0 <= c < col ==> #[trigger] out@[above.len() + c] == cell_byte(values@[row * count + c]),
            decreases count - col,
        {
            let byte = write_cell(values[row * count + col]);
            out.push(byte);
            col += 1;
        }
        out.push(LINE_FEED);
        proof {
            assert((row + 1) * (count + 1) == row * (count + 1) + count + 1) by (nonlinear_arith);
            assert forall|r: int, c: int| 0 <= r < row + 1 && 0 <= c < count implies #[trigger] out@[r * (count
                + 1) + c] == cell_byte(values@[r * count + c]) by {
                if r < row {
                    assert(r * (count + 1) + c < row * (count + 1)) by (nonlinear_arith)
                        requires
                            r + 1 <= row,
                            0 <= c < count,
                            count >= 0,
                    ;
                    assert(r * (count + 1) + c >= 0) by (nonlinear_arith)
                        requires
                            r >= 0,
                            c >= 0,
                            count >= 0,
                    ;
                    assert(out@[r * (count + 1) + c] == above[r * (count + 1) + c]);
                } else {
                    assert(out@[above.len() + c] == cell_byte(values@[row * count + c]));
                }
            }
            assert forall|r: int| 0 <= r < row + 1 implies #[trigger] out@[r * (count + 1) + count]
                == LINE_FEED by {
                if r < row {
                    assert(r * (count + 1) + count < row * (count + 1)) by (nonlinear_arith)
                        requires
                            r + 1 <= row,
                            count >= 0,
                    ;
                    assert(r * (count + 1) + count >= 0) by (nonlinear_arith)
                        requires
                            r >= 0,
                            count >= 0,
                    ;
                    assert(out@[r * (count + 1) + count] == above[r * (count + 1) + count]);
                }
            }
        }
        row += 1;
    }
    out
}

/// How many bytes end the line at `pos`: a carriage return, a line feed, or
/// the one behind the other; none where neither stands there.
pub open spec fn line_break(text: Seq<u8>, pos: int) -> int {
    let cr: int = if 0 <= pos < text.len() && text[pos] == CARRIAGE_RETURN {
        1
    } else {
        0
    };
    let lf: int = if 0 <= pos + cr < text.len() && text[pos + cr] == LINE_FEED {
        1
    } else {
        0
    };
    cr + lf
}

/// Where the row `row` of a puzzle with `count` cells a side begins.
pub open spec fn row_start(text: Seq<u8>, count: int, row: int) -> int
    decreases row,
{
    if row <= 0 {
        0
    } else {
        let before = row_start(text, count, row - 1) + count;
        before + line_break(text, before)
    }
}

/// The cell holds what the byte says: any value where the byte stands for
/// an empty cell, else the one value that the byte names.
pub open spec fn cell_read(board: Board, row: int, col: int, byte: u8) -> bool {
    match cell_value(byte) {
        Some(value) => if value == 0 {
            forall|v: int| 0 <= v < board.size() ==> #[trigger] board.possible(row, col, v)
        } else {
            board.holds(row, col, value as int)
        },
        None => false,
    }
}

/// The cells of the first `rows` rows hold what the text says.
pub open spec fn rows_read(board: Board, text: Seq<u8>, rows: int) -> bool {
    forall|row: int, col: int|
        0 <= row < rows && 0 <= col < board.size() ==> #[trigger] cell_read(
            board,
            row,
            col,
            text[row_start(text, board.size(), row) + col],
        )
}

/// Where the row `row` of a puzzle ends, before any line break.
pub open spec fn row_end(text: Seq<u8>, count: int, row: int) -> int {
    row_start(text, count, row) + count
}

/// Whether the byte may stand in a puzzle with `count` values: it stands
/// for an empty cell or for one of the values.
pub open spec fn cell_ok(byte: u8, count: int) -> bool {
    cell_value(byte) matches Some(value) && value <= count
}

/// What is wrong with the cells of a row that begins at `start`, from the
/// cell `col` on: the first byte that may not stand there.
pub open spec fn cells_fault(text: Seq<u8>, count: int, start: int, col: int) -> Option<Error>
    decreases count - col,
{
    if col >= count {
        None
    } else if !cell_ok(text[start + col], count) {
        Some(Error::UnexpectedByte(text[start + col]))
    } else {
        cells_fault(text, count, start, col + 1)
    }
}

/// What is wrong with a puzzle from the row `row` on: the first row that
/// the text is too short for, or the first byte that may not stand in it,
/// whichever comes first.
pub open spec fn rows_fault(text: Seq<u8>, count: int, row: int) -> Option<Error>
    decreases count - row,
{
    if row >= count {
        None
    } else if row_start(text, count, row) + count > text.len() {
        Some(Error::UnexpectedEnd)
    } else {
        match cells_fault(text, count, row_start(text, count, row), 0) {
            Some(e) => Some(e),
            None => rows_fault(text, count, row + 1),
        }
    }
}

/// Reads a puzzle: as many lines as the board has cells a side, each of as
/// many bytes, one for each cell; see `cell_value`. Lines end with a line
/// feed, which a carriage return may precede.
///
/// Fails with `UnexpectedEnd` where the text is too short, and with
/// `UnexpectedByte` at the first byte that stands for no cell, or stands for
/// a value that the board does not have.
pub fn parse(input: &[u8], rows: usize, cols: usize) -> (r: Result<Board, Error>)
    requires
        1 <= rows * cols <= 35,
    ensures
        match r {
            Ok(board) => {
                &&& board.wf()
                &&& board.size() == rows * cols
                &&& row_end(input@, board.size(), board.size() - 1) <= input@.len()
                &&& rows_read(board, input@, board.size())
            },
            Err(e) => rows_fault(input@, (rows * cols) as int, 0) == Some(e),
        },
        r is Ok <==> rows_fault(input@, (rows * cols) as int, 0) is None,
{
    let mut board = Board::new(rows, cols);
    let count = board.count;
    let mut start: usize = 0;
    let mut row: usize = 0;
    while row < count
        invariant
            row <= count,
            count == board.size(),
            count == rows * cols,
            1 <= count <= 35,
            board.wf(),
            start == if row == 0 { 0 } else { row_end(input@, count as int, row - 1) },
            start <= input.len(),
            rows_fault(input@, count as int, 0) == rows_fault(input@, count as int, row as int),
            rows_read(board, input@, row as int),
            forall|r: int, c: int, v: int|
                row <= r < count && 0 <= c < count && 0 <= v < count ==> #[trigger] board.possible(
                    r,
                    c,
                    v,
                ),
        decreases count - row,
    {
        if row != 0 {
            if start < input.len() && input[start] == CARRIAGE_RETURN {
                start += 1;
            }
            if start < input.len() && input[start] == LINE_FEED {
                start += 1;
            }
        }
        assert(start == row_start(input@, count as int, row as int));
        if input.len() - start < count {
            return Err(Error::UnexpectedEnd);
        }
        let mut col: usize = 0;
        while col < count
            invariant
                col <= count,
                row < count,
                count == board.size(),
                count == rows * cols,
                1 <= count <= 35,
                board.wf(),
                start == row_start(input@, count as int, row as int),
                start + count <= input.len(),
                rows_fault(input@, count as int, 0) == rows_fault(input@, count as int, row as int),
                cells_fault(input@, count as int, start as int, 0) == cells_fault(
                    input@,
                    count as int,
                    start as int,
                    col as int,
                ),
                rows_read(board, input@, row as int),
                forall|c: int|
                    0 <= c < col ==> #[trigger] cell_read(board, row as int, c, input@[start + c]),
                forall|r: int, c: int, v: int|
                    0 <= r < count && 0 <= c < count && 0 <= v < count && (r > row || (r == row
                        && c >= col)) ==> #[trigger] board.possible(r, c, v),
            decreases count - col,
        {
            let byte = input[start + col];
            let ghost before = board;
            match read_cell(byte) {
                None => {
                    return Err(Error::UnexpectedByte(byte));
                },
                Some(value) => {
                    if value > count {
                        return Err(Error::UnexpectedByte(byte));
                    }
                    if value != 0 {
                        board.set(row, col, value);
                    }
                },
            }
            proof {
                lemma_cells_kept(before, board, input@, row as int, col as int);
            }
            col += 1;
        }
        proof {
            assert(rows_read(board, input@, row + 1)) by {
                assert forall|r: int, c: int| 0 <= r < row + 1 && 0 <= c < board.size() implies #[trigger] cell_read(
                    board,
                    r,
                    c,
                    input@[row_start(input@, board.size(), r) + c],
                ) by {
                    if r < row {
                        assert(cell_read(board, r, c, input@[row_start(input@, board.size(), r) + c]));
                    }
                }
            }
        }
        start = start + count;
        row += 1;
    }
    Ok(board)
}

/// A cell that has kept its possibilities is read as it was.
proof fn lemma_same_cell(before: Board, after: Board, row: int, col: int, byte: u8)
    requires
        before.size() == after.size(),
        forall|v: int|
            0 <= v < before.size() ==> #[trigger] after.possible(row, col, v) == before.possible(
                row,
                col,
                v,
            ),
    ensures
        cell_read(before, row, col, byte) == cell_read(after, row, col, byte),
{
    match cell_value(byte) {
        Some(value) => {
            if value == 0 {
                if cell_read(before, row, col, byte) {
                    assert forall|v: int| 0 <= v < after.size() implies #[trigger] after.possible(
                        row,
                        col,
                        v,
                    ) by {
                        assert(before.possible(row, col, v));
                    }
                }
                if cell_read(after, row, col, byte) {
                    assert forall|v: int| 0 <= v < before.size() implies #[trigger] before.possible(
                        row,
                        col,
                        v,
                    ) by {
                        assert(after.possible(row, col, v));
                    }
                }
            } else {
                if before.holds(row, col, value as int) {
                    assert forall|v: int| 0 <= v < after.size() implies #[trigger] after.possible(
                        row,
                        col,
                        v,
                    ) == (v == value - 1) by {
                        assert(before.possible(row, col, v) == (v == value - 1));
                    }
                }
                if after.holds(row, col, value as int) {
                    assert forall|v: int| 0 <= v < before.size() implies #[trigger] before.possible(
                        row,
                        col,
                        v,
                    ) == (v == value - 1) by {
                        assert(after.possible(row, col, v) == (v == value - 1));
                    }
                }
            }
        },
        None => {},
    }
}

/// Writing one cell leaves the cells that were read as they were read.
proof fn lemma_cells_kept(before: Board, after: Board, text: Seq<u8>, row: int, col: int)
    requires
        before.wf(),
        after.wf(),
        before.size() == after.size(),
        0 <= row < before.size(),
        0 <= col < before.size(),
        rows_read(before, text, row),
        forall|c: int|
            0 <= c < col ==> #[trigger] cell_read(
                before,
                row,
                c,
                text[row_start(text, before.size(), row) + c],
            ),
        forall|r: int, c: int, v: int|
            0 <= r < before.size() && 0 <= c < before.size() && 0 <= v < before.size() && (r > row || (
            r == row && c >= col)) ==> #[trigger] before.possible(r, c, v),
        ({
            let byte = text[row_start(text, before.size(), row) + col];
            match cell_value(byte) {
                Some(value) => value <= before.size() && if value == 0 {
                    after == before
                } else {
                    after.holds(row, col, value as int) && forall|r: int, c: int, v: int|
                        0 <= r < after.size() && 0 <= c < after.size() && 0 <= v < after.size() && (r
                            != row || c != col) ==> #[trigger] after.possible(r, c, v)
                            == before.possible(r, c, v)
                },
                None => false,
            }
        }),
    ensures
        rows_read(after, text, row),
        forall|c: int|
            0 <= c < col + 1 ==> #[trigger] cell_read(
                after,
                row,
                c,
                text[row_start(text, before.size(), row) + c],
            ),
        forall|r: int, c: int, v: int|
            0 <= r < after.size() && 0 <= c < after.size() && 0 <= v < after.size() && (r > row || (r
                == row && c >= col + 1)) ==> #[trigger] after.possible(r, c, v),
{
    let n = before.size();
    assert forall|r: int, c: int| 0 <= r < row && 0 <= c < n implies #[trigger] cell_read(
        after,
        r,
        c,
        text[row_start(text, n, r) + c],
    ) by {
        assert(cell_read(before, r, c, text[row_start(text, n, r) + c]));
        lemma_same_cell(before, after, r, c, text[row_start(text, n, r) + c]);
    }
    assert forall|c: int| 0 <= c < col + 1 implies #[trigger] cell_read(
        after,
        row,
        c,
        text[row_start(text, n, row) + c],
    ) by {
        if c < col {
            assert(cell_read(before, row, c, text[row_start(text, n, row) + c]));
            lemma_same_cell(before, after, row, c, text[row_start(text, n, row) + c]);
        } else {
            let byte = text[row_start(text, n, row) + col];
            if cell_value(byte) == Some(0usize) {
                assert forall|v: int| 0 <= v < n implies #[trigger] after.possible(row, col, v) by {
                    assert(before.possible(row, col, v));
                }
            }
        }
    }
}

} // verus!
