//! The board encoding: a move is `column * 6 + row` on a board of seven
//! columns and six rows, and the geometry of four in a row.

use vstd::prelude::*;

verus! {

/// A disc position, `column * 6 + row`.
pub type Move = u8;

/// Number of columns of the board.
pub const COLUMNS: u8 = 7;

/// Number of rows of the board (the height of a full column).
pub const ROWS: u8 = 6;

/// Column of an encoded move.
pub open spec fn column_of(m: int) -> int {
    m / 6
}

/// Row of an encoded move.
pub open spec fn row_of(m: int) -> int {
    m % 6
}

/// The move that lands in column `c` at row `r`.
pub open spec fn encode(c: int, r: int) -> int {
    c * 6 + r
}

/// Four ascending positions form a line: they are evenly spaced, and the
/// step is one of the four directions of the board, with the row guard that
/// keeps the whole run inside the six rows.
pub open spec fn winning_quad(m0: int, m1: int, m2: int, m3: int) -> bool {
    let d = m1 - m0;
    &&& d == m2 - m1
    &&& d == m3 - m2
    &&& {
        ||| d == 6
        ||| (d == 1 && row_of(m0) < 3)
        ||| (d == 7 && row_of(m0) < 3)
        ||| (d == 5 && row_of(m0) > 2)
    }
}

/// Column of an encoded move.
pub fn move_column(m: Move) -> (r: u8)
    ensures
        r == column_of(m as int),
        r <= 42,
{
    m / 6
}

/// Row of an encoded move.
pub fn move_row(m: Move) -> (r: u8)
    ensures
        r == row_of(m as int),
        r < 6,
{
    m % 6
}

/// Decoding inverts the encoding: a move built from a column and a row in
/// range gives that column and that row back.
pub proof fn lemma_encode_decode(c: int, r: int)
    requires
        0 <= c < 7,
        0 <= r < 6,
    ensures
        column_of(encode(c, r)) == c,
        row_of(encode(c, r)) == r,
        0 <= encode(c, r) < 42,
{
}

/// Whether four ascending positions make four in a row.
pub fn is_winning_position(m0: Move, m1: Move, m2: Move, m3: Move) -> (r: bool)
    requires
        m0 <= m1 <= m2 <= m3,
    ensures
        r == winning_quad(m0 as int, m1 as int, m2 as int, m3 as int),
{
    let d10 = m1 - m0;
    let d21 = m2 - m1;
    let d32 = m3 - m2;
    if d10 == d21 && d21 == d32 {
        // horizontal
        if d10 == 6 {
            return true;
        }
        // vertical: (21, 22, 23, 24) runs over the top of a column
        if d10 == 1 && m0 % 6 < 3 {
            return true;
        }
        // rising diagonal: (3, 10, 17, 24) leaves the board
        if d10 == 7 && m0 % 6 < 3 {
            return true;
        }
        // falling diagonal: (2, 7, 12, 17) leaves the board
        if d10 == 5 && m0 % 6 > 2 {
            return true;
        }
    }
    false
}

} // verus!
