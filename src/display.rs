use vstd::prelude::*;

use crate::color::{Color, color_initial};
use crate::search::cell;
use crate::tower::Tower;

verus! {

/// The check that decides which solutions get written out by default: cell
/// (row 3, column 1) holds yellow and cell (row 3, column 3) holds orange.
pub open spec fn spec_display_filter(b: Seq<Tower>) -> bool {
    b[19int].color == Color::Yellow && b[21int].color == Color::Orange
}

/// Whether a board passes the default display check.
pub fn display_filter(board: &Vec<Tower>) -> (r: bool)
    requires
        board.len() == 36,
    ensures
        r == spec_display_filter(board@),
{
    board[3 * 6 + 1].color == Color::Yellow && board[3 * 6 + 3].color == Color::Orange
}

/// The decimal digit for a number from 0 to 9.
pub open spec fn digit(n: int) -> char {
    if n == 0 { '0' } else if n == 1 { '1' } else if n == 2 { '2' } else if n == 3 { '3' }
    else if n == 4 { '4' } else if n == 5 { '5' } else if n == 6 { '6' } else if n == 7 { '7' }
    else if n == 8 { '8' } else { '9' }
}

/// How a cell is written: the color's initial, the height and a space for a
/// tower, two spaces for an empty cell.
pub open spec fn cell_text(t: Tower) -> Seq<char> {
    if t.inuse {
        seq![color_initial(t.color), digit(t.height as int), ' ']
    } else {
        seq![' ', ' ']
    }
}

/// The first `n` cells of row `r`, written out.
pub open spec fn row_text(b: Seq<Tower>, r: int, n: int) -> Seq<char>
    decreases n,
{
    if n <= 0 {
        Seq::empty()
    } else {
        row_text(b, r, n - 1) + cell_text(cell(b, r, n - 1))
    }
}

/// The first `n` rows of a board, each written out and ended by a newline.
pub open spec fn board_text(b: Seq<Tower>, n: int) -> Seq<char>
    decreases n,
{
    if n <= 0 {
        Seq::empty()
    } else {
        board_text(b, n - 1) + row_text(b, n - 1, 6) + seq!['\n']
    }
}

/// Every tower on the board has a one-digit height.
pub open spec fn heights_one_digit(b: Seq<Tower>) -> bool {
    forall|i: int| 0 <= i < b.len() && (#[trigger] b[i]).inuse ==> 0 <= b[i].height <= 9
}

fn height_digit(h: i8) -> (r: char)
    requires
        0 <= h <= 9,
    ensures
        r == digit(h as int),
{
    match h {
        0 => '0',
        1 => '1',
        2 => '2',
        3 => '3',
        4 => '4',
        5 => '5',
        6 => '6',
        7 => '7',
        8 => '8',
        _ => '9',
    }
}

/// Writes a board out: one line per row, each tower as its color's initial,
/// its height and a space, each empty cell as two spaces.
pub fn render_board(board: &Vec<Tower>) -> (r: Vec<char>)
    requires
        board.len() == 36,
        heights_one_digit(board@),
    ensures
        r@ == board_text(board@, 6),
{
    let mut out: Vec<char> = Vec::new();
    let mut r: usize = 0;
    while r < 6
        invariant
            board.len() == 36,
            heights_one_digit(board@),
            r <= 6,
            out@ == board_text(board@, r as int),
        decreases 6 - r,
    {
        let ghost before = out@;
        let mut c: usize = 0;
        while c < 6
            invariant
                board.len() == 36,
                heights_one_digit(board@),
                r < 6,
                c <= 6,
                out@ == before + row_text(board@, r as int, c as int),
            decreases 6 - c,
        {
            let t = board[r * 6 + c];
            let ghost mid = out@;
            assert(t == cell(board@, r as int, c as int));
            if t.inuse {
                out.push(t.color.initial());
                out.push(height_digit(t.height));
                out.push(' ');
            } else {
                out.push(' ');
                out.push(' ');
            }
            assert(out@ =~= mid + cell_text(t));
            assert(before + row_text(board@, r as int, c as int + 1) =~= before + row_text(board@, r as int, c as int) + cell_text(t));
            c = c + 1;
        }
        out.push('\n');
        assert(out@ =~= board_text(board@, r as int + 1));
        r = r + 1;
    }
    out
}

} // verus!
