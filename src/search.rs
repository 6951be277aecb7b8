use vstd::multiset::Multiset;
use vstd::prelude::*;

use crate::color::{Color, color_of};
use crate::inventory::{cell_contribution, find_available_tower, keys_of, lemma_keys_contains, lemma_keys_push_remove};
use crate::tower::{
    Position, Tower, advance_position, back_position, cell_index, key, on_grid, spec_advance,
    spec_back,
};

verus! {

broadcast use {vstd::multiset::group_multiset_axioms, vstd::multiset::group_multiset_properties};

/// The height table is six rows of six entries, each from 0 to 5.
pub open spec fn heights_ok(h: Seq<Vec<i32>>) -> bool {
    &&& h.len() == 6
    &&& forall|r: int| 0 <= r < 6 ==> (#[trigger] h[r]@).len() == 6
    &&& forall|r: int, c: int| 0 <= r < 6 && 0 <= c < 6 ==> 0 <= #[trigger] h[r]@[c] <= 5
}

/// The height that a tower in cell (r, c) must have.
pub open spec fn required_height(h: Seq<Vec<i32>>, r: int, c: int) -> int {
    6 - h[r]@[c]
}

/// The cell in row `r`, column `c` of a board.
pub open spec fn cell(b: Seq<Tower>, r: int, c: int) -> Tower {
    b[r * 6 + c]
}

/// No tower of color number `c` stands in the row or the column of `p`.
pub open spec fn color_free(b: Seq<Tower>, p: Position, c: int) -> bool {
    &&& forall|j: int|
        0 <= j < 6 ==> !((#[trigger] cell(b, p.row as int, j)).inuse && cell(b, p.row as int, j).color.index() == c)
    &&& forall|j: int|
        0 <= j < 6 ==> !((#[trigger] cell(b, j, p.column as int)).inuse && cell(b, j, p.column as int).color.index() == c)
}

/// Color number `c` may go into the cell of `p`: a free tower of the cell's
/// height has that color, and the color is not yet in the cell's row or column.
pub open spec fn candidate_ok(b: Seq<Tower>, free: Multiset<(int, int)>, h: Seq<Vec<i32>>, p: Position, c: int) -> bool {
    &&& free.count((required_height(h, p.row as int, p.column as int), c)) > 0
    &&& color_free(b, p, c)
}

/// The least color number from `c` on that may go into the cell of `p`, or 6
/// where there is none.
pub open spec fn first_from(b: Seq<Tower>, free: Multiset<(int, int)>, h: Seq<Vec<i32>>, p: Position, c: int) -> int
    decreases 6 - c,
{
    if c >= 6 {
        6
    } else if candidate_ok(b, free, h, p, c) {
        c
    } else {
        first_from(b, free, h, p, c + 1)
    }
}

/// The first color to try in a cell: the one after the color it holds, or red
/// for an empty cell.
pub open spec fn start_color(t: Tower) -> int {
    if t.inuse {
        t.color.index() + 1
    } else {
        0
    }
}

/// The cell holds purple, the last color: every color has been tried there.
pub open spec fn exhausted(t: Tower) -> bool {
    t.inuse && t.color == Color::Purple
}

/// The color that a step at `p` places, or 6 where it places none.
pub open spec fn chosen_color(b: Seq<Tower>, free: Multiset<(int, int)>, h: Seq<Vec<i32>>, p: Position) -> int {
    let cur = b[cell_index(p)];
    if exhausted(cur) {
        6
    } else {
        first_from(b, free, h, p, start_color(cur))
    }
}

/// The board after a step at `p`: the chosen tower in the cell, or the cell
/// emptied where no color is left to try.
pub open spec fn next_board(b: Seq<Tower>, free: Multiset<(int, int)>, h: Seq<Vec<i32>>, p: Position) -> Seq<Tower> {
    let cur = b[cell_index(p)];
    let c = chosen_color(b, free, h, p);
    if c < 6 {
        b.update(
            cell_index(p),
            Tower {
                height: required_height(h, p.row as int, p.column as int) as i8,
                color: color_of(c),
                inuse: true,
            },
        )
    } else {
        b.update(cell_index(p), Tower { height: cur.height, color: cur.color, inuse: false })
    }
}

/// The free towers after a step at `p`: the cell's old tower comes back, and
/// the chosen one leaves.
pub open spec fn next_free(b: Seq<Tower>, free: Multiset<(int, int)>, h: Seq<Vec<i32>>, p: Position) -> Multiset<(int, int)> {
    let released = free.add(cell_contribution(b[cell_index(p)]));
    let c = chosen_color(b, free, h, p);
    if c < 6 {
        released.remove((required_height(h, p.row as int, p.column as int), c))
    } else {
        released
    }
}

/// The cursor after a step at `p`: forward after a placement, else back.
pub open spec fn next_position(b: Seq<Tower>, free: Multiset<(int, int)>, h: Seq<Vec<i32>>, p: Position) -> Position {
    if chosen_color(b, free, h, p) < 6 {
        spec_advance(p)
    } else {
        spec_back(p)
    }
}

/// Whether no tower of `color` stands in the row or the column of `p`.
pub fn color_is_free(board: &Vec<Tower>, p: Position, color: Color) -> (r: bool)
    requires
        board.len() == 36,
        on_grid(p),
    ensures
        r == color_free(board@, p, color.index()),
{
    let row = p.row as usize;
    let column = p.column as usize;
    let mut i: usize = 0;
    while i < 6
        invariant
            board.len() == 36,
            on_grid(p),
            row == p.row,
            column == p.column,
            i <= 6,
            forall|j: int| 0 <= j < i ==> !((#[trigger] cell(board@, p.row as int, j)).inuse
                && cell(board@, p.row as int, j).color.index() == color.index()),
        decreases 6 - i,
    {
        let t = board[row * 6 + i];
        if t.color == color && t.inuse {
            assert(t == cell(board@, p.row as int, i as int));
            assert(!color_free(board@, p, color.index())) by {
                assert(cell(board@, p.row as int, i as int).inuse
                    && cell(board@, p.row as int, i as int).color.index() == color.index());
            }
            return false;
        }
        i = i + 1;
    }
    let mut i: usize = 0;
    while i < 6
        invariant
            board.len() == 36,
            on_grid(p),
            row == p.row,
            column == p.column,
            i <= 6,
            forall|j: int| 0 <= j < 6 ==> !((#[trigger] cell(board@, p.row as int, j)).inuse
                && cell(board@, p.row as int, j).color.index() == color.index()),
            forall|j: int| 0 <= j < i ==> !((#[trigger] cell(board@, j, p.column as int)).inuse
                && cell(board@, j, p.column as int).color.index() == color.index()),
        decreases 6 - i,
    {
        let t = board[i * 6 + column];
        if t.color == color && t.inuse {
            assert(t == cell(board@, i as int, p.column as int));
            assert(!color_free(board@, p, color.index())) by {
                assert(cell(board@, i as int, p.column as int).inuse
                    && cell(board@, i as int, p.column as int).color.index() == color.index());
            }
            return false;
        }
        i = i + 1;
    }
    true
}

/// One step of the search at cursor `p`. Where the cell holds purple, its
/// tower goes back to the free towers and the cursor steps back. Otherwise the
/// colors after the cell's own (from red for an empty cell) are tried in
/// order; the first one for which a free tower of the cell's height exists and
/// which the cell's row and column do not hold yet is placed, the cell's old
/// tower going back, and the cursor steps forward. Where none fits, the cell
/// is emptied and the cursor steps back.
pub fn evaluate_cube(
    board: &mut Vec<Tower>,
    freetowers: &mut Vec<Tower>,
    board_height: &Vec<Vec<i32>>,
    p: Position,
) -> (r: Position)
    requires
        old(board).len() == 36,
        old(freetowers).len() < i32::MAX,
        heights_ok(board_height@),
        on_grid(p),
    ensures
        final(board)@ == next_board(old(board)@, keys_of(old(freetowers)@), board_height@, p),
        keys_of(final(freetowers)@) == next_free(old(board)@, keys_of(old(freetowers)@), board_height@, p),
        final(freetowers).len() <= old(freetowers).len() + 1,
        r == next_position(old(board)@, keys_of(old(freetowers)@), board_height@, p),
{
    let ghost b0 = board@;
    let ghost f0 = keys_of(freetowers@);
    let ghost s0 = freetowers@;
    let ghost hs = board_height@;
    let k = (p.row * 6 + p.column) as usize;
    let cur = board[k];
    if cur.inuse && cur.color == Color::Purple {
        let cleared = Tower::new(cur.height, cur.color, false);
        board.set(k, cleared);
        freetowers.push(cleared);
        proof {
            lemma_keys_push_remove(s0, cleared);
            assert(f0.insert(key(cur)) =~= f0.add(cell_contribution(cur)));
        }
        return back_position(p);
    }
    let height = (6 - board_height[p.row as usize][p.column as usize]) as i8;
    let mut i: u8 = if cur.inuse {
        cur.color.int_value() + 1
    } else {
        0
    };
    while i < 6
        invariant
            board@ == b0,
            freetowers@ == s0,
            b0 == old(board)@,
            s0 == old(freetowers)@,
            f0 == keys_of(s0),
            board_height@ == hs,
            b0.len() == 36,
            s0.len() < i32::MAX,
            heights_ok(hs),
            on_grid(p),
            k == cell_index(p),
            cur == b0[k as int],
            !exhausted(cur),
            height as int == required_height(hs, p.row as int, p.column as int),
            start_color(cur) <= i <= 6,
            first_from(b0, f0, hs, p, start_color(cur)) == first_from(b0, f0, hs, p, i as int),
        decreases 6 - i,
    {
        let color = match Color::from_int(i) {
            Some(c) => c,
            // not taken: `i` is below six here
            None => Color::Red,
        };
        let wanted = Tower::new(height, color, false);
        let index = find_available_tower(freetowers, wanted);
        proof {
            lemma_keys_contains(s0, key(wanted));
        }
        if index > -1 && color_is_free(board, p, color) {
            if cur.inuse {
                freetowers.push(cur);
            }
            board.set(k, Tower::new(height, color, true));
            freetowers.remove(index as usize);
            proof {
                let pushed = if cur.inuse { s0.push(cur) } else { s0 };
                lemma_keys_push_remove(s0, cur);
                lemma_keys_push_remove(pushed, cur);
                assert(pushed[index as int] == s0[index as int]);
                assert(keys_of(freetowers@) == keys_of(pushed).remove(key(wanted)));
                if cur.inuse {
                    assert(f0.insert(key(cur)) =~= f0.add(cell_contribution(cur)));
                } else {
                    assert(f0 =~= f0.add(cell_contribution(cur)));
                }
                assert(keys_of(pushed) == f0.add(cell_contribution(cur)));
                assert(color_free(b0, p, i as int));
                assert(candidate_ok(b0, f0, hs, p, i as int));
                assert(chosen_color(b0, f0, hs, p) == i);
                assert(key(wanted) == (required_height(hs, p.row as int, p.column as int), i as int));
                assert(board@ =~= next_board(b0, f0, hs, p));
            }
            return advance_position(p);
        }
        i = i + 1;
    }
    if cur.inuse {
        let cleared = Tower::new(cur.height, cur.color, false);
        board.set(k, cleared);
        freetowers.push(cleared);
        proof {
            lemma_keys_push_remove(s0, cleared);
            assert(f0.insert(key(cur)) =~= f0.add(cell_contribution(cur)));
        }
    } else {
        assert(board@ =~= next_board(b0, f0, hs, p));
        assert(keys_of(freetowers@) =~= f0.add(cell_contribution(cur)));
    }
    back_position(p)
}

} // verus!
