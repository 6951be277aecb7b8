use vstd::multiset::Multiset;
use vstd::prelude::*;

use crate::color::{Color, color_of};
use crate::inventory::{
    cell_contribution, conserved, full_inventory, keys_of, lemma_inventory_count, lemma_keys_len,
    lemma_placed_update, placed, placed_count,
};
use crate::search::{
    cell, chosen_color, evaluate_cube, first_from, heights_ok, next_board, next_free, next_position,
    required_height, start_color, color_free, exhausted, candidate_ok,
};
use crate::tower::{
    Position, Tower, cell_index, is_sentinel, lemma_advance_walk, lemma_back_walk, on_grid,
    spec_advance, spec_back, walk_index,
};

verus! {

broadcast use {vstd::multiset::group_multiset_axioms, vstd::multiset::group_multiset_properties};

/// Every tower on the board has the height its cell asks for.
pub open spec fn heights_match(b: Seq<Tower>, h: Seq<Vec<i32>>) -> bool {
    forall|r: int, c: int|
        0 <= r < 6 && 0 <= c < 6 && (#[trigger] cell(b, r, c)).inuse ==> cell(b, r, c).height
            == required_height(h, r, c)
}

/// No two towers on the board share a color within a row or within a column.
pub open spec fn colors_distinct(b: Seq<Tower>) -> bool {
    &&& forall|r: int, c1: int, c2: int|
        0 <= r < 6 && 0 <= c1 < 6 && 0 <= c2 < 6 && c1 != c2 && (#[trigger] cell(b, r, c1)).inuse
            && (#[trigger] cell(b, r, c2)).inuse ==> cell(b, r, c1).color != cell(b, r, c2).color
    &&& forall|c: int, r1: int, r2: int|
        0 <= c < 6 && 0 <= r1 < 6 && 0 <= r2 < 6 && r1 != r2 && (#[trigger] cell(b, r1, c)).inuse
            && (#[trigger] cell(b, r2, c)).inuse ==> cell(b, r1, c).color != cell(b, r2, c).color
}

/// What the search keeps true of its board.
pub open spec fn board_ok(b: Seq<Tower>, h: Seq<Vec<i32>>) -> bool {
    b.len() == 36 && heights_match(b, h) && colors_distinct(b)
}

/// A full solution: every cell holds a tower of the height it asks for, and no
/// color repeats in a row or a column.
pub open spec fn is_solution(b: Seq<Tower>, h: Seq<Vec<i32>>) -> bool {
    &&& board_ok(b, h)
    &&& forall|i: int| 0 <= i < 36 ==> (#[trigger] b[i]).inuse
}

/// The board the search starts from: every cell empty.
pub open spec fn empty_board() -> Seq<Tower> {
    Seq::new(36, |i: int| Tower { height: 1, color: Color::Red, inuse: false })
}

/// Where the search starts: the last column of the first row.
pub open spec fn start_position() -> Position {
    Position { row: 0, column: 5 }
}

/// The color a step picks is at least the first one it tries, and passes the
/// candidate test.
pub proof fn lemma_first_from_range(b: Seq<Tower>, f: Multiset<(int, int)>, h: Seq<Vec<i32>>, p: Position, c: int)
    requires
        0 <= c,
    ensures
        c <= 6 ==> c <= first_from(b, f, h, p, c) <= 6,
        first_from(b, f, h, p, c) < 6 ==> candidate_holds(b, f, h, p, first_from(b, f, h, p, c)),
    decreases 6 - c,
{
    if c < 6 && !candidate_ok(b, f, h, p, c) {
        lemma_first_from_range(b, f, h, p, c + 1);
    }
}

/// Color `c` has a free tower of the cell's height and is missing from the
/// cell's row and column.
pub open spec fn candidate_holds(b: Seq<Tower>, f: Multiset<(int, int)>, h: Seq<Vec<i32>>, p: Position, c: int) -> bool {
    0 <= c < 6 && candidate_ok(b, f, h, p, c)
}

/// A step keeps every tower accounted for: what it takes from the free towers
/// it puts on the board, and what it takes off the board it frees.
pub proof fn lemma_step_conserves(b: Seq<Tower>, f: Multiset<(int, int)>, h: Seq<Vec<i32>>, p: Position)
    requires
        b.len() == 36,
        heights_ok(h),
        on_grid(p),
    ensures
        placed(next_board(b, f, h, p)).add(next_free(b, f, h, p)) == placed(b).add(f),
{
    let k = cell_index(p);
    let cur = b[k];
    let c = chosen_color(b, f, h, p);
    let b2 = next_board(b, f, h, p);
    if !exhausted(cur) {
        lemma_first_from_range(b, f, h, p, start_color(cur));
    }
    if c < 6 {
        let t = b2[k];
        let rh = required_height(h, p.row as int, p.column as int);
        assert(1 <= rh <= 6);
        assert(color_of(c).index() == c);
        assert(crate::tower::key(t) == (rh, c));
        assert(f.count((rh, c)) > 0);
        lemma_placed_update(b, k, t);
        assert(b2 == b.update(k, t));
        let nf = next_free(b, f, h, p);
        assert(nf == f.add(cell_contribution(cur)).remove((rh, c)));
        assert forall|x: (int, int)| #[trigger] placed(b2).add(nf).count(x) == placed(b).add(f).count(x) by {
            assert(placed(b2).add(cell_contribution(cur)).count(x) == placed(b).add(cell_contribution(t)).count(x));
        }
        assert(placed(b2).add(nf) =~= placed(b).add(f));
    } else {
        let t = Tower { height: cur.height, color: cur.color, inuse: false };
        lemma_placed_update(b, k, t);
        assert(b2 == b.update(k, t));
        let nf = next_free(b, f, h, p);
        assert(nf == f.add(cell_contribution(cur)));
        assert forall|x: (int, int)| #[trigger] placed(b2).add(nf).count(x) == placed(b).add(f).count(x) by {
            assert(placed(b2).add(cell_contribution(cur)).count(x) == placed(b).add(cell_contribution(t)).count(x));
        }
        assert(placed(b2).add(nf) =~= placed(b).add(f));
    }
}

/// A step keeps the board consistent: heights as asked and no color repeated
/// in a row or a column.
pub proof fn lemma_step_keeps_board(b: Seq<Tower>, f: Multiset<(int, int)>, h: Seq<Vec<i32>>, p: Position)
    requires
        board_ok(b, h),
        heights_ok(h),
        on_grid(p),
    ensures
        board_ok(next_board(b, f, h, p), h),
{
    let k = cell_index(p);
    let cur = b[k];
    let c = chosen_color(b, f, h, p);
    let b2 = next_board(b, f, h, p);
    if !exhausted(cur) {
        lemma_first_from_range(b, f, h, p, start_color(cur));
    }
    assert forall|r: int, col: int| 0 <= r < 6 && 0 <= col < 6 && (r != p.row || col != p.column) implies #[trigger] cell(b2, r, col)
        == cell(b, r, col) by {
        assert(r * 6 + col != k);
    }
    assert(cell(b2, p.row as int, p.column as int) == b2[k]);
    if c < 6 {
        assert(color_free(b, p, c));
        assert(color_of(c).index() == c);
    }
}

/// Walk place `j` of the serpentine walk, as an index into the board.
pub open spec fn walk_cell(j: int) -> int {
    (j / 6) * 6 + (5 - j % 6)
}

pub open spec fn pow16(n: nat) -> int
    decreases n,
{
    if n == 0 {
        1
    } else {
        16 * pow16((n - 1) as nat)
    }
}

/// How far a cell has got through the colors: 0 when empty, else one more
/// than its color's number.
pub open spec fn cell_value(t: Tower) -> int {
    if t.inuse {
        t.color.index() + 1
    } else {
        0
    }
}

/// The weight of the first `k` cells of the walk, each counted in base 16
/// with the earliest cell the most significant.
pub open spec fn prefix_weight(b: Seq<Tower>, k: int) -> int
    decreases k,
{
    if k <= 0 {
        0
    } else {
        prefix_weight(b, k - 1) + 2 * cell_value(b[walk_cell(k - 1)]) * pow16((36 - k) as nat)
    }
}

/// How far the search has come: the cells before the cursor, then the
/// cursor's own cell counted half a digit higher. Every step raises it.
pub open spec fn progress(b: Seq<Tower>, p: Position) -> int {
    let k = walk_index(p);
    prefix_weight(b, k) + (2 * cell_value(b[cell_index(p)]) + 1) * pow16((35 - k) as nat)
}

/// What is left of the search; it shrinks with every step.
pub open spec fn remaining(b: Seq<Tower>, p: Position) -> int {
    if on_grid(p) {
        pow16(36) - progress(b, p)
    } else {
        0
    }
}

proof fn lemma_pow16_pos(n: nat)
    ensures
        pow16(n) >= 1,
    decreases n,
{
    if n > 0 {
        lemma_pow16_pos((n - 1) as nat);
    }
}

proof fn lemma_walk_cell(p: Position)
    requires
        on_grid(p),
    ensures
        walk_cell(walk_index(p)) == cell_index(p),
        forall|j: int| 0 <= j < 36 && j != walk_index(p) ==> #[trigger] walk_cell(j) != cell_index(p),
        0 <= walk_index(p) < 36,
{
    assert forall|j: int| 0 <= j < 36 && j != walk_index(p) implies #[trigger] walk_cell(j) != cell_index(p) by {
        assert(walk_cell(j) == cell_index(p) ==> j == walk_index(p)) by (nonlinear_arith)
            requires 0 <= j < 36, 0 <= p.row < 6, 0 <= p.column < 6,
                walk_cell(j) == (j / 6) * 6 + (5 - j % 6),
                cell_index(p) == p.row * 6 + p.column,
                walk_index(p) == p.row * 6 + (5 - p.column);
    }
    assert(walk_cell(walk_index(p)) == cell_index(p)) by (nonlinear_arith)
        requires 0 <= p.row < 6, 0 <= p.column < 6,
            walk_cell(walk_index(p)) == (walk_index(p) / 6) * 6 + (5 - walk_index(p) % 6),
            cell_index(p) == p.row * 6 + p.column,
            walk_index(p) == p.row * 6 + (5 - p.column);
}

proof fn lemma_walk_cell_range(j: int)
    requires
        0 <= j < 36,
    ensures
        0 <= walk_cell(j) < 36,
{
}

proof fn lemma_prefix_frame(b: Seq<Tower>, b2: Seq<Tower>, k: int)
    requires
        0 <= k <= 36,
        forall|j: int| 0 <= j < k ==> b2[walk_cell(j)] == b[#[trigger] walk_cell(j)],
    ensures
        prefix_weight(b2, k) == prefix_weight(b, k),
    decreases k,
{
    if k > 0 {
        lemma_prefix_frame(b, b2, k - 1);
        assert(b2[walk_cell(k - 1)] == b[walk_cell(k - 1)]);
    }
}

proof fn lemma_prefix_bound(b: Seq<Tower>, k: int)
    requires
        0 <= k <= 36,
    ensures
        prefix_weight(b, k) + pow16((36 - k) as nat) <= pow16(36),
        prefix_weight(b, k) >= 0,
    decreases k,
{
    if k > 0 {
        lemma_prefix_bound(b, k - 1);
        let e = pow16((36 - k) as nat);
        let v = cell_value(b[walk_cell(k - 1)]);
        lemma_pow16_pos((36 - k) as nat);
        assert(pow16((37 - k) as nat) == 16 * e);
        assert(0 <= v <= 6);
        assert(2 * v * e + e <= 16 * e && 2 * v * e >= 0) by (nonlinear_arith)
            requires 0 <= v <= 6, e >= 1;
    }
}

proof fn lemma_progress_bound(b: Seq<Tower>, p: Position)
    requires
        on_grid(p),
        b.len() == 36,
    ensures
        0 <= progress(b, p) < pow16(36),
{
    let k = walk_index(p);
    lemma_prefix_bound(b, k);
    let e = pow16((35 - k) as nat);
    lemma_pow16_pos((35 - k) as nat);
    assert(pow16((36 - k) as nat) == 16 * e);
    let v = cell_value(b[cell_index(p)]);
    assert(0 <= v <= 6);
    assert((2 * v + 1) * e < 16 * e && (2 * v + 1) * e >= 0) by (nonlinear_arith)
        requires 0 <= v <= 6, e >= 1;
}

/// Every step of the search from a cell of the board moves to another cell or
/// to the end-of-search mark, and leaves less of the search to do.
pub proof fn lemma_step_progress(b: Seq<Tower>, f: Multiset<(int, int)>, h: Seq<Vec<i32>>, p: Position)
    requires
        b.len() == 36,
        heights_ok(h),
        on_grid(p),
    ensures
        on_grid(next_position(b, f, h, p)) || is_sentinel(next_position(b, f, h, p)),
        0 <= remaining(next_board(b, f, h, p), next_position(b, f, h, p)) < remaining(b, p),
{
    let k = walk_index(p);
    let ci = cell_index(p);
    let cur = b[ci];
    let c = chosen_color(b, f, h, p);
    let b2 = next_board(b, f, h, p);
    let p2 = next_position(b, f, h, p);
    lemma_walk_cell(p);
    lemma_progress_bound(b, p);
    lemma_back_walk(p);
    lemma_advance_walk(p);
    if !exhausted(cur) {
        lemma_first_from_range(b, f, h, p, start_color(cur));
    }
    assert(b2.len() == 36);
    assert forall|j: int| 0 <= j < k implies b2[walk_cell(j)] == b[#[trigger] walk_cell(j)] by {
        lemma_walk_cell_range(j);
    }
    lemma_prefix_frame(b, b2, k);
    let e = pow16((35 - k) as nat);
    lemma_pow16_pos((35 - k) as nat);
    if c < 6 && k < 35 {
        // forward: the cursor's cell moved to a later color
        assert(p2 == spec_advance(p));
        lemma_progress_bound(b2, p2);
        let e2 = pow16((34 - k) as nat);
        lemma_pow16_pos((34 - k) as nat);
        assert(e == 16 * e2);
        assert(walk_index(p2) == k + 1);
        lemma_walk_cell(p2);
        assert(b2[ci] == b2[walk_cell(k)]);
        assert(cell_value(b2[ci]) == c + 1);
        assert(cell_value(cur) == start_color(cur));
        assert(cell_value(cur) <= c);
        let v = cell_value(cur);
        let v2 = cell_value(b2[cell_index(p2)]);
        assert(0 <= v2);
        assert(prefix_weight(b2, k + 1) == prefix_weight(b, k) + 2 * (c + 1) * e);
        assert(2 * (c + 1) * e + (2 * v2 + 1) * e2 > (2 * v + 1) * e) by (nonlinear_arith)
            requires v <= c, 0 <= v2, e2 >= 1, e >= 1;
    } else {
        // backward: the cursor's cell no longer counts
        assert(p2 == spec_back(p));
        if k > 0 {
            lemma_progress_bound(b2, p2);
            assert(walk_index(p2) == k - 1);
            lemma_walk_cell(p2);
            assert(pow16((36 - k) as nat) == 16 * e);
            assert(b2[cell_index(p2)] == b[walk_cell(k - 1)]);
            let v = cell_value(cur);
            let w = cell_value(b[walk_cell(k - 1)]);
            assert(0 <= v <= 6);
            assert(prefix_weight(b, k) == prefix_weight(b, k - 1) + 2 * w * (16 * e));
            lemma_prefix_frame(b, b2, k - 1);
            assert((2 * w + 1) * (16 * e) > 2 * w * (16 * e) + (2 * v + 1) * e) by (nonlinear_arith)
                requires 0 <= v <= 6, e >= 1;
        }
    }
}

} // verus!

verus! {

/// The state is one the search can be in: a full board, a valid height table,
/// and a cursor on the board or at the end-of-search mark.
pub open spec fn state_ok(b: Seq<Tower>, h: Seq<Vec<i32>>, p: Position) -> bool {
    b.len() == 36 && heights_ok(h) && (on_grid(p) || is_sentinel(p))
}

/// The boards that the search reports from the given state on, in the order in
/// which it reaches them: after every step that leaves no tower free, the
/// board as it then stands.
pub open spec fn solutions(b: Seq<Tower>, f: Multiset<(int, int)>, h: Seq<Vec<i32>>, p: Position) -> Seq<Seq<Tower>>
    decreases remaining(b, p),
    when state_ok(b, h, p)
    via solutions_decreases
{
    if is_sentinel(p) {
        Seq::empty()
    } else {
        let b2 = next_board(b, f, h, p);
        let f2 = next_free(b, f, h, p);
        let found = if f2.len() == 0 {
            seq![b2]
        } else {
            Seq::empty()
        };
        found + solutions(b2, f2, h, next_position(b, f, h, p))
    }
}

#[via_fn]
proof fn solutions_decreases(b: Seq<Tower>, f: Multiset<(int, int)>, h: Seq<Vec<i32>>, p: Position) {
    if state_ok(b, h, p) && !is_sentinel(p) {
        lemma_step_progress(b, f, h, p);
    }
}

/// Every board that the search reports, from a consistent state that holds
/// the 36 towers of a fresh inventory, is a full solution: every cell has a
/// tower of the height it asks for, and no color repeats in a row or a column.
pub proof fn lemma_reported_are_solutions(b: Seq<Tower>, f: Multiset<(int, int)>, h: Seq<Vec<i32>>, p: Position)
    requires
        state_ok(b, h, p),
        board_ok(b, h),
        placed(b).add(f) == full_inventory(),
    ensures
        forall|i: int| 0 <= i < solutions(b, f, h, p).len() ==> is_solution(#[trigger] solutions(b, f, h, p)[i], h),
    decreases remaining(b, p),
{
    if !is_sentinel(p) {
        let b2 = next_board(b, f, h, p);
        let f2 = next_free(b, f, h, p);
        let p2 = next_position(b, f, h, p);
        lemma_step_progress(b, f, h, p);
        lemma_step_conserves(b, f, h, p);
        lemma_step_keeps_board(b, f, h, p);
        lemma_reported_are_solutions(b2, f2, h, p2);
        if f2.len() == 0 {
            lemma_full_board(b2, f2, h);
        }
        let found = if f2.len() == 0 { seq![b2] } else { Seq::<Seq<Tower>>::empty() };
        assert(solutions(b, f, h, p) == found + solutions(b2, f2, h, p2));
        assert forall|i: int| 0 <= i < solutions(b, f, h, p).len() implies is_solution(#[trigger] solutions(b, f, h, p)[i], h) by {
            if i >= found.len() {
                assert(solutions(b, f, h, p)[i] == solutions(b2, f2, h, p2)[i - found.len()]);
            }
        }
    }
}

/// A consistent board that holds every tower of a fresh inventory, none being
/// left free, is a full solution.
pub proof fn lemma_full_board(b: Seq<Tower>, f: Multiset<(int, int)>, h: Seq<Vec<i32>>)
    requires
        board_ok(b, h),
        placed(b).add(f) == full_inventory(),
        f.len() == 0,
    ensures
        is_solution(b, h),
{
    crate::inventory::lemma_placed_len(b);
    lemma_keys_len(crate::inventory::full_inventory_seq());
    crate::inventory::lemma_all_placed(b);
}

/// A board of 36 empty cells.
pub fn empty_board_vec() -> (r: Vec<Tower>)
    ensures
        r@ == empty_board(),
{
    let mut board: Vec<Tower> = Vec::new();
    while board.len() < 36
        invariant
            board.len() <= 36,
            forall|i: int| 0 <= i < board.len() ==> board@[i] == empty_board()[i],
        decreases 36 - board.len(),
    {
        board.push(Tower::new(1, Color::Red, false));
    }
    assert(board@ =~= empty_board());
    board
}

fn copy_board(board: &Vec<Tower>) -> (r: Vec<Tower>)
    ensures
        r@ == board@,
{
    let mut out: Vec<Tower> = Vec::new();
    let mut i: usize = 0;
    while i < board.len()
        invariant
            i <= board.len(),
            out@ == board@.subrange(0, i as int),
        decreases board.len() - i,
    {
        out.push(board[i]);
        i = i + 1;
        assert(out@ =~= board@.subrange(0, i as int));
    }
    assert(out@ =~= board@);
    out
}

/// Runs the whole search from an empty board and the given free towers, and
/// returns every board reported, in the order found. The result depends on the
/// height table and on which towers are free alone (not on their order), so
/// two runs on the same input report the same boards in the same order. With a
/// fresh inventory every board reported is a full solution.
pub fn find_solutions(board_height: &Vec<Vec<i32>>, freetowers: Vec<Tower>) -> (r: Vec<Vec<Tower>>)
    requires
        heights_ok(board_height@),
        freetowers.len() < i32::MAX,
    ensures
        r@.map_values(|v: Vec<Tower>| v@) == solutions(empty_board(), keys_of(freetowers@), board_height@, start_position()),
        keys_of(freetowers@) == full_inventory() ==> forall|i: int| 0 <= i < r.len() ==> is_solution(#[trigger] r@[i]@, board_height@),
{
    let ghost h = board_height@;
    let ghost inv = keys_of(freetowers@);
    let ghost start = start_position();
    let mut board = empty_board_vec();
    let mut free = freetowers;
    let mut position = Position::new(0, 5);
    let mut found: Vec<Vec<Tower>> = Vec::new();
    proof {
        crate::inventory::lemma_placed_len(board@);
        assert(placed(empty_board()) =~= Multiset::empty()) by {
            lemma_empty_placed(36);
            assert(empty_board().subrange(0, 36) =~= empty_board());
        }
        assert(placed(board@).add(keys_of(free@)) =~= inv);
        lemma_keys_len(free@);
        assert(found@.map_values(|v: Vec<Tower>| v@) =~= Seq::<Seq<Tower>>::empty());
    }
    while !(position.row == -1 || position.column == -1)
        invariant
            heights_ok(h),
            board_height@ == h,
            board@.len() == 36,
            on_grid(position) || is_sentinel(position),
            conserved(board@, free@, inv),
            inv.len() < i32::MAX,
            board_ok(board@, h),
            solutions(empty_board(), inv, h, start) == found@.map_values(|v: Vec<Tower>| v@) + solutions(board@, keys_of(free@), h, position),
            inv == full_inventory() ==> forall|i: int| 0 <= i < found.len() ==> is_solution(#[trigger] found@[i]@, h),
        decreases remaining(board@, position),
    {
        let ghost b0 = board@;
        let ghost f0 = keys_of(free@);
        let ghost p0 = position;
        let ghost found0 = found@.map_values(|v: Vec<Tower>| v@);
        proof {
            lemma_inventory_count(board@, free@, inv);
        }
        position = evaluate_cube(&mut board, &mut free, board_height, position);
        proof {
            lemma_step_conserves(b0, f0, h, p0);
            lemma_step_keeps_board(b0, f0, h, p0);
            lemma_step_progress(b0, f0, h, p0);
            lemma_keys_len(free@);
        }
        if free.len() == 0 {
            let snapshot = copy_board(&board);
            found.push(snapshot);
            proof {
                if inv == full_inventory() {
                    lemma_full_board(board@, keys_of(free@), h);
                }
                assert(found@.map_values(|v: Vec<Tower>| v@) =~= found0.push(board@));
            }
        }
        proof {
            let b2 = board@;
            let f2 = keys_of(free@);
            let fd = if f2.len() == 0 { seq![b2] } else { Seq::<Seq<Tower>>::empty() };
            assert(solutions(b0, f0, h, p0) == fd + solutions(b2, f2, h, position));
            assert(found@.map_values(|v: Vec<Tower>| v@) =~= found0 + fd);
            assert(found0 + (fd + solutions(b2, f2, h, position)) =~= (found0 + fd) + solutions(b2, f2, h, position));
        }
    }
    assert(solutions(board@, keys_of(free@), h, position) == Seq::<Seq<Tower>>::empty());
    assert(found@.map_values(|v: Vec<Tower>| v@) + Seq::<Seq<Tower>>::empty() =~= found@.map_values(|v: Vec<Tower>| v@));
    found
}

/// Determinism: the search reports the same boards in the same order whenever
/// it starts from the same height table and the same free towers, in whatever
/// order those towers are listed.
pub proof fn lemma_search_deterministic(h1: Seq<Vec<i32>>, h2: Seq<Vec<i32>>, free1: Seq<Tower>, free2: Seq<Tower>)
    requires
        h1 == h2,
        keys_of(free1) == keys_of(free2),
    ensures
        solutions(empty_board(), keys_of(free1), h1, start_position()) == solutions(
            empty_board(),
            keys_of(free2),
            h2,
            start_position(),
        ),
{
}

/// Every board that a search from an empty board and a fresh inventory
/// reports is a full solution: each row and each column holds six different
/// colors, and each cell a tower of the height its table entry asks for.
pub proof fn lemma_search_reports_solutions(h: Seq<Vec<i32>>)
    requires
        heights_ok(h),
    ensures
        forall|i: int|
            0 <= i < solutions(empty_board(), full_inventory(), h, start_position()).len()
                ==> is_solution(#[trigger] solutions(empty_board(), full_inventory(), h, start_position())[i], h),
{
    lemma_empty_placed(36);
    assert(empty_board().subrange(0, 36) =~= empty_board());
    assert(placed(empty_board()).add(full_inventory()) =~= full_inventory());
    lemma_reported_are_solutions(empty_board(), full_inventory(), h, start_position());
}

proof fn lemma_empty_placed(n: int)
    requires
        0 <= n <= 36,
    ensures
        placed(empty_board().subrange(0, n)) =~= Multiset::empty(),
    decreases n,
{
    if n > 0 {
        lemma_empty_placed(n - 1);
        assert(empty_board().subrange(0, n).drop_last() =~= empty_board().subrange(0, n - 1));
    }
    assert(placed(empty_board().subrange(0, n)) =~= Multiset::empty());
}

} // verus!
